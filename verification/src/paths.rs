use vstd::prelude::*;

use crate::error::Error;

verus! {

/// A single path component is non-empty, contains no separator, and is not
/// "." (the textual form of the root path).
pub open spec fn valid_component(c: Seq<char>) -> bool {
    &&& c.len() > 0
    &&& (forall|i: int| 0 <= i < c.len() ==> c[i] != '/')
    &&& c != seq!['.']
}

pub open spec fn valid_components(cs: Seq<Seq<char>>) -> bool {
    forall|i: int| 0 <= i < cs.len() ==> valid_component(#[trigger] cs[i])
}

/// Index of the first separator in `s`, or -1 if there is none.
pub open spec fn first_sep(s: Seq<char>) -> int
    decreases s.len(),
{
    if s.len() == 0 {
        -1
    } else if s[0] == '/' {
        0
    } else {
        let r = first_sep(s.drop_first());
        if r < 0 {
            -1
        } else {
            r + 1
        }
    }
}

pub proof fn lemma_first_sep(s: Seq<char>)
    ensures
        -1 <= first_sep(s) < s.len(),
        first_sep(s) >= 0 ==> s[first_sep(s)] == '/',
        forall|j: int| 0 <= j < first_sep(s) ==> s[j] != '/',
        first_sep(s) == -1 ==> forall|j: int| 0 <= j < s.len() ==> s[j] != '/',
    decreases s.len(),
{
    if s.len() == 0 {
    } else if s[0] == '/' {
    } else {
        lemma_first_sep(s.drop_first());
        assert forall|j: int| 0 <= j < first_sep(s) implies s[j] != '/' by {
            if j > 0 {
                assert(s.drop_first()[j - 1] != '/');
            }
        }
        if first_sep(s) == -1 {
            assert forall|j: int| 0 <= j < s.len() implies s[j] != '/' by {
                if j > 0 {
                    assert(s.drop_first()[j - 1] != '/');
                }
            }
        }
    }
}

/// The first separator is exactly where a separator first occurs.
pub proof fn lemma_first_sep_at(s: Seq<char>, k: int)
    requires
        0 <= k <= s.len(),
        forall|j: int| 0 <= j < k ==> s[j] != '/',
        k < s.len() ==> s[k] == '/',
    ensures
        first_sep(s) == if k < s.len() {
            k
        } else {
            -1
        },
{
    lemma_first_sep(s);
    let m = first_sep(s);
    if k < s.len() {
        if m == -1 {
            assert(s[k] != '/');
        } else {
            if m < k {
                assert(s[m] != '/');
            }
            if k < m {
                assert(s[k] != '/');
            }
        }
    } else {
        if m >= 0 {
            assert(s[m] != '/');
        }
    }
}

/// The text of a path split at every separator, without any validation.
pub open spec fn split_path(s: Seq<char>) -> Seq<Seq<char>>
    decreases s.len(),
{
    let i = first_sep(s);
    if 0 <= i && i < s.len() {
        seq![s.take(i)] + split_path(s.skip(i + 1))
    } else {
        seq![s]
    }
}

/// The normalization applied before splitting: a leading "./" is dropped.
pub open spec fn strip_dot_prefix(s: Seq<char>) -> Seq<char> {
    if s.len() >= 2 && s[0] == '.' && s[1] == '/' {
        s.skip(2)
    } else {
        s
    }
}

/// What parsing a path means: "." denotes the root; any other text, less an
/// optional leading "./", splits at separators into components that must all
/// be valid.
pub open spec fn parse_path_spec(s: Seq<char>) -> Result<Seq<Seq<char>>, Error> {
    if s == seq!['.'] {
        Ok(Seq::empty())
    } else {
        let cs = split_path(strip_dot_prefix(s));
        if valid_components(cs) {
            Ok(cs)
        } else {
            Err(Error::InvalidPath)
        }
    }
}

pub open spec fn join_components(cs: Seq<Seq<char>>) -> Seq<char>
    decreases cs.len(),
{
    if cs.len() == 0 {
        Seq::empty()
    } else if cs.len() == 1 {
        cs[0]
    } else {
        cs[0] + seq!['/'] + join_components(cs.drop_first())
    }
}

/// What the textual form of a path means: the root displays as ".", any
/// other path as its components joined by the separator.
pub open spec fn display_path_spec(cs: Seq<Seq<char>>) -> Seq<char> {
    if cs.len() == 0 {
        seq!['.']
    } else {
        join_components(cs)
    }
}

proof fn lemma_join_len(cs: Seq<Seq<char>>)
    requires
        cs.len() >= 1,
    ensures
        join_components(cs).len() >= cs[0].len(),
        cs.len() >= 2 ==> join_components(cs).len() >= cs[0].len() + 1,
    decreases cs.len(),
{
    if cs.len() >= 2 {
        lemma_join_len(cs.drop_first());
    }
}

/// Splitting undoes joining, for components that are non-empty and
/// separator-free.
proof fn lemma_split_join(cs: Seq<Seq<char>>)
    requires
        cs.len() >= 1,
        forall|i: int| 0 <= i < cs.len() ==> (#[trigger] cs[i]).len() > 0,
        forall|i: int, j: int| 0 <= i < cs.len() && 0 <= j < cs[i].len() ==> #[trigger] cs[i][j]
            != '/',
    ensures
        split_path(join_components(cs)) == cs,
    decreases cs.len(),
{
    let s = join_components(cs);
    if cs.len() == 1 {
        assert(forall|j: int| 0 <= j < s.len() ==> s[j] != '/');
        lemma_first_sep_at(s, s.len() as int);
        assert(split_path(s) =~= seq![s]);
        assert(seq![s] =~= cs);
    } else {
        let rest = cs.drop_first();
        let tail = join_components(rest);
        let n0 = cs[0].len() as int;
        assert(s =~= cs[0] + seq!['/'] + tail);
        assert(forall|j: int| 0 <= j < n0 ==> s[j] != '/');
        assert(s[n0] == '/');
        lemma_first_sep_at(s, n0);
        lemma_join_len(cs);
        assert(s.take(n0) =~= cs[0]);
        assert(s.skip(n0 + 1) =~= tail);
        lemma_split_join(rest);
        assert(split_path(s) =~= seq![cs[0]] + rest);
        assert(seq![cs[0]] + rest =~= cs);
    }
}

/// Parsing the textual form of a valid path yields that path back: the path
/// round-trip law, for every well-formed component sequence.
pub proof fn lemma_path_roundtrip(cs: Seq<Seq<char>>)
    requires
        valid_components(cs),
    ensures
        parse_path_spec(display_path_spec(cs)) == Ok::<Seq<Seq<char>>, Error>(cs),
{
    let s = display_path_spec(cs);
    if cs.len() == 0 {
        assert(s == seq!['.']);
        assert(parse_path_spec(s) == Ok::<Seq<Seq<char>>, Error>(Seq::empty()));
        assert(cs =~= Seq::<Seq<char>>::empty());
    } else {
        assert(forall|i: int| 0 <= i < cs.len() ==> (#[trigger] cs[i]).len() > 0);
        assert(forall|i: int, j: int|
            0 <= i < cs.len() && 0 <= j < cs[i].len() ==> #[trigger] cs[i][j] != '/');
        lemma_join_len(cs);
        // the join is never "."
        if cs.len() == 1 {
            assert(s == cs[0]);
            assert(cs[0] != seq!['.']);
        } else {
            assert(s.len() >= cs[0].len() + 1);
            if s == seq!['.'] {
                assert(s.len() == 1);
                assert(cs[0].len() >= 1);
            }
        }
        assert(s != seq!['.']);
        // the join never starts with "./"
        if s.len() >= 2 && s[0] == '.' && s[1] == '/' {
            if cs[0].len() >= 2 {
                assert(s[1] == cs[0][1]);
            } else {
                assert(cs[0].len() == 1);
                if cs.len() == 1 {
                    assert(s.len() == 1);
                } else {
                    assert(s[0] == cs[0][0]);
                    assert(cs[0] =~= seq!['.']);
                }
            }
        }
        assert(strip_dot_prefix(s) == s);
        lemma_split_join(cs);
    }
}

/// Finds the next separator at or after `from`, or returns `n` if none.
fn find_sep(s: &str, from: usize, n: usize) -> (r: usize)
    requires
        n == s@.len(),
        from <= n,
    ensures
        from <= r <= n,
        forall|j: int| from <= j < r ==> s@[j] != '/',
        r < n ==> s@[r as int] == '/',
{
    let mut i = from;
    while i < n
        invariant
            from <= i <= n,
            n == s@.len(),
            forall|j: int| from <= j < i ==> s@[j] != '/',
        decreases n - i,
    {
        if s.get_char(i) == '/' {
            return i;
        }
        i += 1;
    }
    i
}

/// Splits `s` from position `from` on, validating every component.
fn split_rest(s: &str, from: usize, n: usize) -> (r: Result<Vec<String>, Error>)
    requires
        n == s@.len(),
        from <= n,
    ensures
        (r is Ok) == valid_components(split_path(s@.skip(from as int))),
        r is Ok ==> r->Ok_0.deep_view() == split_path(s@.skip(from as int)),
        r is Err ==> r->Err_0 == Error::InvalidPath,
    decreases n - from,
{
    let ghost t = s@.skip(from as int);
    let i = find_sep(s, from, n);
    let comp = s.substring_char(from, i);
    proof {
        assert(comp@ =~= t.take(i - from));
        lemma_first_sep_at(t, i - from);
    }
    let comp_invalid = i == from || (i == from + 1 && s.get_char(from) == '.');
    proof {
        if i == from + 1 && s@[from as int] == '.' {
            assert(comp@ =~= seq!['.']);
        }
        if comp@.len() > 0 && comp@ != seq!['.'] {
            assert(valid_component(comp@));
        }
    }
    if i == n {
        proof {
            assert(t.len() == n - from);
            assert(split_path(t) =~= seq![t]);
            assert(t =~= comp@);
        }
        if comp_invalid {
            assert(!valid_component(split_path(t)[0]));
            return Err(Error::InvalidPath);
        }
        let mut v: Vec<String> = Vec::new();
        v.push(String::from_str(comp));
        proof {
            assert(v.deep_view() =~= split_path(t));
            assert(forall|k: int|
                0 <= k < split_path(t).len() ==> valid_component(#[trigger] split_path(t)[k]));
        }
        Ok(v)
    } else {
        proof {
            assert(first_sep(t) == i - from);
            assert(split_path(t) =~= seq![t.take(i - from)] + split_path(t.skip(i - from + 1)));
            assert(t.skip(i - from + 1) =~= s@.skip(i + 1));
        }
        let ghost parts = split_path(t);
        let ghost rest_parts = split_path(s@.skip(i as int + 1));
        proof {
            assert(parts[0] == comp@);
            assert(forall|k: int| 1 <= k < parts.len() ==> parts[k] == #[trigger] rest_parts[
                k - 1]);
        }
        if comp_invalid {
            assert(!valid_component(parts[0]));
            return Err(Error::InvalidPath);
        }
        match split_rest(s, i + 1, n) {
            Ok(mut v) => {
                v.insert(0, String::from_str(comp));
                proof {
                    assert(v.deep_view() =~= parts);
                    assert(valid_components(rest_parts));
                    assert(forall|k: int|
                        0 <= k < parts.len() ==> valid_component(#[trigger] parts[k]));
                }
                Ok(v)
            },
            Err(e) => {
                proof {
                    let k = choose|k: int|
                        0 <= k < rest_parts.len() && !valid_component(rest_parts[k]);
                    assert(!valid_component(parts[k + 1]));
                }
                Err(e)
            },
        }
    }
}

/// Parses the textual form of a path into its component strings.
pub fn parse_path_components(s: &str) -> (r: Result<Vec<String>, Error>)
    ensures
        (r is Ok) == (parse_path_spec(s@) is Ok),
        r is Ok ==> parse_path_spec(s@) == Ok::<Seq<Seq<char>>, Error>(r->Ok_0.deep_view()),
        r is Err ==> r->Err_0 == Error::InvalidPath,
{
    let n = s.unicode_len();
    if n == 1 && s.get_char(0) == '.' {
        proof {
            assert(s@ =~= seq!['.']);
        }
        let v: Vec<String> = Vec::new();
        proof {
            assert(v.deep_view() =~= Seq::<Seq<char>>::empty());
        }
        return Ok(v);
    }
    proof {
        if s@ == seq!['.'] {
            assert(s@.len() == 1 && s@[0] == '.');
        }
    }
    let start: usize = if n >= 2 && s.get_char(0) == '.' && s.get_char(1) == '/' {
        2
    } else {
        0
    };
    proof {
        assert(strip_dot_prefix(s@) =~= s@.skip(start as int));
    }
    split_rest(s, start, n)
}

/// Joins component strings into the textual form of the path.
pub fn components_to_string(cs: &Vec<String>) -> (r: String)
    ensures
        r@ == display_path_spec(cs.deep_view()),
{
    let ghost view = cs.deep_view();
    if cs.len() == 0 {
        let r = String::from_str(".");
        proof {
            reveal_strlit(".");
            assert(r@ =~= seq!['.']);
        }
        r
    } else {
        let mut acc = cs[0].clone();
        proof {
            assert(acc@ == view[0]);
            assert(acc@ =~= join_components(view.take(1)));
        }
        let mut i: usize = 1;
        while i < cs.len()
            invariant
                1 <= i <= cs.len(),
                view == cs.deep_view(),
                acc@ == join_components(view.take(i as int)),
            decreases cs.len() - i,
        {
            acc.append("/");
            acc.append(cs[i].as_str());
            proof {
                reveal_strlit("/");
                lemma_join_snoc(view.take(i as int), view[i as int]);
                assert(view.take(i + 1) =~= view.take(i as int).push(view[i as int]));
                assert("/"@ =~= seq!['/']);
                assert(acc@ =~= join_components(view.take(i + 1)));
            }
            i += 1;
        }
        proof {
            assert(view.take(view.len() as int) =~= view);
        }
        acc
    }
}

proof fn lemma_join_snoc(cs: Seq<Seq<char>>, c: Seq<char>)
    requires
        cs.len() >= 1,
    ensures
        join_components(cs.push(c)) == join_components(cs) + seq!['/'] + c,
    decreases cs.len(),
{
    let whole = cs.push(c);
    if cs.len() == 1 {
        assert(whole.drop_first() =~= seq![c]);
        assert(join_components(whole) == whole[0] + seq!['/'] + join_components(seq![c]));
        assert(join_components(seq![c]) == c);
    } else {
        lemma_join_snoc(cs.drop_first(), c);
        assert(whole.drop_first() =~= cs.drop_first().push(c));
        assert(join_components(whole) == cs[0] + seq!['/'] + join_components(
            cs.drop_first().push(c),
        ));
        assert(cs[0] + seq!['/'] + (join_components(cs.drop_first()) + seq!['/'] + c) =~= (cs[0]
            + seq!['/'] + join_components(cs.drop_first())) + seq!['/'] + c);
    }
}

/// A path inside a shadow tree being planted: an ordered sequence of
/// components, where the empty sequence is the root.
#[derive(Clone, Debug, PartialEq, Eq)]
pub struct ShadowPath {
    components: Vec<String>,
}

impl View for ShadowPath {
    type V = Seq<Seq<char>>;

    closed spec fn view(&self) -> Seq<Seq<char>> {
        self.components.deep_view()
    }
}

impl ShadowPath {
    pub open spec fn wf(&self) -> bool {
        valid_components(self@)
    }

    /// The root path, with zero components.
    pub fn new() -> (r: ShadowPath)
        ensures
            r@ == Seq::<Seq<char>>::empty(),
            r.wf(),
    {
        let components: Vec<String> = Vec::new();
        proof {
            assert(components.deep_view() =~= Seq::<Seq<char>>::empty());
        }
        ShadowPath { components }
    }

    pub fn parse(s: &str) -> (r: Result<ShadowPath, Error>)
        ensures
            (r is Ok) == (parse_path_spec(s@) is Ok),
            r is Ok ==> parse_path_spec(s@) == Ok::<Seq<Seq<char>>, Error>(r->Ok_0@) && r->Ok_0.wf(),
            r is Err ==> r->Err_0 == Error::InvalidPath,
    {
        let components = parse_path_components(s)?;
        Ok(ShadowPath { components })
    }

    pub fn to_string(&self) -> (r: String)
        ensures
            r@ == display_path_spec(self@),
    {
        components_to_string(&self.components)
    }

    pub fn components(&self) -> (r: &Vec<String>)
        ensures
            r.deep_view() == self@,
    {
        &self.components
    }

    pub fn push(&mut self, c: String)
        ensures
            final(self)@ == old(self)@.push(c@),
            old(self).wf() && valid_component(c@) ==> final(self).wf(),
    {
        self.components.push(c);
        proof {
            assert(self.components.deep_view() =~= old(self)@.push(c@));
            if old(self).wf() && valid_component(c@) {
                assert forall|i: int| 0 <= i < self@.len() implies valid_component(
                    #[trigger] self@[i],
                ) by {
                    if i < old(self)@.len() {
                        assert(self@[i] == old(self)@[i]);
                    }
                }
            }
        }
    }

    pub fn pop(&mut self)
        requires
            old(self)@.len() > 0,
        ensures
            final(self)@ == old(self)@.drop_last(),
            old(self).wf() ==> final(self).wf(),
    {
        self.components.pop();
        proof {
            assert(self.components.deep_view() =~= old(self)@.drop_last());
            if old(self).wf() {
                assert forall|i: int| 0 <= i < self@.len() implies valid_component(
                    #[trigger] self@[i],
                ) by {
                    assert(self@[i] == old(self)@[i]);
                }
            }
        }
    }

    pub fn last(&self) -> (r: &String)
        requires
            self@.len() > 0,
        ensures
            r@ == self@.last(),
    {
        &self.components[self.components.len() - 1]
    }

    /// Whether `self` is an immediate child of `parent`: one component
    /// longer, agreeing on the whole prefix.
    pub fn is_child_of(&self, parent: &ShadowPath) -> (r: bool)
        ensures
            r == (self@.len() == parent@.len() + 1 && self@.drop_last() == parent@),
    {
        let sl = self.components.len();
        let pl = parent.components.len();
        proof {
            assert(self@.len() == self.components.len());
            assert(parent@.len() == parent.components.len());
        }
        if sl == 0 || sl - 1 != pl {
            return false;
        }
        let mut i: usize = 0;
        while i < parent.components.len()
            invariant
                0 <= i <= parent.components.len(),
                self@.len() == parent@.len() + 1,
                self.components.len() == parent.components.len() + 1,
                forall|j: int| 0 <= j < i ==> self@[j] == parent@[j],
            decreases parent.components.len() - i,
        {
            if !string_eq(&self.components[i], &parent.components[i]) {
                proof {
                    assert(self@[i as int] != parent@[i as int]);
                    assert(self@.drop_last()[i as int] == self@[i as int]);
                }
                return false;
            }
            i += 1;
        }
        proof {
            assert(self@.drop_last() =~= parent@);
        }
        true
    }
}

/// A path inside a composite ("bulk") tree being traversed or edited.  Same
/// invariants as [`ShadowPath`].
#[derive(Debug, PartialEq, Eq)]
pub struct BulkPath {
    components: Vec<String>,
}

impl View for BulkPath {
    type V = Seq<Seq<char>>;

    closed spec fn view(&self) -> Seq<Seq<char>> {
        self.components.deep_view()
    }
}

impl BulkPath {
    pub open spec fn wf(&self) -> bool {
        valid_components(self@)
    }

    /// The root path, with zero components.
    pub fn new() -> (r: BulkPath)
        ensures
            r@ == Seq::<Seq<char>>::empty(),
            r.wf(),
    {
        let components: Vec<String> = Vec::new();
        proof {
            assert(components.deep_view() =~= Seq::<Seq<char>>::empty());
        }
        BulkPath { components }
    }

    pub fn parse(s: &str) -> (r: Result<BulkPath, Error>)
        ensures
            (r is Ok) == (parse_path_spec(s@) is Ok),
            r is Ok ==> parse_path_spec(s@) == Ok::<Seq<Seq<char>>, Error>(r->Ok_0@) && r->Ok_0.wf(),
            r is Err ==> r->Err_0 == Error::InvalidPath,
    {
        let components = parse_path_components(s)?;
        Ok(BulkPath { components })
    }

    pub fn to_string(&self) -> (r: String)
        ensures
            r@ == display_path_spec(self@),
    {
        components_to_string(&self.components)
    }

    pub fn components(&self) -> (r: &Vec<String>)
        ensures
            r.deep_view() == self@,
    {
        &self.components
    }

    pub fn push(&mut self, c: String)
        ensures
            final(self)@ == old(self)@.push(c@),
            old(self).wf() && valid_component(c@) ==> final(self).wf(),
    {
        self.components.push(c);
        proof {
            assert(self.components.deep_view() =~= old(self)@.push(c@));
            if old(self).wf() && valid_component(c@) {
                assert forall|i: int| 0 <= i < self@.len() implies valid_component(
                    #[trigger] self@[i],
                ) by {
                    if i < old(self)@.len() {
                        assert(self@[i] == old(self)@[i]);
                    }
                }
            }
        }
    }

    pub fn pop(&mut self)
        requires
            old(self)@.len() > 0,
        ensures
            final(self)@ == old(self)@.drop_last(),
            old(self).wf() ==> final(self).wf(),
    {
        self.components.pop();
        proof {
            assert(self.components.deep_view() =~= old(self)@.drop_last());
            if old(self).wf() {
                assert forall|i: int| 0 <= i < self@.len() implies valid_component(
                    #[trigger] self@[i],
                ) by {
                    assert(self@[i] == old(self)@[i]);
                }
            }
        }
    }
}

impl Clone for BulkPath {
    fn clone(&self) -> (r: BulkPath)
        ensures
            r@ == self@,
    {
        let mut components: Vec<String> = Vec::new();
        let mut i: usize = 0;
        while i < self.components.len()
            invariant
                0 <= i <= self.components@.len(),
                components@.len() == i,
                forall|k: int| 0 <= k < i ==> #[trigger] components@[k]@ == self.components@[k]@,
            decreases self.components.len() - i,
        {
            components.push(self.components[i].clone());
            i += 1;
        }
        proof {
            assert forall|k: int|
                0 <= k < components@.len() implies #[trigger] components.deep_view()[k]
                == self.components.deep_view()[k] by {
                assert(components@[k]@ == self.components@[k]@);
            }
            assert(components.deep_view() =~= self.components.deep_view());
        }
        BulkPath { components }
    }
}

/// String equality, stated over the views.
pub fn string_eq(a: &String, b: &String) -> (r: bool)
    ensures
        r == (a@ == b@),
{
    a.eq(b)
}

/// Whether `s` is a valid path component.
pub fn check_component(s: &str) -> (r: bool)
    ensures
        r == valid_component(s@),
{
    let n = s.unicode_len();
    if n == 0 {
        return false;
    }
    if n == 1 && s.get_char(0) == '.' {
        proof {
            assert(s@ =~= seq!['.']);
        }
        return false;
    }
    proof {
        if s@ == seq!['.'] {
            assert(s@.len() == 1 && s@[0] == '.');
        }
    }
    let mut i: usize = 0;
    while i < n
        invariant
            0 <= i <= n,
            n == s@.len(),
            forall|j: int| 0 <= j < i ==> s@[j] != '/',
        decreases n - i,
    {
        if s.get_char(i) == '/' {
            return false;
        }
        i += 1;
    }
    true
}

} // verus!
