use vstd::prelude::*;

use crate::error::Error;
use crate::paths::{parse_path_spec, ShadowPath};
use crate::shadow::{valid_hash_chars, ContentHash, Shadow, ShadowV};
use crate::text::bytes_to_string;
use vstd::utf8::{decode_utf8, valid_utf8};

verus! {

/// A snapshot directory produced by the external filesystem scanner: it
/// holds the two correlated record streams, "nodes" and "digests".
#[derive(Clone, Debug, PartialEq, Eq)]
pub struct Snapshot<'a> {
    path: &'a str,
}

impl<'a> View for Snapshot<'a> {
    type V = Seq<char>;

    closed spec fn view(&self) -> Seq<char> {
        self.path@
    }
}

impl<'a> Snapshot<'a> {
    pub fn new(path: &'a str) -> (r: Snapshot<'a>)
        ensures
            r@ == path@,
    {
        Snapshot { path }
    }

    pub fn path(&self) -> (r: &str)
        ensures
            r@ == self@,
    {
        self.path
    }

    /// The location of the nodes stream inside the snapshot directory.
    pub fn nodes_path(&self) -> (r: String)
        ensures
            r@ == self@ + seq!['/', 'n', 'o', 'd', 'e', 's'],
    {
        let mut r = String::from_str(self.path);
        r.append("/nodes");
        proof {
            reveal_strlit("/nodes");
            assert(r@ =~= self@ + seq!['/', 'n', 'o', 'd', 'e', 's']);
        }
        r
    }

    /// The location of the digests stream inside the snapshot directory.
    pub fn digests_path(&self) -> (r: String)
        ensures
            r@ == self@ + seq!['/', 'd', 'i', 'g', 'e', 's', 't', 's'],
    {
        let mut r = String::from_str(self.path);
        r.append("/digests");
        proof {
            reveal_strlit("/digests");
            assert(r@ =~= self@ + seq!['/', 'd', 'i', 'g', 'e', 's', 't', 's']);
        }
        r
    }

    /// The entry sequence parsed from the two record streams, handed in as
    /// raw bytes.
    pub fn entries(&self, nodes: Vec<u8>, digests: Vec<u8>) -> (r: SnapshotEntries)
        ensures
            r.nodes_data() == nodes@,
            r.nodes_pos() == 0,
            r.digests_data() == digests@,
            r.digests_pos() == 0,
    {
        SnapshotEntries {
            nodes_entries: NodesEntries { data: nodes, pos: 0 },
            digests_entries: DigestsEntries { data: digests, pos: 0 },
        }
    }
}

/// One parsed entry of a snapshot: a path and what sits there.
#[derive(Clone, Debug)]
pub struct SnapshotEntry {
    pub path: ShadowPath,
    pub value: SnapshotEntryValue,
}

#[derive(Clone, Debug)]
pub enum SnapshotEntryValue {
    File { shadow: Shadow, executable: bool },
    Link { target: String },
    Tree,
}

pub struct SnapshotEntryV {
    pub path: Seq<Seq<char>>,
    pub value: SnapshotEntryValueV,
}

pub enum SnapshotEntryValueV {
    File { shadow: ShadowV, executable: bool },
    Link { target: Seq<char> },
    Tree,
}

impl View for SnapshotEntryValue {
    type V = SnapshotEntryValueV;

    open spec fn view(&self) -> SnapshotEntryValueV {
        match self {
            SnapshotEntryValue::File { shadow, executable } => SnapshotEntryValueV::File {
                shadow: shadow@,
                executable: *executable,
            },
            SnapshotEntryValue::Link { target } => SnapshotEntryValueV::Link { target: target@ },
            SnapshotEntryValue::Tree => SnapshotEntryValueV::Tree,
        }
    }
}

impl View for SnapshotEntry {
    type V = SnapshotEntryV;

    open spec fn view(&self) -> SnapshotEntryV {
        SnapshotEntryV { path: self.path@, value: self.value@ }
    }
}

impl DeepView for SnapshotEntry {
    type V = SnapshotEntryV;

    open spec fn deep_view(&self) -> SnapshotEntryV {
        self.view()
    }
}

pub open spec fn is_dec_digit_byte(b: u8) -> bool {
    0x30 <= b <= 0x39
}

pub open spec fn is_oct_digit_byte(b: u8) -> bool {
    0x30 <= b <= 0x37
}

pub open spec fn is_hex_byte(b: u8) -> bool {
    is_dec_digit_byte(b) || 0x61 <= b <= 0x66
}

/// The value of a digit string in the given base (8 or 10); leading zeros
/// are allowed here, matching the scanner's output format.
pub open spec fn digits_val(s: Seq<u8>, base: int) -> int
    decreases s.len(),
{
    if s.len() == 0 {
        0
    } else {
        digits_val(s.drop_last(), base) * base + (s.last() - 0x30)
    }
}

proof fn lemma_digits_val_take(s: Seq<u8>, base: int, i: int)
    requires
        0 <= i < s.len(),
    ensures
        digits_val(s.take(i + 1), base) == digits_val(s.take(i), base) * base + (s[i] - 0x30),
{
    assert(s.take(i + 1).drop_last() =~= s.take(i));
    assert(s.take(i + 1).last() == s[i]);
}

proof fn lemma_digits_val_nonneg(s: Seq<u8>, base: int)
    requires
        base >= 2,
        forall|k: int| 0 <= k < s.len() ==> is_dec_digit_byte(#[trigger] s[k]),
    ensures
        digits_val(s, base) >= 0,
    decreases s.len(),
{
    if s.len() > 0 {
        assert(forall|k: int|
            0 <= k < s.drop_last().len() ==> is_dec_digit_byte(#[trigger] s.drop_last()[k]));
        lemma_digits_val_nonneg(s.drop_last(), base);
        let v = digits_val(s.drop_last(), base);
        assert(v * base >= 0) by (nonlinear_arith)
            requires
                v >= 0,
                base >= 2,
        ;
    }
}

proof fn lemma_digits_val_monotone(s: Seq<u8>, base: int, i: int)
    requires
        base >= 2,
        0 <= i <= s.len(),
        forall|k: int| 0 <= k < s.len() ==> is_dec_digit_byte(#[trigger] s[k]),
    ensures
        digits_val(s, base) >= digits_val(s.take(i), base),
    decreases s.len() - i,
{
    if i == s.len() {
        assert(s.take(i) =~= s);
    } else {
        lemma_digits_val_take(s, base, i);
        assert(forall|k: int|
            0 <= k < s.take(i).len() ==> is_dec_digit_byte(#[trigger] s.take(i)[k]));
        lemma_digits_val_nonneg(s.take(i), base);
        let v = digits_val(s.take(i), base);
        assert(v * base + (s[i] - 0x30) >= v) by (nonlinear_arith)
            requires
                v >= 0,
                base >= 2,
                s[i] - 0x30 >= 0,
        ;
        lemma_digits_val_monotone(s, base, i + 1);
    }
}

/// Index of the first occurrence of `b` at or after `p`, or -1.
pub open spec fn find_byte(d: Seq<u8>, p: int, b: u8) -> int
    decreases d.len() - p,
{
    if p < 0 || p >= d.len() {
        -1
    } else if d[p] == b {
        p
    } else {
        find_byte(d, p + 1, b)
    }
}

pub proof fn lemma_find_byte(d: Seq<u8>, p: int, b: u8)
    requires
        0 <= p <= d.len(),
    ensures
        find_byte(d, p, b) == -1 || p <= find_byte(d, p, b) < d.len(),
        find_byte(d, p, b) >= 0 ==> d[find_byte(d, p, b)] == b,
        forall|j: int| p <= j < find_byte(d, p, b) ==> d[j] != b,
        find_byte(d, p, b) == -1 ==> forall|j: int| p <= j < d.len() ==> d[j] != b,
    decreases d.len() - p,
{
    if p < d.len() && d[p] != b {
        lemma_find_byte(d, p + 1, b);
    }
}

/// One parsed record of the nodes stream.
#[derive(Clone, Debug)]
pub struct NodesEntry {
    pub ty: u8,
    pub mode: u16,
    pub size: Option<u64>,
    pub path: String,
    pub target: String,
}

pub struct NodesEntryV {
    pub ty: u8,
    pub mode: u16,
    pub size: Option<u64>,
    pub path: Seq<char>,
    pub target: Seq<char>,
}

impl View for NodesEntry {
    type V = NodesEntryV;

    open spec fn view(&self) -> NodesEntryV {
        NodesEntryV {
            ty: self.ty,
            mode: self.mode,
            size: self.size,
            path: self.path@,
            target: self.target@,
        }
    }
}

impl NodesEntry {
    /// Whether the record's permission bits carry the owner-execute bit.
    pub fn is_executable(&self) -> (r: bool)
        ensures
            r == (self.mode & 0o100 != 0),
    {
        self.mode & 0o100 != 0
    }
}

/// The grammar of one nodes record starting at `p`:
/// `<type> 0<octal mode, 3+ digits> <decimal size or '?'> <path>\0 <target>\0\n`,
/// where path and target are NUL- and newline-free UTF-8.  Returns the
/// parsed record and the position after it.
pub open spec fn node_record_spec(d: Seq<u8>, p: int) -> Result<(NodesEntryV, int), Error> {
    let n1 = find_byte(d, p, 0x00);
    if n1 < 0 {
        Err(Error::MalformedRecord)
    } else {
        let n2 = find_byte(d, n1 + 1, 0x00);
        if n2 < 0 || n2 + 1 >= d.len() || d[n2 + 1] != 0x0a {
            Err(Error::MalformedRecord)
        } else if !(n1 + 2 <= n2 && d[n1 + 1] == 0x20) {
            Err(Error::MalformedRecord)
        } else {
            // header: ty SP '0' octal{3+} SP size SP path
            if !(p + 3 <= n1 && (d[p] == 0x64 || d[p] == 0x66 || d[p] == 0x6c || d[p] == 0x63
                || d[p] == 0x62 || d[p] == 0x73 || d[p] == 0x70) && d[p + 1] == 0x20 && d[p + 2]
                == 0x30) {
                Err(Error::MalformedRecord)
            } else {
                let m_end = find_byte(d, p + 3, 0x20);
                if !(p + 6 <= m_end && m_end < n1) {
                    Err(Error::MalformedRecord)
                } else if !(forall|k: int| p + 3 <= k < m_end ==> is_oct_digit_byte(#[trigger] d[k])) {
                    Err(Error::MalformedRecord)
                } else if digits_val(d.subrange(p + 3, m_end), 8) > u16::MAX {
                    Err(Error::MalformedRecord)
                } else {
                    let mode = digits_val(d.subrange(p + 3, m_end), 8) as u16;
                    let s_end = find_byte(d, m_end + 1, 0x20);
                    if !(m_end + 1 <= s_end && s_end < n1) {
                        Err(Error::MalformedRecord)
                    } else {
                        let size_ok = if s_end == m_end + 2 && d[m_end + 1] == 0x3f {
                            Ok(Option::<u64>::None)
                        } else if m_end + 1 < s_end && (forall|k: int|
                            m_end + 1 <= k < s_end ==> is_dec_digit_byte(#[trigger] d[k]))
                            && digits_val(d.subrange(m_end + 1, s_end), 10) <= u64::MAX {
                            Ok(Some(digits_val(d.subrange(m_end + 1, s_end), 10) as u64))
                        } else {
                            Err(Error::MalformedRecord)
                        };
                        match size_ok {
                            Err(e) => Err(e),
                            Ok(size) => {
                                let path_b = d.subrange(s_end + 1, n1);
                                let target_b = d.subrange(n1 + 2, n2);
                                if !(valid_utf8(path_b) && valid_utf8(target_b) && (forall|k: int|
                                    s_end + 1 <= k < n1 ==> d[k] != 0x0a) && (forall|k: int|
                                    n1 + 2 <= k < n2 ==> d[k] != 0x0a)) {
                                    Err(Error::MalformedRecord)
                                } else {
                                    Ok(
                                        (
                                            NodesEntryV {
                                                ty: d[p],
                                                mode,
                                                size,
                                                path: decode_utf8(path_b),
                                                target: decode_utf8(target_b),
                                            },
                                            n2 + 2,
                                        ),
                                    )
                                }
                            },
                        }
                    }
                }
            }
        }
    }
}

/// The grammar of one digests record starting at `p`:
/// `<64 lowercase-hex bytes> *<path>\0\n`.
pub open spec fn digest_record_spec(d: Seq<u8>, p: int) -> Result<(Seq<char>, Seq<char>, int), Error> {
    let n1 = find_byte(d, p, 0x00);
    if p >= d.len() {
        Err(Error::StreamDesynchronized)
    } else if n1 < 0 {
        Err(Error::MalformedRecord)
    } else if !(n1 + 1 < d.len() && d[n1 + 1] == 0x0a) {
        Err(Error::MalformedRecord)
    } else if !(p + 66 <= n1 && (forall|k: int| p <= k < p + 64 ==> is_hex_byte(#[trigger] d[k]))
        && d[p + 64] == 0x20 && d[p + 65] == 0x2a) {
        Err(Error::MalformedRecord)
    } else {
        let path_b = d.subrange(p + 66, n1);
        if !(valid_utf8(path_b) && (forall|k: int| p + 66 <= k < n1 ==> d[k] != 0x0a)) {
            Err(Error::MalformedRecord)
        } else {
            Ok((decode_utf8(d.subrange(p, p + 64)), decode_utf8(path_b), n1 + 2))
        }
    }
}

/// The forward-only cursor over the nodes stream.
pub struct NodesEntries {
    data: Vec<u8>,
    pos: usize,
}

impl NodesEntries {
    pub closed spec fn data_spec(&self) -> Seq<u8> {
        self.data@
    }

    pub closed spec fn pos_spec(&self) -> int {
        self.pos as int
    }
}

/// The forward-only cursor over the digests stream.
pub struct DigestsEntries {
    data: Vec<u8>,
    pos: usize,
}

impl DigestsEntries {
    pub closed spec fn data_spec(&self) -> Seq<u8> {
        self.data@
    }

    pub closed spec fn pos_spec(&self) -> int {
        self.pos as int
    }
}

/// The lazy, single-pass producer of snapshot entries: it advances two
/// cursors in lockstep, consuming one digests record for every regular-file
/// nodes record and failing fast when the two streams desynchronize.
pub struct SnapshotEntries {
    nodes_entries: NodesEntries,
    digests_entries: DigestsEntries,
}

/// What one step of the coordinated parse means.  A `d` record yields a
/// `Tree` entry, `l` a `Link`, and `f` consumes one digests record whose
/// path must equal the nodes record's path, yielding a `File` with the
/// decoded shadow; any other known node type (character or block device,
/// socket, pipe) is skipped; end of the nodes stream ends the sequence.
pub open spec fn snapshot_next_spec(nodes: Seq<u8>, np: int, digests: Seq<u8>, dp: int) -> Result<
    Option<(SnapshotEntryV, int, int)>,
    Error,
>
    decreases nodes.len() - np,
{
    if np >= nodes.len() {
        Ok(None)
    } else {
        match node_record_spec(nodes, np) {
            Err(e) => Err(e),
            Ok((ne, np2)) => {
                match parse_path_spec(ne.path) {
                    Err(e) => Err(e),
                    Ok(path) => {
                        if ne.ty == 0x64 {
                            Ok(Some((SnapshotEntryV { path, value: SnapshotEntryValueV::Tree }, np2, dp)))
                        } else if ne.ty == 0x6c {
                            Ok(
                                Some(
                                    (
                                        SnapshotEntryV {
                                            path,
                                            value: SnapshotEntryValueV::Link { target: ne.target },
                                        },
                                        np2,
                                        dp,
                                    ),
                                ),
                            )
                        } else if ne.ty == 0x66 {
                            match digest_record_spec(digests, dp) {
                                Err(e) => Err(e),
                                Ok((hash, dpath, dp2)) => {
                                    if dpath != ne.path {
                                        Err(Error::StreamDesynchronized)
                                    } else if !valid_hash_chars(hash) {
                                        Err(Error::MalformedRecord)
                                    } else {
                                        Ok(
                                            Some(
                                                (
                                                    SnapshotEntryV {
                                                        path,
                                                        value: SnapshotEntryValueV::File {
                                                            shadow: ShadowV {
                                                                hash,
                                                                size: ne.size,
                                                            },
                                                            executable: ne.mode & 0o100 != 0,
                                                        },
                                                    },
                                                    np2,
                                                    dp2,
                                                ),
                                            ),
                                        )
                                    }
                                },
                            }
                        } else if np < np2 <= nodes.len() {
                            snapshot_next_spec(nodes, np2, digests, dp)
                        } else {
                            Err(Error::MalformedRecord)
                        }
                    },
                }
            },
        }
    }
}

impl SnapshotEntries {
    pub closed spec fn nodes_data(&self) -> Seq<u8> {
        self.nodes_entries.data_spec()
    }

    pub closed spec fn nodes_pos(&self) -> int {
        self.nodes_entries.pos_spec()
    }

    pub closed spec fn digests_data(&self) -> Seq<u8> {
        self.digests_entries.data_spec()
    }

    pub closed spec fn digests_pos(&self) -> int {
        self.digests_entries.pos_spec()
    }
}

/// Every byte below 0x80 is its own character: ASCII text decodes
/// one-to-one.
pub proof fn lemma_ascii_decode(s: Seq<u8>)
    requires
        forall|i: int| 0 <= i < s.len() ==> #[trigger] s[i] < 0x80,
    ensures
        valid_utf8(s),
        decode_utf8(s).len() == s.len(),
        forall|i: int| 0 <= i < s.len() ==> #[trigger] decode_utf8(s)[i] == s[i] as char,
    decreases s.len(),
{
    if s.len() > 0 {
        assert(vstd::utf8::is_leading_byte_width_1(s[0]));
        let b = s[0];
        assert(b & 0x7F == b) by (bit_vector)
            requires
                b < 0x80,
        ;
        assert(vstd::utf8::decode_first_codepoint(s) == b as u32);
        assert(vstd::utf8::length_of_first_scalar(s) == 1);
        assert(vstd::utf8::valid_first_scalar(s));
        let rest = vstd::utf8::pop_first_scalar(s);
        assert(rest =~= s.drop_first());
        lemma_ascii_decode(rest);
        assert(valid_utf8(s));
        let c = vstd::utf8::decode_first_scalar(s) as char;
        assert(decode_utf8(s) =~= seq![c] + decode_utf8(rest));
        assert(c == s[0] as char);
    }
}

fn find_byte_x(d: &Vec<u8>, from: usize, b: u8) -> (r: Option<usize>)
    requires
        from <= d@.len(),
    ensures
        r matches Some(i) ==> find_byte(d@, from as int, b) == i as int && from <= i < d@.len(),
        r is None ==> find_byte(d@, from as int, b) == -1,
{
    let mut i = from;
    while i < d.len()
        invariant
            from <= i <= d@.len(),
            find_byte(d@, from as int, b) == find_byte(d@, i as int, b),
        decreases d@.len() - i,
    {
        if d[i] == b {
            proof {
                lemma_find_byte(d@, from as int, b);
            }
            return Some(i);
        }
        i += 1;
    }
    None
}

fn bytes_range(d: &Vec<u8>, from: usize, to: usize) -> (r: Vec<u8>)
    requires
        from <= to <= d@.len(),
    ensures
        r@ == d@.subrange(from as int, to as int),
{
    let mut r: Vec<u8> = Vec::new();
    let mut i = from;
    while i < to
        invariant
            from <= i <= to <= d@.len(),
            r@.len() == i - from,
            forall|k: int| 0 <= k < i - from ==> r@[k] == d@[from + k],
        decreases to - i,
    {
        r.push(d[i]);
        i += 1;
    }
    proof {
        assert(r@ =~= d@.subrange(from as int, to as int));
    }
    r
}

fn all_digits(d: &Vec<u8>, from: usize, to: usize, oct: bool) -> (r: bool)
    requires
        from <= to <= d@.len(),
    ensures
        oct ==> r == (forall|k: int| from <= k < to ==> is_oct_digit_byte(#[trigger] d@[k])),
        !oct ==> r == (forall|k: int| from <= k < to ==> is_dec_digit_byte(#[trigger] d@[k])),
{
    let hi: u8 = if oct {
        0x37
    } else {
        0x39
    };
    let mut i = from;
    while i < to
        invariant
            from <= i <= to <= d@.len(),
            hi == if oct {
                0x37u8
            } else {
                0x39u8
            },
            forall|k: int| from <= k < i ==> 0x30 <= #[trigger] d@[k] <= hi,
        decreases to - i,
    {
        let b = d[i];
        if b < 0x30 || b > hi {
            return false;
        }
        i += 1;
    }
    true
}

/// Folds a digit field into a value, watching for overflow past `max`.
fn digits_value(d: &Vec<u8>, from: usize, to: usize, base: u64, max: u64) -> (r: Option<u64>)
    requires
        from <= to <= d@.len(),
        base == 8 || base == 10,
        max >= 9,
        forall|k: int| from <= k < to ==> is_dec_digit_byte(#[trigger] d@[k]),
    ensures
        ({
            let v = digits_val(d@.subrange(from as int, to as int), base as int);
            match r {
                Some(x) => x == v && v <= max,
                None => v > max,
            }
        }),
{
    let ghost t = d@.subrange(from as int, to as int);
    proof {
        assert(forall|k: int| 0 <= k < t.len() ==> is_dec_digit_byte(#[trigger] t[k]));
    }
    let mut acc: u64 = 0;
    let mut i = from;
    while i < to
        invariant
            from <= i <= to <= d@.len(),
            base == 8 || base == 10,
            max >= 9,
            t == d@.subrange(from as int, to as int),
            forall|k: int| 0 <= k < t.len() ==> is_dec_digit_byte(#[trigger] t[k]),
            acc as int == digits_val(t.take(i - from), base as int),
            acc <= max,
        decreases to - i,
    {
        let b = d[i];
        proof {
            assert(t.len() == to - from);
            assert(t[i - from] == d@[i as int]);
            assert(is_dec_digit_byte(t[i - from]));
            lemma_digits_val_take(t, base as int, i - from);
        }
        let dv = (b - 0x30) as u64;
        if acc > (max - dv) / base {
            proof {
                let v = digits_val(t.take(i - from), base as int);
                assert(v * (base as int) + dv > max) by (nonlinear_arith)
                    requires
                        v > ((max - dv) as int) / (base as int),
                        0 <= dv,
                        base >= 2,
                        v >= 0,
                        dv <= max,
                ;
                lemma_digits_val_monotone(t, base as int, i - from + 1);
            }
            return None;
        }
        proof {
            let v = digits_val(t.take(i - from), base as int);
            assert(v * (base as int) + dv <= max) by (nonlinear_arith)
                requires
                    v <= ((max - dv) as int) / (base as int),
                    0 <= dv,
                    base >= 2,
                    v >= 0,
                    dv <= max,
            ;
        }
        acc = acc * base + dv;
        i += 1;
    }
    proof {
        assert(t.take(to - from) =~= t);
    }
    Some(acc)
}

impl NodesEntries {
    pub open spec fn wf(&self) -> bool {
        0 <= self.pos_spec() <= self.data_spec().len()
    }

    /// Parses the next nodes record, or reports the end of the stream.
    #[verifier::loop_isolation(false)]
    pub fn next(&mut self) -> (r: Result<Option<NodesEntry>, Error>)
        requires
            old(self).wf(),
        ensures
            final(self).wf(),
            final(self).data_spec() == old(self).data_spec(),
            old(self).pos_spec() >= old(self).data_spec().len() ==> (r matches Ok(o) && o is None
                && final(self).pos_spec() == old(self).pos_spec()),
            old(self).pos_spec() < old(self).data_spec().len() ==> (match node_record_spec(
                old(self).data_spec(),
                old(self).pos_spec(),
            ) {
                Ok((ne, p2)) => r matches Ok(o) && o matches Some(e) && e@ == ne
                    && final(self).pos_spec() == p2,
                Err(err) => r == Err::<Option<NodesEntry>, Error>(err) && final(self).pos_spec()
                    == old(self).pos_spec(),
            }),
    {
        let ghost d = self.data@;
        let p = self.pos;
        if p >= self.data.len() {
            return Ok(None);
        }
        proof {
            lemma_find_byte(d, p as int, 0x00);
        }
        let n1 = match find_byte_x(&self.data, p, 0x00) {
            None => {
                return Err(Error::MalformedRecord);
            },
            Some(n1) => n1,
        };
        proof {
            lemma_find_byte(d, n1 + 1, 0x00);
        }
        let n2 = match find_byte_x(&self.data, n1 + 1, 0x00) {
            None => {
                return Err(Error::MalformedRecord);
            },
            Some(n2) => n2,
        };
        if !(n2 + 1 < self.data.len() && self.data[n2 + 1] == 0x0a) {
            return Err(Error::MalformedRecord);
        }
        if !(n1 + 2 <= n2 && self.data[n1 + 1] == 0x20) {
            return Err(Error::MalformedRecord);
        }
        let ty = self.data[p];
        if !(n1 - p >= 3 && (ty == 0x64 || ty == 0x66 || ty == 0x6c || ty == 0x63 || ty == 0x62
            || ty == 0x73 || ty == 0x70) && self.data[p + 1] == 0x20 && self.data[p + 2] == 0x30) {
            return Err(Error::MalformedRecord);
        }
        proof {
            lemma_find_byte(d, p + 3, 0x20);
        }
        let m_end = match find_byte_x(&self.data, p + 3, 0x20) {
            None => {
                return Err(Error::MalformedRecord);
            },
            Some(m) => m,
        };
        if !(m_end - p >= 6 && m_end < n1) {
            return Err(Error::MalformedRecord);
        }
        if !all_digits(&self.data, p + 3, m_end, true) {
            return Err(Error::MalformedRecord);
        }
        proof {
            assert(forall|k: int|
                p + 3 <= k < m_end ==> is_dec_digit_byte(#[trigger] d[k]));
        }
        let mode = match digits_value(&self.data, p + 3, m_end, 8, 0xffff) {
            None => {
                return Err(Error::MalformedRecord);
            },
            Some(v) => v as u16,
        };
        proof {
            lemma_find_byte(d, m_end + 1, 0x20);
        }
        let s_end = match find_byte_x(&self.data, m_end + 1, 0x20) {
            None => {
                return Err(Error::MalformedRecord);
            },
            Some(v) => v,
        };
        if !(s_end < n1) {
            return Err(Error::MalformedRecord);
        }
        let size: Option<u64> = if s_end == m_end + 2 && self.data[m_end + 1] == 0x3f {
            None
        } else {
            if !(m_end + 1 < s_end) {
                return Err(Error::MalformedRecord);
            }
            if !all_digits(&self.data, m_end + 1, s_end, false) {
                return Err(Error::MalformedRecord);
            }
            match digits_value(&self.data, m_end + 1, s_end, 10, u64::MAX) {
                None => {
                    return Err(Error::MalformedRecord);
                },
                Some(v) => Some(v),
            }
        };
        let path_bytes = bytes_range(&self.data, s_end + 1, n1);
        let target_bytes = bytes_range(&self.data, n1 + 2, n2);
        let mut k = s_end + 1;
        while k < n1
            invariant
                s_end + 1 <= k <= n1 <= d.len(),
                d == self.data@,
                forall|j: int| s_end + 1 <= j < k ==> d[j] != 0x0a,
            decreases n1 - k,
        {
            if self.data[k] == 0x0a {
                return Err(Error::MalformedRecord);
            }
            k += 1;
        }
        let mut k = n1 + 2;
        while k < n2
            invariant
                n1 + 2 <= k <= n2 <= d.len(),
                d == self.data@,
                forall|j: int| n1 + 2 <= j < k ==> d[j] != 0x0a,
            decreases n2 - k,
        {
            if self.data[k] == 0x0a {
                return Err(Error::MalformedRecord);
            }
            k += 1;
        }
        let path = match bytes_to_string(&path_bytes) {
            None => {
                return Err(Error::MalformedRecord);
            },
            Some(s) => s,
        };
        let target = match bytes_to_string(&target_bytes) {
            None => {
                return Err(Error::MalformedRecord);
            },
            Some(s) => s,
        };
        self.pos = n2 + 2;
        Ok(Some(NodesEntry { ty, mode, size, path, target }))
    }
}

/// One parsed record of the digests stream.
#[derive(Clone, Debug)]
pub struct DigestsEntry {
    pub digest: String,
    pub path: String,
}

impl DigestsEntries {
    pub open spec fn wf(&self) -> bool {
        0 <= self.pos_spec() <= self.data_spec().len()
    }

    /// Parses the next digests record, or reports the end of the stream.
    #[verifier::loop_isolation(false)]
    pub fn next(&mut self) -> (r: Result<Option<DigestsEntry>, Error>)
        requires
            old(self).wf(),
        ensures
            final(self).wf(),
            final(self).data_spec() == old(self).data_spec(),
            old(self).pos_spec() >= old(self).data_spec().len() ==> (r matches Ok(o) && o is None
                && final(self).pos_spec() == old(self).pos_spec()),
            old(self).pos_spec() < old(self).data_spec().len() ==> (match digest_record_spec(
                old(self).data_spec(),
                old(self).pos_spec(),
            ) {
                Ok((hash, path, p2)) => r matches Ok(o) && o matches Some(e) && e.digest@ == hash
                    && e.path@ == path && final(self).pos_spec() == p2,
                Err(err) => r == Err::<Option<DigestsEntry>, Error>(err) && final(self).pos_spec()
                    == old(self).pos_spec(),
            }),
    {
        let ghost d = self.data@;
        let p = self.pos;
        if p >= self.data.len() {
            return Ok(None);
        }
        proof {
            lemma_find_byte(d, p as int, 0x00);
        }
        let n1 = match find_byte_x(&self.data, p, 0x00) {
            None => {
                return Err(Error::MalformedRecord);
            },
            Some(n1) => n1,
        };
        if !(n1 + 1 < self.data.len() && self.data[n1 + 1] == 0x0a) {
            return Err(Error::MalformedRecord);
        }
        if n1 - p < 66 {
            return Err(Error::MalformedRecord);
        }
        let mut k = p;
        while k < p + 64
            invariant
                p <= k <= p + 64,
                p + 66 <= n1 < d.len(),
                d == self.data@,
                forall|j: int| p <= j < k ==> is_hex_byte(#[trigger] d[j]),
            decreases p + 64 - k,
        {
            let b = self.data[k];
            if !((0x30 <= b && b <= 0x39) || (0x61 <= b && b <= 0x66)) {
                proof {
                    assert(!is_hex_byte(d[k as int]));
                }
                return Err(Error::MalformedRecord);
            }
            k += 1;
        }
        if !(self.data[p + 64] == 0x20 && self.data[p + 65] == 0x2a) {
            return Err(Error::MalformedRecord);
        }
        let mut k = p + 66;
        while k < n1
            invariant
                p + 66 <= k <= n1 <= d.len(),
                d == self.data@,
                forall|j: int| p + 66 <= j < k ==> d[j] != 0x0a,
            decreases n1 - k,
        {
            if self.data[k] == 0x0a {
                return Err(Error::MalformedRecord);
            }
            k += 1;
        }
        let hash_bytes = bytes_range(&self.data, p, p + 64);
        let path_bytes = bytes_range(&self.data, p + 66, n1);
        proof {
            assert(forall|i: int| 0 <= i < hash_bytes@.len() ==> #[trigger] hash_bytes@[i] < 0x80);
            lemma_ascii_decode(hash_bytes@);
        }
        let digest = match bytes_to_string(&hash_bytes) {
            None => {
                return Err(Error::MalformedRecord);
            },
            Some(s) => s,
        };
        let path = match bytes_to_string(&path_bytes) {
            None => {
                return Err(Error::MalformedRecord);
            },
            Some(s) => s,
        };
        self.pos = n1 + 2;
        Ok(Some(DigestsEntry { digest, path }))
    }
}

impl SnapshotEntries {
    pub open spec fn wf(&self) -> bool {
        &&& 0 <= self.nodes_pos() <= self.nodes_data().len()
        &&& 0 <= self.digests_pos() <= self.digests_data().len()
    }

    pub fn new(nodes: Vec<u8>, digests: Vec<u8>) -> (r: SnapshotEntries)
        ensures
            r.nodes_data() == nodes@,
            r.nodes_pos() == 0,
            r.digests_data() == digests@,
            r.digests_pos() == 0,
            r.wf(),
    {
        SnapshotEntries {
            nodes_entries: NodesEntries { data: nodes, pos: 0 },
            digests_entries: DigestsEntries { data: digests, pos: 0 },
        }
    }

    /// Produces the next snapshot entry from the two streams, `None` once
    /// the nodes stream is exhausted.
    #[verifier::loop_isolation(false)]
    pub fn next(&mut self) -> (r: Result<Option<SnapshotEntry>, Error>)
        requires
            old(self).wf(),
        ensures
            final(self).wf(),
            final(self).nodes_data() == old(self).nodes_data(),
            final(self).digests_data() == old(self).digests_data(),
            match snapshot_next_spec(
                old(self).nodes_data(),
                old(self).nodes_pos(),
                old(self).digests_data(),
                old(self).digests_pos(),
            ) {
                Ok(o) => match o {
                    None => r matches Ok(x) && x is None && final(self).digests_pos() == old(
                        self,
                    ).digests_pos() && final(self).nodes_pos() <= final(self).nodes_data().len(),
                    Some((ev, np2, dp2)) => r matches Ok(x) && x matches Some(e) && e@ == ev
                        && final(self).nodes_pos() == np2 && final(self).digests_pos() == dp2,
                },
                Err(err) => r == Err::<Option<SnapshotEntry>, Error>(err),
            },
    {
        let ghost nd = self.nodes_entries.data_spec();
        let ghost dd = self.digests_entries.data_spec();
        loop
            invariant
                self.wf(),
                nd == self.nodes_entries.data_spec(),
                dd == self.digests_entries.data_spec(),
                self.digests_pos() == old(self).digests_pos(),
                snapshot_next_spec(nd, self.nodes_pos(), dd, self.digests_pos())
                    == snapshot_next_spec(
                    nd,
                    old(self).nodes_pos(),
                    dd,
                    old(self).digests_pos(),
                ),
            decreases nd.len() - self.nodes_pos(),
        {
            let ghost np0 = self.nodes_entries.pos_spec();
            let ghost dp0 = self.digests_entries.pos_spec();
            let ne = match self.nodes_entries.next() {
                Err(e) => {
                    return Err(e);
                },
                Ok(None) => {
                    return Ok(None);
                },
                Ok(Some(ne)) => ne,
            };
            let path = match ShadowPath::parse(ne.path.as_str()) {
                Err(e) => {
                    return Err(e);
                },
                Ok(path) => path,
            };
            if ne.ty == 0x64 {
                return Ok(Some(SnapshotEntry { path, value: SnapshotEntryValue::Tree }));
            } else if ne.ty == 0x6c {
                return Ok(
                    Some(SnapshotEntry { path, value: SnapshotEntryValue::Link { target: ne.target } }),
                );
            } else if ne.ty == 0x66 {
                let de = match self.digests_entries.next() {
                    Err(e) => {
                        return Err(e);
                    },
                    Ok(None) => {
                        return Err(Error::StreamDesynchronized);
                    },
                    Ok(Some(de)) => de,
                };
                if !crate::paths::string_eq(&de.path, &ne.path) {
                    return Err(Error::StreamDesynchronized);
                }
                let content_hash = match ContentHash::parse(de.digest.as_str()) {
                    Err(_) => {
                        return Err(Error::MalformedRecord);
                    },
                    Ok(h) => h,
                };
                let executable = ne.is_executable();
                let shadow = Shadow::new(content_hash, ne.size);
                return Ok(
                    Some(
                        SnapshotEntry {
                            path,
                            value: SnapshotEntryValue::File { shadow, executable },
                        },
                    ),
                );
            }
            // character or block device, socket, or pipe: not representable,
            // skipped
        }
    }
}

} // verus!
