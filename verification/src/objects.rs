use vstd::prelude::*;

use crate::paths::string_eq;

verus! {

/// The kind of an object referenced from a tree entry, mapped one-to-one
/// from snapshot entry values: a plain file, an executable file, a symbolic
/// link, or a directory-equivalent tree.
#[derive(Clone, Copy, Debug, PartialEq, Eq, Structural)]
pub enum FileMode {
    Blob,
    BlobExecutable,
    Link,
    Tree,
}

/// The content address of an object in the object database.
#[derive(Clone, Copy, Debug, PartialEq, Eq, Structural)]
pub struct Oid {
    pub index: usize,
}

/// One entry of a tree object: an encoded name, a mode, and the address of
/// the child object.
#[derive(Clone, Debug, PartialEq, Eq)]
pub struct TreeEntry {
    pub name: String,
    pub mode: FileMode,
    pub oid: Oid,
}

pub struct TreeEntryV {
    pub name: Seq<char>,
    pub mode: FileMode,
    pub oid: int,
}

impl View for TreeEntry {
    type V = TreeEntryV;

    open spec fn view(&self) -> TreeEntryV {
        TreeEntryV { name: self.name@, mode: self.mode, oid: self.oid.index as int }
    }
}

impl DeepView for TreeEntry {
    type V = TreeEntryV;

    open spec fn deep_view(&self) -> TreeEntryV {
        self.view()
    }
}

/// An immutable object of the database: a blob of bytes or an ordered list
/// of tree entries.
///
/// The entry list's order is part of the content: content addressing is
/// taken over the list as given, so two trees holding the same entries in
/// different orders are distinct objects.  The model's canonical order is
/// the insertion order — the planter emits the marker first and then the
/// children in input order, and the editor replaces entries in place and
/// adds new ones at the end.  A store that canonicalizes by sorting names
/// (as git does) coincides with this model whenever trees are built through
/// the planter and editor alone, since those never reorder what they read.
#[derive(Clone, Debug, PartialEq, Eq)]
pub enum Object {
    Blob(Vec<u8>),
    Tree(Vec<TreeEntry>),
}

pub enum ObjectV {
    Blob(Seq<u8>),
    Tree(Seq<TreeEntryV>),
}

impl View for Object {
    type V = ObjectV;

    open spec fn view(&self) -> ObjectV {
        match self {
            Object::Blob(v) => ObjectV::Blob(v@),
            Object::Tree(es) => ObjectV::Tree(es.deep_view()),
        }
    }
}

impl DeepView for Object {
    type V = ObjectV;

    open spec fn deep_view(&self) -> ObjectV {
        self.view()
    }
}

/// Whether every entry of `o` references an address below `bound`.
pub open spec fn obj_refs_below(o: ObjectV, bound: int) -> bool {
    match o {
        ObjectV::Blob(_) => true,
        ObjectV::Tree(es) => forall|k: int|
            0 <= k < es.len() ==> 0 <= (#[trigger] es[k]).oid < bound,
    }
}

/// The object database invariant: no two addresses hold equal content
/// (content addressing), and every tree references only older addresses (so
/// the reference graph is acyclic).
pub open spec fn db_wf(db: Seq<ObjectV>) -> bool {
    &&& (forall|i: int, j: int| 0 <= i < j < db.len() ==> #[trigger] db[i] != #[trigger] db[j])
    &&& (forall|i: int| 0 <= i < db.len() ==> obj_refs_below(#[trigger] db[i], i))
}

/// Whether `new` keeps every object of `old` at its address.
pub open spec fn db_extends(old_db: Seq<ObjectV>, new_db: Seq<ObjectV>) -> bool {
    &&& old_db.len() <= new_db.len()
    &&& (forall|i: int| 0 <= i < old_db.len() ==> new_db[i] == #[trigger] old_db[i])
}

pub proof fn lemma_db_extends_trans(a: Seq<ObjectV>, b: Seq<ObjectV>, c: Seq<ObjectV>)
    requires
        db_extends(a, b),
        db_extends(b, c),
    ensures
        db_extends(a, c),
{
}

fn bytes_eq(a: &Vec<u8>, b: &Vec<u8>) -> (r: bool)
    ensures
        r == (a@ == b@),
{
    if a.len() != b.len() {
        proof {
            if a@ == b@ {
                assert(a@.len() == b@.len());
            }
        }
        return false;
    }
    let mut i: usize = 0;
    while i < a.len()
        invariant
            0 <= i <= a.len(),
            a.len() == b.len(),
            forall|k: int| 0 <= k < i ==> a@[k] == b@[k],
        decreases a.len() - i,
    {
        if a[i] != b[i] {
            return false;
        }
        i += 1;
    }
    proof {
        assert(a@ =~= b@);
    }
    true
}

fn entry_eq(a: &TreeEntry, b: &TreeEntry) -> (r: bool)
    ensures
        r == (a@ == b@),
{
    let r = string_eq(&a.name, &b.name) && a.mode == b.mode && a.oid.index == b.oid.index;
    proof {
        if r {
            assert(a@ == b@);
        } else {
            assert(a@.name == b@.name ==> a.name@ == b.name@);
        }
    }
    r
}

fn entries_eq(a: &Vec<TreeEntry>, b: &Vec<TreeEntry>) -> (r: bool)
    ensures
        r == (a.deep_view() == b.deep_view()),
{
    if a.len() != b.len() {
        proof {
            if a.deep_view() == b.deep_view() {
                assert(a.deep_view().len() == b.deep_view().len());
            }
        }
        return false;
    }
    let mut i: usize = 0;
    while i < a.len()
        invariant
            0 <= i <= a.len(),
            a.len() == b.len(),
            forall|k: int| 0 <= k < i ==> a.deep_view()[k] == b.deep_view()[k],
        decreases a.len() - i,
    {
        if !entry_eq(&a[i], &b[i]) {
            proof {
                assert(a.deep_view()[i as int] != b.deep_view()[i as int]);
            }
            return false;
        }
        i += 1;
    }
    proof {
        assert(a.deep_view() =~= b.deep_view());
    }
    true
}

fn object_eq(a: &Object, b: &Object) -> (r: bool)
    ensures
        r == (a@ == b@),
{
    match (a, b) {
        (Object::Blob(x), Object::Blob(y)) => bytes_eq(x, y),
        (Object::Tree(x), Object::Tree(y)) => entries_eq(x, y),
        _ => false,
    }
}

/// The in-memory model of the content-addressed object database: a sequence
/// of immutable objects in which equal content always receives the identical
/// address, and writes are idempotent.
#[derive(Debug)]
pub struct ObjectDb {
    objects: Vec<Object>,
}

impl View for ObjectDb {
    type V = Seq<ObjectV>;

    closed spec fn view(&self) -> Seq<ObjectV> {
        self.objects.deep_view()
    }
}

impl ObjectDb {
    pub open spec fn wf(&self) -> bool {
        db_wf(self@)
    }

    pub fn new() -> (r: ObjectDb)
        ensures
            r@ == Seq::<ObjectV>::empty(),
            r.wf(),
    {
        let objects: Vec<Object> = Vec::new();
        proof {
            assert(objects.deep_view() =~= Seq::<ObjectV>::empty());
        }
        ObjectDb { objects }
    }

    pub fn len(&self) -> (r: usize)
        ensures
            r == self@.len(),
    {
        self.objects.len()
    }

    /// Reads the object at an address, or nothing for an unknown address.
    pub fn read(&self, oid: Oid) -> (r: Option<&Object>)
        ensures
            (r is Some) == (oid.index < self@.len()),
            r matches Some(o) ==> o@ == self@[oid.index as int],
    {
        if oid.index < self.objects.len() {
            Some(&self.objects[oid.index])
        } else {
            None
        }
    }

    fn find(&self, obj: &Object) -> (r: Option<usize>)
        ensures
            r matches Some(i) ==> i < self@.len() && self@[i as int] == obj@,
            r is None ==> forall|i: int| 0 <= i < self@.len() ==> self@[i] != obj@,
    {
        let mut i: usize = 0;
        while i < self.objects.len()
            invariant
                0 <= i <= self@.len(),
                self@.len() == self.objects.len(),
                forall|k: int| 0 <= k < i ==> self@[k] != obj@,
            decreases self.objects.len() - i,
        {
            if object_eq(&self.objects[i], obj) {
                return Some(i);
            }
            i += 1;
        }
        None
    }

    /// Writes an object, returning its content address.  Writing content
    /// that is already present returns the existing address and changes
    /// nothing: the structural-sharing property of the store.
    pub fn write(&mut self, obj: Object) -> (r: Oid)
        requires
            old(self).wf(),
            obj_refs_below(obj@, old(self)@.len() as int),
        ensures
            final(self).wf(),
            r.index < final(self)@.len(),
            final(self)@[r.index as int] == obj@,
            db_extends(old(self)@, final(self)@),
            (exists|i: int| 0 <= i < old(self)@.len() && old(self)@[i] == obj@) ==> final(self)@
                == old(self)@ && 0 <= r.index < old(self)@.len(),
            !(exists|i: int| 0 <= i < old(self)@.len() && old(self)@[i] == obj@) ==> final(self)@
                == old(self)@.push(obj@) && r.index == old(self)@.len(),
    {
        match self.find(&obj) {
            Some(i) => {
                proof {
                    assert(exists|k: int| 0 <= k < self@.len() && self@[k] == obj@);
                }
                Oid { index: i }
            },
            None => {
                let i = self.objects.len();
                let ghost prev = self@;
                self.objects.push(obj);
                proof {
                    assert(self@ =~= prev.push(obj@));
                    assert forall|a: int, b: int| 0 <= a < b < self@.len() implies #[trigger] self@[a]
                        != #[trigger] self@[b] by {
                        if b < prev.len() {
                        } else {
                            assert(self@[b] == obj@);
                            assert(prev[a] != obj@);
                        }
                    }
                    assert forall|a: int| 0 <= a < self@.len() implies obj_refs_below(
                        #[trigger] self@[a],
                        a,
                    ) by {
                        if a < prev.len() {
                            assert(db_wf(prev));
                        } else {
                            assert(self@[a] == obj@);
                        }
                    }
                }
                Oid { index: i }
            },
        }
    }

    /// The address every equal write returns is unique: two addresses
    /// holding equal content are the same address.
    pub proof fn lemma_address_unique(db: Seq<ObjectV>, i: int, j: int)
        requires
            db_wf(db),
            0 <= i < db.len(),
            0 <= j < db.len(),
            db[i] == db[j],
        ensures
            i == j,
    {
        if i < j {
            assert(db[i] != db[j]);
        }
        if j < i {
            assert(db[j] != db[i]);
        }
    }
}

} // verus!
