use vstd::prelude::*;

use crate::error::Error;
use crate::names::{decode_name, marker_name, TreeEntryName, TreeEntryNameV};
use crate::objects::{db_wf, FileMode, Object, ObjectDb, ObjectV, Oid, TreeEntryV};
use crate::paths::{check_component, valid_component, BulkPath};
use crate::shadow::{is_shadow_blob, Shadow};
use crate::text::bytes_to_string;
use vstd::utf8::valid_utf8;

verus! {

/// Decoding a non-first tree entry's name: the name must decode as an
/// escaped child component which is a valid path component; the reserved
/// marker form is out of place there.
pub open spec fn decoded_child(name: Seq<char>) -> Result<Seq<char>, Error> {
    match decode_name(name) {
        Ok(TreeEntryNameV::Child(c)) => {
            if valid_component(c) {
                Ok(c)
            } else {
                Err(Error::InvalidTreeStructure)
            }
        },
        Ok(TreeEntryNameV::Marker) => Err(Error::InvalidTreeStructure),
        Err(e) => Err(e),
    }
}

/// The first entry of every directory-equivalent tree must be the reserved
/// marker, of blob mode, pointing at the empty blob.
pub open spec fn marker_entry_ok(db: Seq<ObjectV>, es: Seq<TreeEntryV>) -> bool {
    &&& es.len() >= 1
    &&& es[0].name == marker_name()
    &&& es[0].mode == FileMode::Blob
    &&& 0 <= es[0].oid < db.len()
    &&& db[es[0].oid] == ObjectV::Blob(Seq::<u8>::empty())
}

/// Full validity of a shadow tree: every reachable tree follows the marker
/// scheme, every blob decodes as a shadow record, and every link body is
/// text.
pub open spec fn tree_valid(db: Seq<ObjectV>, oid: int) -> bool
    decreases oid, 1int, 0int,
{
    &&& 0 <= oid < db.len()
    &&& db[oid] is Tree
    &&& marker_entry_ok(db, db[oid]->Tree_0)
    &&& (forall|k: int|
        1 <= k < db[oid]->Tree_0.len() ==> entry_valid(db, #[trigger] db[oid]->Tree_0[k], oid))
}

pub open spec fn entry_valid(db: Seq<ObjectV>, e: TreeEntryV, parent: int) -> bool
    decreases parent, 0int, 0int,
{
    &&& decoded_child(e.name) is Ok
    &&& 0 <= e.oid < parent
    &&& match e.mode {
        FileMode::Blob | FileMode::BlobExecutable => {
            &&& db[e.oid] is Blob
            &&& is_shadow_blob(db[e.oid]->Blob_0)
        },
        FileMode::Link => {
            &&& db[e.oid] is Blob
            &&& valid_utf8(db[e.oid]->Blob_0)
        },
        FileMode::Tree => tree_valid(db, e.oid),
    }
}

/// What `check` computes: a depth-first walk that validates structure and
/// contents, remembering every address already visited and skipping repeats
/// (so shared subtrees and shared blobs are examined exactly once).
pub open spec fn check_walk(db: Seq<ObjectV>, oid: int, seen: Set<int>) -> Result<Set<int>, Error>
    decreases oid, 1int, 0int,
{
    if seen.contains(oid) {
        Ok(seen)
    } else {
        let seen1 = seen.insert(oid);
        if !(0 <= oid < db.len()) {
            Err(Error::ObjectNotFound)
        } else if !(db[oid] is Tree) {
            Err(Error::InvalidTreeStructure)
        } else if !marker_entry_ok(db, db[oid]->Tree_0) {
            Err(Error::InvalidTreeStructure)
        } else {
            check_walk_entries(db, db[oid]->Tree_0, 1, oid, seen1)
        }
    }
}

pub open spec fn check_walk_entries(
    db: Seq<ObjectV>,
    es: Seq<TreeEntryV>,
    k: int,
    parent: int,
    seen: Set<int>,
) -> Result<Set<int>, Error>
    decreases parent, 0int, es.len() - k,
{
    if k < 0 || k >= es.len() {
        Ok(seen)
    } else {
        let e = es[k];
        match decoded_child(e.name) {
            Err(err) => Err(err),
            Ok(_) => match e.mode {
                FileMode::Blob | FileMode::BlobExecutable => {
                    if seen.contains(e.oid) {
                        check_walk_entries(db, es, k + 1, parent, seen)
                    } else if !(0 <= e.oid < db.len()) {
                        Err(Error::ObjectNotFound)
                    } else if !(db[e.oid] is Blob) {
                        Err(Error::UnsupportedEntry)
                    } else if !is_shadow_blob(db[e.oid]->Blob_0) {
                        Err(Error::MalformedShadow)
                    } else {
                        check_walk_entries(db, es, k + 1, parent, seen.insert(e.oid))
                    }
                },
                FileMode::Link => {
                    if seen.contains(e.oid) {
                        check_walk_entries(db, es, k + 1, parent, seen)
                    } else if !(0 <= e.oid < db.len()) {
                        Err(Error::ObjectNotFound)
                    } else if !(db[e.oid] is Blob) {
                        Err(Error::UnsupportedEntry)
                    } else if !valid_utf8(db[e.oid]->Blob_0) {
                        Err(Error::InvalidTreeStructure)
                    } else {
                        check_walk_entries(db, es, k + 1, parent, seen.insert(e.oid))
                    }
                },
                FileMode::Tree => {
                    if !(0 <= e.oid < parent) {
                        Err(Error::ObjectNotFound)
                    } else {
                        match check_walk(db, e.oid, seen) {
                            Err(err) => Err(err),
                            Ok(seen2) => check_walk_entries(db, es, k + 1, parent, seen2),
                        }
                    }
                },
            },
        }
    }
}

/// A tree whose first entry is not the marker fails the walk outright.
pub proof fn lemma_check_requires_marker(db: Seq<ObjectV>, oid: int)
    requires
        0 <= oid < db.len(),
        db[oid] is Tree,
        !marker_entry_ok(db, db[oid]->Tree_0),
    ensures
        check_walk(db, oid, Set::empty()) == Err::<Set<int>, Error>(Error::InvalidTreeStructure),
{
    assert(!Set::<int>::empty().contains(oid));
}

/// The set of visited addresses, kept as a plain vector.
struct SeenSet {
    v: Vec<usize>,
}

impl SeenSet {
    pub closed spec fn set_of(&self) -> Set<int> {
        Set::new(|i: int| exists|k: int| 0 <= k < self.v@.len() && self.v@[k] as int == i)
    }

    fn new() -> (r: SeenSet)
        ensures
            r.set_of() == Set::<int>::empty(),
    {
        let r = SeenSet { v: Vec::new() };
        proof {
            assert(r.set_of() =~= Set::<int>::empty());
        }
        r
    }

    fn contains(&self, o: usize) -> (r: bool)
        ensures
            r == self.set_of().contains(o as int),
    {
        let mut i: usize = 0;
        while i < self.v.len()
            invariant
                0 <= i <= self.v@.len(),
                forall|k: int| 0 <= k < i ==> self.v@[k] != o,
            decreases self.v.len() - i,
        {
            if self.v[i] == o {
                proof {
                    assert(self.set_of().contains(o as int));
                }
                return true;
            }
            i += 1;
        }
        proof {
            if self.set_of().contains(o as int) {
                let k = choose|k: int| 0 <= k < self.v@.len() && self.v@[k] as int == o as int;
                assert(self.v@[k] != o);
            }
        }
        false
    }

    fn insert(&mut self, o: usize)
        ensures
            final(self).set_of() == old(self).set_of().insert(o as int),
    {
        self.v.push(o);
        proof {
            assert forall|i: int| final(self).set_of().contains(i) == old(self).set_of().insert(
                o as int,
            ).contains(i) by {
                if final(self).set_of().contains(i) {
                    let k = choose|k: int|
                        0 <= k < self.v@.len() && self.v@[k] as int == i;
                    if k < self.v@.len() - 1 {
                        assert(old(self).v@[k] as int == i);
                    }
                }
                if old(self).set_of().contains(i) {
                    let k = choose|k: int|
                        0 <= k < old(self).v@.len() && old(self).v@[k] as int == i;
                    assert(self.v@[k] as int == i);
                }
                if i == o as int {
                    assert(self.v@[self.v@.len() - 1] as int == i);
                }
            }
            assert(final(self).set_of() =~= old(self).set_of().insert(o as int));
        }
    }
}

/// Decodes a non-first entry name into its component, rejecting the marker
/// form and invalid components.
fn name_to_component(name: &String) -> (r: Result<String, Error>)
    ensures
        r matches Ok(c) ==> decoded_child(name@) == Ok::<Seq<char>, Error>(c@),
        (r is Ok) == (decoded_child(name@) is Ok),
        r matches Err(e) ==> decoded_child(name@) == Err::<Seq<char>, Error>(e),
{
    match TreeEntryName::decode(name.as_str()) {
        Ok(TreeEntryName::Marker) => Err(Error::InvalidTreeStructure),
        Ok(TreeEntryName::Child(c)) => {
            if check_component(c.as_str()) {
                Ok(c)
            } else {
                Err(Error::InvalidTreeStructure)
            }
        },
        Err(e) => Err(e),
    }
}

fn is_marker_entry(db: &ObjectDb, e: &crate::objects::TreeEntry) -> (r: bool)
    ensures
        r == (e@.name == marker_name() && e@.mode == FileMode::Blob && 0 <= e@.oid < db@.len()
            && db@[e@.oid] == ObjectV::Blob(Seq::<u8>::empty())),
{
    let n = e.name.as_str();
    if !(n.unicode_len() == 1 && n.get_char(0) == '0') {
        proof {
            if e@.name == marker_name() {
                assert(e@.name.len() == 1 && e@.name[0] == '0');
            }
        }
        return false;
    }
    proof {
        assert(e@.name =~= marker_name());
    }
    if !matches!(e.mode, FileMode::Blob) {
        return false;
    }
    match db.read(e.oid) {
        Some(Object::Blob(content)) => {
            let r = content.len() == 0;
            proof {
                if content@.len() == 0 {
                    assert(content@ =~= Seq::<u8>::empty());
                    assert(db@[e@.oid] == ObjectV::Blob(Seq::<u8>::empty()));
                } else {
                    assert(db@[e@.oid]->Blob_0 == content@);
                }
            }
            r
        },
        Some(Object::Tree(_)) => {
            proof {
                assert(db@[e@.oid] is Tree);
            }
            false
        },
        None => false,
    }
}

fn check_walk_x(db: &ObjectDb, oid: usize, seen: &mut SeenSet) -> (r: Result<(), Error>)
    requires
        db.wf(),
    ensures
        match check_walk(db@, oid as int, old(seen).set_of()) {
            Ok(s2) => r is Ok && final(seen).set_of() == s2,
            Err(e) => r == Err::<(), Error>(e),
        },
    decreases oid,
{
    let ghost seen0 = seen.set_of();
    if seen.contains(oid) {
        return Ok(());
    }
    seen.insert(oid);
    let ghost seen1 = seen.set_of();
    let obj = match db.read(Oid { index: oid }) {
        None => {
            return Err(Error::ObjectNotFound);
        },
        Some(o) => o,
    };
    let entries = match obj {
        Object::Blob(_) => {
            return Err(Error::InvalidTreeStructure);
        },
        Object::Tree(es) => es,
    };
    let ghost es = db@[oid as int]->Tree_0;
    proof {
        assert(es == entries.deep_view());
    }
    if entries.len() == 0 {
        proof {
            assert(!marker_entry_ok(db@, es));
        }
        return Err(Error::InvalidTreeStructure);
    }
    if !is_marker_entry(db, &entries[0]) {
        proof {
            assert(es[0] == entries@[0]@);
            assert(!marker_entry_ok(db@, es));
        }
        return Err(Error::InvalidTreeStructure);
    }
    proof {
        assert(es[0] == entries@[0]@);
        assert(marker_entry_ok(db@, es));
    }
    let mut k: usize = 1;
    proof {
        assert(check_walk(db@, oid as int, seen0) == check_walk_entries(
            db@,
            es,
            1,
            oid as int,
            seen1,
        ));
    }
    while k < entries.len()
        invariant
            1 <= k <= entries.len(),
            db.wf(),
            oid < db@.len(),
            db@[oid as int] is Tree,
            es == db@[oid as int]->Tree_0,
            es == entries.deep_view(),
            check_walk(db@, oid as int, seen0) == check_walk_entries(
                db@,
                es,
                k as int,
                oid as int,
                seen.set_of(),
            ),
            seen0 == old(seen).set_of(),
        decreases entries.len() - k,
    {
        let ghost seen_pre = seen.set_of();
        let e = &entries[k];
        proof {
            assert(e@ == es[k as int]);
            assert(crate::objects::obj_refs_below(db@[oid as int], oid as int));
            assert(0 <= es[k as int].oid < oid);
        }
        match name_to_component(&e.name) {
            Ok(_) => {},
            Err(err) => {
                proof {
                    assert(check_walk_entries(db@, es, k as int, oid as int, seen_pre)
                        == Err::<Set<int>, Error>(err));
                }
                return Err(err);
            },
        }
        match e.mode {
            FileMode::Blob | FileMode::BlobExecutable => {
                if !seen.contains(e.oid.index) {
                    let content = match db.read(e.oid) {
                        Some(Object::Blob(content)) => content,
                        Some(Object::Tree(_)) => {
                            proof {
                                assert(db@[e@.oid] is Tree);
                            }
                            return Err(Error::UnsupportedEntry);
                        },
                        None => {
                            return Err(Error::ObjectNotFound);
                        },
                    };
                    proof {
                        assert(db@[e@.oid]->Blob_0 == content@);
                    }
                    match Shadow::from_bytes(content) {
                        Ok(_) => {},
                        Err(_) => {
                            proof {
                                assert(!is_shadow_blob(content@));
                            }
                            return Err(Error::MalformedShadow);
                        },
                    }
                    seen.insert(e.oid.index);
                    proof {
                        assert(seen.set_of() =~= seen_pre.insert(e@.oid));
                    }
                }
            },
            FileMode::Link => {
                if !seen.contains(e.oid.index) {
                    let content = match db.read(e.oid) {
                        Some(Object::Blob(content)) => content,
                        Some(Object::Tree(_)) => {
                            proof {
                                assert(db@[e@.oid] is Tree);
                            }
                            return Err(Error::UnsupportedEntry);
                        },
                        None => {
                            return Err(Error::ObjectNotFound);
                        },
                    };
                    proof {
                        assert(db@[e@.oid]->Blob_0 == content@);
                    }
                    match bytes_to_string(content) {
                        Some(_) => {},
                        None => {
                            return Err(Error::InvalidTreeStructure);
                        },
                    }
                    seen.insert(e.oid.index);
                    proof {
                        assert(seen.set_of() =~= seen_pre.insert(e@.oid));
                    }
                }
            },
            FileMode::Tree => {
                match check_walk_x(db, e.oid.index, seen) {
                    Ok(()) => {},
                    Err(err) => {
                        proof {
                            assert(check_walk(db@, e@.oid, seen_pre) == Err::<Set<int>, Error>(
                                err,
                            ));
                        }
                        return Err(err);
                    },
                }
            },
        }
        k += 1;
    }
    proof {
        assert(check_walk_entries(db@, es, entries.len() as int, oid as int, seen.set_of())
            == Ok::<Set<int>, Error>(seen.set_of()));
    }
    Ok(())
}

/// Validates a whole tree: structure (marker scheme, entry names, modes),
/// every blob body as a shadow record, and every link body as text, each
/// shared object exactly once.
pub fn check_tree(db: &ObjectDb, root: Oid) -> (r: Result<(), Error>)
    requires
        db.wf(),
    ensures
        (r is Ok) == (check_walk(db@, root.index as int, Set::empty()) is Ok),
        r matches Err(e) ==> check_walk(db@, root.index as int, Set::empty()) == Err::<
            Set<int>,
            Error,
        >(e),
{
    let mut seen = SeenSet::new();
    check_walk_x(db, root.index, &mut seen)
}

/// What `unique_blobs` computes: the same deduplicating walk as `check`,
/// collecting `(path, shadow, address)` for each first-seen blob, in visit
/// order.  Links are remembered but not read; each shared address is
/// handled exactly once.
pub open spec fn shadows_walk(
    db: Seq<ObjectV>,
    path: Seq<Seq<char>>,
    oid: int,
    seen: Set<int>,
) -> Result<(Seq<(Seq<Seq<char>>, crate::shadow::ShadowV, int)>, Set<int>), Error>
    decreases oid, 1int, 0int,
{
    if seen.contains(oid) {
        Ok((Seq::empty(), seen))
    } else {
        let seen1 = seen.insert(oid);
        if !(0 <= oid < db.len()) {
            Err(Error::ObjectNotFound)
        } else if !(db[oid] is Tree) {
            Err(Error::InvalidTreeStructure)
        } else if !marker_entry_ok(db, db[oid]->Tree_0) {
            Err(Error::InvalidTreeStructure)
        } else {
            shadows_walk_entries(db, path, db[oid]->Tree_0, 1, oid, seen1)
        }
    }
}

pub open spec fn shadows_walk_entries(
    db: Seq<ObjectV>,
    path: Seq<Seq<char>>,
    es: Seq<TreeEntryV>,
    k: int,
    parent: int,
    seen: Set<int>,
) -> Result<(Seq<(Seq<Seq<char>>, crate::shadow::ShadowV, int)>, Set<int>), Error>
    decreases parent, 0int, es.len() - k,
{
    if k < 0 || k >= es.len() {
        Ok((Seq::empty(), seen))
    } else {
        let e = es[k];
        match decoded_child(e.name) {
            Err(err) => Err(err),
            Ok(c) => {
                let child_path = path.push(c);
                match e.mode {
                    FileMode::Blob | FileMode::BlobExecutable => {
                        if seen.contains(e.oid) {
                            shadows_walk_entries(db, path, es, k + 1, parent, seen)
                        } else if !(0 <= e.oid < db.len()) {
                            Err(Error::ObjectNotFound)
                        } else if !(db[e.oid] is Blob) {
                            Err(Error::UnsupportedEntry)
                        } else if !is_shadow_blob(db[e.oid]->Blob_0) {
                            Err(Error::MalformedShadow)
                        } else {
                            let sh = choose|sh: crate::shadow::ShadowV|
                                crate::shadow::shadow_v_wf(sh) && db[e.oid]->Blob_0
                                    == crate::shadow::shadow_bytes_spec(sh);
                            match shadows_walk_entries(db, path, es, k + 1, parent, seen.insert(e.oid)) {
                                Err(err) => Err(err),
                                Ok((items, seen2)) => Ok(
                                    (seq![(child_path, sh, e.oid)] + items, seen2),
                                ),
                            }
                        }
                    },
                    FileMode::Link => {
                        if seen.contains(e.oid) {
                            shadows_walk_entries(db, path, es, k + 1, parent, seen)
                        } else {
                            shadows_walk_entries(db, path, es, k + 1, parent, seen.insert(e.oid))
                        }
                    },
                    FileMode::Tree => {
                        if !(0 <= e.oid < parent) {
                            Err(Error::ObjectNotFound)
                        } else {
                            match shadows_walk(db, child_path, e.oid, seen) {
                                Err(err) => Err(err),
                                Ok((items1, seen2)) => match shadows_walk_entries(
                                    db,
                                    path,
                                    es,
                                    k + 1,
                                    parent,
                                    seen2,
                                ) {
                                    Err(err) => Err(err),
                                    Ok((items2, seen3)) => Ok((items1 + items2, seen3)),
                                },
                            }
                        }
                    },
                }
            },
        }
    }
}

/// The deduplication law: one walk never hands out the same address twice,
/// never hands out an address already seen, and every address it hands out
/// is remembered afterwards.
pub proof fn lemma_dedup_walk_unique(db: Seq<ObjectV>, path: Seq<Seq<char>>, oid: int, seen: Set<int>)
    requires
        shadows_walk(db, path, oid, seen) is Ok,
    ensures
        ({
            let (items, seen2) = shadows_walk(db, path, oid, seen)->Ok_0;
            &&& forall|a: int, b: int|
                0 <= a < b < items.len() ==> (#[trigger] items[a]).2 != (#[trigger] items[b]).2
            &&& forall|a: int| 0 <= a < items.len() ==> !seen.contains((#[trigger] items[a]).2)
            &&& forall|a: int| 0 <= a < items.len() ==> seen2.contains((#[trigger] items[a]).2)
            &&& seen.subset_of(seen2)
        }),
    decreases oid, 1int, 0int,
{
    if seen.contains(oid) {
    } else {
        lemma_dedup_walk_entries_unique(db, path, db[oid]->Tree_0, 1, oid, seen.insert(oid));
        assert(seen.subset_of(seen.insert(oid)));
    }
}

proof fn lemma_dedup_walk_entries_unique(
    db: Seq<ObjectV>,
    path: Seq<Seq<char>>,
    es: Seq<TreeEntryV>,
    k: int,
    parent: int,
    seen: Set<int>,
)
    requires
        shadows_walk_entries(db, path, es, k, parent, seen) is Ok,
    ensures
        ({
            let (items, seen2) = shadows_walk_entries(db, path, es, k, parent, seen)->Ok_0;
            &&& forall|a: int, b: int|
                0 <= a < b < items.len() ==> (#[trigger] items[a]).2 != (#[trigger] items[b]).2
            &&& forall|a: int| 0 <= a < items.len() ==> !seen.contains((#[trigger] items[a]).2)
            &&& forall|a: int| 0 <= a < items.len() ==> seen2.contains((#[trigger] items[a]).2)
            &&& seen.subset_of(seen2)
        }),
    decreases parent, 0int, es.len() - k,
{
    if k < 0 || k >= es.len() {
    } else {
        let e = es[k];
        match decoded_child(e.name) {
            Err(_) => {},
            Ok(c) => {
                let child_path = path.push(c);
                match e.mode {
                    FileMode::Blob | FileMode::BlobExecutable => {
                        if seen.contains(e.oid) {
                            lemma_dedup_walk_entries_unique(db, path, es, k + 1, parent, seen);
                        } else {
                            let seen1 = seen.insert(e.oid);
                            lemma_dedup_walk_entries_unique(db, path, es, k + 1, parent, seen1);
                            let (items, seen2) = shadows_walk_entries(
                                db,
                                path,
                                es,
                                k + 1,
                                parent,
                                seen1,
                            )->Ok_0;
                            assert(seen1.subset_of(seen2));
                            assert(seen2.contains(e.oid));
                            let sh = choose|sh: crate::shadow::ShadowV|
                                crate::shadow::shadow_v_wf(sh) && db[e.oid]->Blob_0
                                    == crate::shadow::shadow_bytes_spec(sh);
                            let items_all = seq![(child_path, sh, e.oid)] + items;
                            assert(shadows_walk_entries(db, path, es, k, parent, seen)->Ok_0.0
                                == items_all);
                            assert(items_all[0].2 == e.oid);
                            assert(forall|a: int|
                                1 <= a < items_all.len() ==> #[trigger] items_all[a] == items[a
                                    - 1]);
                        }
                    },
                    FileMode::Link => {
                        if seen.contains(e.oid) {
                            lemma_dedup_walk_entries_unique(db, path, es, k + 1, parent, seen);
                        } else {
                            lemma_dedup_walk_entries_unique(
                                db,
                                path,
                                es,
                                k + 1,
                                parent,
                                seen.insert(e.oid),
                            );
                            assert(seen.subset_of(seen.insert(e.oid)));
                        }
                    },
                    FileMode::Tree => {
                        if 0 <= e.oid < parent {
                            lemma_dedup_walk_unique(db, child_path, e.oid, seen);
                            match shadows_walk(db, child_path, e.oid, seen) {
                                Err(_) => {},
                                Ok((items1, seen2)) => {
                                    lemma_dedup_walk_entries_unique(db, path, es, k + 1, parent, seen2);
                                },
                            }
                        }
                    },
                }
            },
        }
    }
}

/// The deduplicating walk behind `unique_blobs`.
#[verifier::rlimit(100)]
#[verifier::loop_isolation(false)]
fn shadows_walk_x(
    db: &ObjectDb,
    path: &mut BulkPath,
    oid: usize,
    seen: &mut SeenSet,
    out: &mut Vec<(BulkPath, Shadow)>,
) -> (r: Result<(), Error>)
    requires
        db.wf(),
    ensures
        match shadows_walk(db@, old(path)@, oid as int, old(seen).set_of()) {
            Ok((items, s2)) => r is Ok && final(seen).set_of() == s2 && final(path)@ == old(
                path,
            )@ && final(out)@.len() == old(out)@.len() + items.len() && (forall|a: int|
                0 <= a < old(out)@.len() ==> final(out)@[a] == old(out)@[a]) && (forall|a: int|
                0 <= a < items.len() ==> (#[trigger] final(out)@[old(out)@.len() + a]).0@
                    == items[a].0 && final(out)@[old(out)@.len() + a].1@ == items[a].1),
            Err(e) => r == Err::<(), Error>(e),
        },
    decreases oid,
{
    let ghost seen0 = seen.set_of();
    let ghost path0 = path@;
    let ghost out0 = out@;
    if seen.contains(oid) {
        return Ok(());
    }
    seen.insert(oid);
    let ghost seen1 = seen.set_of();
    let obj = match db.read(Oid { index: oid }) {
        None => {
            return Err(Error::ObjectNotFound);
        },
        Some(o) => o,
    };
    let entries = match obj {
        Object::Blob(_) => {
            return Err(Error::InvalidTreeStructure);
        },
        Object::Tree(es) => es,
    };
    let ghost es = db@[oid as int]->Tree_0;
    proof {
        assert(es == entries.deep_view());
    }
    if entries.len() == 0 {
        proof {
            assert(!marker_entry_ok(db@, es));
        }
        return Err(Error::InvalidTreeStructure);
    }
    if !is_marker_entry(db, &entries[0]) {
        proof {
            assert(es[0] == entries@[0]@);
            assert(!marker_entry_ok(db@, es));
        }
        return Err(Error::InvalidTreeStructure);
    }
    proof {
        assert(es[0] == entries@[0]@);
        assert(marker_entry_ok(db@, es));
    }
    let mut k: usize = 1;
    proof {
        assert(shadows_walk(db@, path0, oid as int, seen0) == shadows_walk_entries(
            db@,
            path0,
            es,
            1,
            oid as int,
            seen1,
        ));
    }
    while k < entries.len()
        invariant
            1 <= k <= entries.len(),
            oid < db@.len(),
            db@[oid as int] is Tree,
            es == db@[oid as int]->Tree_0,
            es == entries.deep_view(),
            path@ == path0,
            forall|a: int| 0 <= a < out0.len() ==> out@[a] == out0[a],
            out@.len() >= out0.len(),
            ({
                let got = out@.subrange(out0.len() as int, out@.len() as int);
                match shadows_walk_entries(db@, path0, es, k as int, oid as int, seen.set_of()) {
                    Ok((items, s2)) => (match shadows_walk(db@, path0, oid as int, seen0) {
                        Ok((items_all, s2_all)) => {
                            &&& s2 == s2_all
                            &&& items_all.len() == got.len() + items.len()
                            &&& (forall|a: int|
                                0 <= a < got.len() ==> (#[trigger] items_all[a]).0 == got[a].0@
                                    && items_all[a].1 == got[a].1@)
                            &&& items_all.skip(got.len() as int) == items
                        },
                        Err(_) => false,
                    }),
                    Err(e) => shadows_walk(db@, path0, oid as int, seen0) == Err::<
                        (Seq<(Seq<Seq<char>>, crate::shadow::ShadowV, int)>, Set<int>),
                        Error,
                    >(e),
                }
            }),
        decreases entries.len() - k,
    {
        let ghost seen_pre = seen.set_of();
        let e = &entries[k];
        proof {
            assert(e@ == es[k as int]);
            assert(crate::objects::obj_refs_below(db@[oid as int], oid as int));
            assert(0 <= es[k as int].oid < oid);
        }
        let component = match name_to_component(&e.name) {
            Ok(c) => c,
            Err(err) => {
                return Err(err);
            },
        };
        match e.mode {
            FileMode::Blob | FileMode::BlobExecutable => {
                if seen.contains(e.oid.index) {
                    proof {
                        assert(shadows_walk_entries(db@, path0, es, k as int, oid as int, seen_pre)
                            == shadows_walk_entries(db@, path0, es, k as int + 1, oid as int,
                            seen_pre));
                    }
                } else {
                    let content = match db.read(e.oid) {
                        Some(Object::Blob(content)) => content,
                        Some(Object::Tree(_)) => {
                            return Err(Error::UnsupportedEntry);
                        },
                        None => {
                            return Err(Error::ObjectNotFound);
                        },
                    };
                    proof {
                        assert(db@[e@.oid]->Blob_0 == content@);
                    }
                    let sh = match Shadow::from_bytes(content) {
                        Ok(sh) => sh,
                        Err(_) => {
                            return Err(Error::MalformedShadow);
                        },
                    };
                    let mut child = path.clone();
                    child.push(component);
                    proof {
                        let spec_sh = choose|s2: crate::shadow::ShadowV|
                            crate::shadow::shadow_v_wf(s2) && db@[e@.oid]->Blob_0
                                == crate::shadow::shadow_bytes_spec(s2);
                        crate::shadow::lemma_shadow_encoding_injective(sh@, spec_sh);
                        assert(child@ == path0.push(decoded_child(e@.name)->Ok_0));
                    }
                    let ghost got_pre = out@.subrange(out0.len() as int, out@.len() as int);
                    out.push((child, sh));
                    seen.insert(e.oid.index);
                    proof {
                        let got_new = out@.subrange(out0.len() as int, out@.len() as int);
                        assert(got_new =~= got_pre.push((child, sh)));
                        assert(crate::shadow::is_shadow_blob(db@[e@.oid]->Blob_0));
                        let spec_sh = choose|s2: crate::shadow::ShadowV|
                            crate::shadow::shadow_v_wf(s2) && db@[e@.oid]->Blob_0
                                == crate::shadow::shadow_bytes_spec(s2);
                        assert(sh@ == spec_sh);
                        assert(seen.set_of() == seen_pre.insert(e@.oid as int));
                        let r_next = shadows_walk_entries(
                            db@,
                            path0,
                            es,
                            k as int + 1,
                            oid as int,
                            seen.set_of(),
                        );
                        let r_cur = shadows_walk_entries(
                            db@,
                            path0,
                            es,
                            k as int,
                            oid as int,
                            seen_pre,
                        );
                        match r_next {
                            Ok((items_rest, s2n)) => {
                                assert(r_cur == Ok::<
                                    (Seq<(Seq<Seq<char>>, crate::shadow::ShadowV, int)>, Set<int>),
                                    Error,
                                >((seq![(child@, sh@, e@.oid as int)] + items_rest, s2n)));
                                let (items_all, s2_all) = shadows_walk(
                                    db@,
                                    path0,
                                    oid as int,
                                    seen0,
                                )->Ok_0;
                                let items_cur = seq![(child@, sh@, e@.oid as int)] + items_rest;
                                assert(items_all.skip(got_pre.len() as int) == items_cur);
                                assert(items_all[got_pre.len() as int] == items_cur[0]);
                                assert forall|a: int|
                                    0 <= a < items_rest.len() implies items_all.skip(
                                    got_new.len() as int,
                                )[a] == items_rest[a] by {
                                    assert(items_all.skip(got_pre.len() as int)[a + 1]
                                        == items_cur[a + 1]);
                                }
                                assert(items_all.skip(got_new.len() as int) =~= items_rest);
                            },
                            Err(errn) => {
                                assert(r_cur == Err::<
                                    (Seq<(Seq<Seq<char>>, crate::shadow::ShadowV, int)>, Set<int>),
                                    Error,
                                >(errn));
                            },
                        }
                    }
                }
            },
            FileMode::Link => {
                if !seen.contains(e.oid.index) {
                    seen.insert(e.oid.index);
                    proof {
                        assert(seen.set_of() == seen_pre.insert(e@.oid as int));
                        assert(shadows_walk_entries(db@, path0, es, k as int, oid as int, seen_pre)
                            == shadows_walk_entries(db@, path0, es, k as int + 1, oid as int,
                            seen.set_of()));
                    }
                } else {
                    proof {
                        assert(shadows_walk_entries(db@, path0, es, k as int, oid as int, seen_pre)
                            == shadows_walk_entries(db@, path0, es, k as int + 1, oid as int,
                            seen_pre));
                    }
                }
            },
            FileMode::Tree => {
                let ghost got_pre = out@.subrange(out0.len() as int, out@.len() as int);
                let mut sub = path.clone();
                sub.push(component);
                proof {
                    assert(sub@ == path0.push(decoded_child(e@.name)->Ok_0));
                }
                match shadows_walk_x(db, &mut sub, e.oid.index, seen, out) {
                    Ok(()) => {},
                    Err(err) => {
                        proof {
                            assert(shadows_walk(db@, path0.push(decoded_child(e@.name)->Ok_0),
                                e@.oid as int, seen_pre) == Err::<
                                (Seq<(Seq<Seq<char>>, crate::shadow::ShadowV, int)>, Set<int>),
                                Error,
                            >(err));
                        }
                        return Err(err);
                    },
                }
                proof {
                    let child_path = path0.push(decoded_child(e@.name)->Ok_0);
                    let (items1, seen2) = shadows_walk(db@, child_path, e@.oid as int, seen_pre)
                        ->Ok_0;
                    let got_mid = out@.subrange(out0.len() as int, out@.len() as int);
                    assert(got_mid.len() == got_pre.len() + items1.len());
                    assert(seen.set_of() == seen2);
                    let r_next = shadows_walk_entries(
                        db@,
                        path0,
                        es,
                        k as int + 1,
                        oid as int,
                        seen2,
                    );
                    let r_cur = shadows_walk_entries(db@, path0, es, k as int, oid as int, seen_pre);
                    match r_next {
                        Ok((items2, s3)) => {
                            assert(r_cur == Ok::<
                                (Seq<(Seq<Seq<char>>, crate::shadow::ShadowV, int)>, Set<int>),
                                Error,
                            >((items1 + items2, s3)));
                            let (items_all, _s2a) = shadows_walk(db@, path0, oid as int, seen0)
                                ->Ok_0;
                            assert(items_all.skip(got_pre.len() as int) == items1 + items2);
                            assert forall|a: int|
                                0 <= a < items1.len() implies (#[trigger] items_all[got_pre.len()
                                + a]).0 == out@[out0.len() + got_pre.len() + a].0@ && items_all[
                                got_pre.len() + a].1 == out@[out0.len() + got_pre.len() + a].1@ by {
                                assert(items_all.skip(got_pre.len() as int)[a] == (items1
                                    + items2)[a]);
                                assert(out@[out0.len() + got_pre.len() + a].0@ == items1[a].0
                                    && out@[out0.len() + got_pre.len() + a].1@ == items1[a].1);
                            }
                            assert forall|a: int|
                                0 <= a < items2.len() implies items_all.skip(
                                got_mid.len() as int,
                            )[a] == items2[a] by {
                                assert(items_all.skip(got_pre.len() as int)[items1.len() + a]
                                    == (items1 + items2)[items1.len() + a]);
                            }
                            assert(items_all.skip(got_mid.len() as int) =~= items2);
                            assert forall|a: int|
                                0 <= a < got_mid.len() implies (#[trigger] items_all[a]).0
                                == got_mid[a].0@ && items_all[a].1 == got_mid[a].1@ by {
                                if a < got_pre.len() {
                                } else {
                                    assert(items_all[got_pre.len() + (a - got_pre.len())].0
                                        == out@[out0.len() + a].0@ && items_all[got_pre.len() + (
                                    a - got_pre.len())].1 == out@[out0.len() + a].1@);
                                    assert(got_mid[a] == out@[out0.len() + a]);
                                }
                            }
                        },
                        Err(errn) => {
                            assert(r_cur == Err::<
                                (Seq<(Seq<Seq<char>>, crate::shadow::ShadowV, int)>, Set<int>),
                                Error,
                            >(errn));
                        },
                    }
                }
            },
        }
        k += 1;
    }
    proof {
        assert(shadows_walk_entries(db@, path0, es, entries.len() as int, oid as int, seen.set_of())
            == Ok::<(Seq<(Seq<Seq<char>>, crate::shadow::ShadowV, int)>, Set<int>), Error>(
            (Seq::empty(), seen.set_of()),
        ));
    }
    Ok(())
}

/// Enumerates each distinct blob of the tree exactly once, with the first
/// path at which its content is encountered and its decoded shadow, in
/// visit order.
pub fn unique_blobs(db: &ObjectDb, tree: Oid) -> (r: Result<Vec<(BulkPath, Shadow)>, Error>)
    requires
        db.wf(),
    ensures
        match shadows_walk(db@, Seq::empty(), tree.index as int, Set::empty()) {
            Ok((items, _)) => r matches Ok(v) && v@.len() == items.len() && (forall|a: int|
                0 <= a < items.len() ==> (#[trigger] v@[a]).0@ == items[a].0 && v@[a].1@
                    == items[a].1),
            Err(e) => r == Err::<Vec<(BulkPath, Shadow)>, Error>(e),
        },
{
    let mut path = BulkPath::new();
    let mut seen = SeenSet::new();
    let mut out: Vec<(BulkPath, Shadow)> = Vec::new();
    match shadows_walk_x(db, &mut path, tree.index, &mut seen, &mut out) {
        Ok(()) => {
            proof {
                let (items, _s) = shadows_walk(
                    db@,
                    Seq::empty(),
                    tree.index as int,
                    Set::empty(),
                )->Ok_0;
                assert forall|a: int|
                    0 <= a < items.len() implies (#[trigger] out@[a]).0@ == items[a].0
                    && out@[a].1@ == items[a].1 by {
                    assert(out@[0 + a].0@ == items[a].0 && out@[0 + a].1@ == items[a].1);
                }
            }
            Ok(out)
        },
        Err(e) => Err(e),
    }
}

/// One visited object, handed to a traversal visitor: the database, the
/// active path, the address, and kind-specific extras.
pub struct Visit<'a, T> {
    db: &'a ObjectDb,
    path: &'a BulkPath,
    oid: Oid,
    extra: T,
}

pub struct VisitBlob {
    executable: bool,
}

pub struct VisitLink;

pub struct VisitTree;

/// A visitor's answer for a tree: descend into it, or prune the whole
/// subtree.
pub enum VisitTreeDecision {
    Descend,
    Skip,
}

impl<'a, T> Visit<'a, T> {
    pub closed spec fn oid_spec(&self) -> int {
        self.oid.index as int
    }

    pub closed spec fn path_spec(&self) -> Seq<Seq<char>> {
        self.path@
    }

    pub closed spec fn db_spec(&self) -> Seq<ObjectV> {
        self.db@
    }

    pub fn oid(&self) -> (r: Oid)
        ensures
            r.index as int == self.oid_spec(),
    {
        self.oid
    }

    pub fn path(&self) -> (r: &BulkPath)
        ensures
            r@ == self.path_spec(),
    {
        self.path
    }
}

impl<'a> Visit<'a, VisitBlob> {
    pub closed spec fn executable_spec(&self) -> bool {
        self.extra.executable
    }

    pub fn executable(&self) -> (r: bool)
        ensures
            r == self.executable_spec(),
    {
        self.extra.executable
    }

    /// Reads and decodes the shadow record standing in for this file's
    /// content: it succeeds exactly when the address holds a blob whose
    /// body is a well-formed shadow record.
    pub fn read_blob(&self) -> (r: Result<Shadow, Error>)
        ensures
            (r is Ok) == (0 <= self.oid_spec() < self.db_spec().len()
                && self.db_spec()[self.oid_spec()] is Blob
                && is_shadow_blob(self.db_spec()[self.oid_spec()]->Blob_0)),
            r matches Ok(sh) ==> (sh.wf() && self.db_spec()[self.oid_spec()]->Blob_0
                == crate::shadow::shadow_bytes_spec(sh@)),
            r matches Err(e) ==> e == if !(0 <= self.oid_spec() < self.db_spec().len()) {
                Error::ObjectNotFound
            } else if !(self.db_spec()[self.oid_spec()] is Blob) {
                Error::UnsupportedEntry
            } else {
                Error::MalformedShadow
            },
    {
        match self.db.read(self.oid) {
            Some(Object::Blob(content)) => Shadow::from_bytes(content),
            Some(Object::Tree(_)) => Err(Error::UnsupportedEntry),
            None => Err(Error::ObjectNotFound),
        }
    }
}

impl<'a> Visit<'a, VisitLink> {
    /// Reads this link's target text: it succeeds exactly when the address
    /// holds a blob whose body is valid UTF-8.
    pub fn read_link(&self) -> (r: Result<String, Error>)
        ensures
            (r is Ok) == (0 <= self.oid_spec() < self.db_spec().len()
                && self.db_spec()[self.oid_spec()] is Blob
                && valid_utf8(self.db_spec()[self.oid_spec()]->Blob_0)),
            r matches Ok(t) ==> t@ == vstd::utf8::decode_utf8(
                self.db_spec()[self.oid_spec()]->Blob_0,
            ),
            r matches Err(e) ==> e == if !(0 <= self.oid_spec() < self.db_spec().len()) {
                Error::ObjectNotFound
            } else if !(self.db_spec()[self.oid_spec()] is Blob) {
                Error::UnsupportedEntry
            } else {
                Error::InvalidTreeStructure
            },
    {
        match self.db.read(self.oid) {
            Some(Object::Blob(content)) => match bytes_to_string(content) {
                Some(t) => Ok(t),
                None => Err(Error::InvalidTreeStructure),
            },
            Some(Object::Tree(_)) => Err(Error::UnsupportedEntry),
            None => Err(Error::ObjectNotFound),
        }
    }
}

/// A traversal visitor: one hook per object kind.  `on_tree` may prune a
/// subtree by answering [`VisitTreeDecision::Skip`].  The hooks are
/// arbitrary code, so the engine promises a safe, terminating walk; the
/// library's own walks, [`check_tree`] and [`unique_blobs`], carry exact
/// contracts.
pub trait TraversalCallbacks: Sized {
    fn on_blob(&mut self, blob: &Visit<'_, VisitBlob>) -> Result<(), Error>;

    fn on_link(&mut self, link: &Visit<'_, VisitLink>) -> Result<(), Error>;

    fn on_tree(&mut self, tree: &Visit<'_, VisitTree>) -> Result<VisitTreeDecision, Error>;
}

/// The generic recursive walk over a content-addressed tree.
pub struct Traverser<'a, T> {
    db: &'a ObjectDb,
    callbacks: &'a mut T,
}

impl<'a, T: TraversalCallbacks> Traverser<'a, T> {
    pub closed spec fn db_wf(&self) -> bool {
        self.db.wf()
    }

    pub fn new(db: &'a ObjectDb, callbacks: &'a mut T) -> (r: Traverser<'a, T>)
        requires
            db.wf(),
        ensures
            r.db_wf(),
    {
        Traverser { db, callbacks }
    }

    pub fn traverse(&mut self, tree: Oid) -> (r: Result<(), Error>)
        requires
            old(self).db_wf(),
    {
        let mut path = BulkPath::new();
        visit_all(self.db, self.callbacks, &mut path, tree)
    }

    pub fn traverse_from(&mut self, path: &mut BulkPath, tree: Oid) -> (r: Result<(), Error>)
        requires
            old(self).db_wf(),
        ensures
            final(path)@ == old(path)@,
    {
        visit_all(self.db, self.callbacks, path, tree)
    }
}

/// Visits `tree` and, unless pruned, every entry under it: the first entry
/// must be the marker over the empty blob; the remaining entries are
/// visited in stored order, the active path pushed around each visit and
/// popped again, so the accumulator is restored on every exit, an early
/// return on failure included.
fn visit_all<T: TraversalCallbacks>(
    db: &ObjectDb,
    callbacks: &mut T,
    path: &mut BulkPath,
    tree: Oid,
) -> (r: Result<(), Error>)
    requires
        db.wf(),
    ensures
        final(path)@ == old(path)@,
    decreases tree.index,
{
    match callbacks.on_tree(&Visit { db, path, oid: tree, extra: VisitTree }) {
        Err(e) => {
            return Err(e);
        },
        Ok(VisitTreeDecision::Skip) => {
            return Ok(());
        },
        Ok(VisitTreeDecision::Descend) => {},
    }
    let entries = match db.read(tree) {
        None => {
            return Err(Error::ObjectNotFound);
        },
        Some(Object::Blob(_)) => {
            return Err(Error::InvalidTreeStructure);
        },
        Some(Object::Tree(es)) => es,
    };
    if entries.len() == 0 {
        return Err(Error::InvalidTreeStructure);
    }
    if !is_marker_entry(db, &entries[0]) {
        return Err(Error::InvalidTreeStructure);
    }
    let ghost path0 = path@;
    let mut k: usize = 1;
    while k < entries.len()
        invariant
            1 <= k <= entries@.len(),
            db.wf(),
            tree.index < db@.len(),
            db@[tree.index as int] is Tree,
            entries.deep_view() == db@[tree.index as int]->Tree_0,
            path@ == path0,
            path0 == old(path)@,
        decreases entries@.len() - k,
    {
        let e = &entries[k];
        proof {
            assert(e@ == entries.deep_view()[k as int]);
            assert(crate::objects::obj_refs_below(db@[tree.index as int], tree.index as int));
        }
        let name = match TreeEntryName::decode(e.name.as_str()) {
            Err(err) => {
                return Err(err);
            },
            Ok(TreeEntryName::Marker) => {
                return Err(Error::InvalidTreeStructure);
            },
            Ok(TreeEntryName::Child(c)) => c,
        };
        path.push(name);
        let step = match e.mode {
            FileMode::Link => {
                match callbacks.on_link(&Visit { db, path, oid: e.oid, extra: VisitLink }) {
                    Ok(()) => Ok(()),
                    Err(err) => Err(err),
                }
            },
            FileMode::Blob | FileMode::BlobExecutable => {
                let executable = matches!(e.mode, FileMode::BlobExecutable);
                match callbacks.on_blob(
                    &Visit { db, path, oid: e.oid, extra: VisitBlob { executable } },
                ) {
                    Ok(()) => Ok(()),
                    Err(err) => Err(err),
                }
            },
            FileMode::Tree => {
                proof {
                    assert(entries.deep_view()[k as int].oid < tree.index);
                }
                visit_all(db, callbacks, path, e.oid)
            },
        };
        // restore the accumulator before an error propagates, so it holds
        // on every exit
        path.pop();
        proof {
            assert(path@ =~= path0);
        }
        match step {
            Ok(()) => {},
            Err(err) => {
                return Err(err);
            },
        }
        k += 1;
    }
    Ok(())
}

/// The deduplication adapter: remembers every address already visited and
/// silences the inner visitor on repeats, answering `Skip` for a repeated
/// tree so the engine never descends into the same subtree twice.
pub struct OnUnique<T> {
    seen: SeenSet,
    callbacks: T,
}

impl<T> OnUnique<T> {
    pub fn new(callbacks: T) -> (r: OnUnique<T>) {
        OnUnique { seen: SeenSet::new(), callbacks }
    }

    /// Hands back the inner visitor.
    pub fn into_inner(self) -> (r: T) {
        self.callbacks
    }
}

impl<T: TraversalCallbacks> TraversalCallbacks for OnUnique<T> {
    fn on_blob(&mut self, blob: &Visit<'_, VisitBlob>) -> Result<(), Error> {
        if self.seen.contains(blob.oid().index) {
            Ok(())
        } else {
            self.seen.insert(blob.oid().index);
            self.callbacks.on_blob(blob)
        }
    }

    fn on_link(&mut self, link: &Visit<'_, VisitLink>) -> Result<(), Error> {
        if self.seen.contains(link.oid().index) {
            Ok(())
        } else {
            self.seen.insert(link.oid().index);
            self.callbacks.on_link(link)
        }
    }

    fn on_tree(&mut self, tree: &Visit<'_, VisitTree>) -> Result<VisitTreeDecision, Error> {
        if self.seen.contains(tree.oid().index) {
            Ok(VisitTreeDecision::Skip)
        } else {
            self.seen.insert(tree.oid().index);
            self.callbacks.on_tree(tree)
        }
    }
}

/// The plain (non-deduplicating) traversal's event sequence: the visited
/// paths and kinds in pre-order, a tree first, then its entries in stored
/// order.
pub open spec fn walk_events(db: Seq<ObjectV>, path: Seq<Seq<char>>, oid: int) -> Seq<
    (Seq<Seq<char>>, FileMode),
>
    decreases oid, 1int, 0int,
{
    seq![(path, FileMode::Tree)] + if 0 <= oid < db.len() && db[oid] is Tree {
        walk_entries_events(db, path, db[oid]->Tree_0, 1, oid)
    } else {
        Seq::empty()
    }
}

pub open spec fn walk_entries_events(
    db: Seq<ObjectV>,
    path: Seq<Seq<char>>,
    es: Seq<TreeEntryV>,
    k: int,
    parent: int,
) -> Seq<(Seq<Seq<char>>, FileMode)>
    decreases parent, 0int, es.len() - k,
{
    if k < 0 || k >= es.len() {
        Seq::empty()
    } else {
        let e = es[k];
        let child_path = path.push(decoded_child(e.name)->Ok_0);
        let head = match e.mode {
            FileMode::Tree => {
                if 0 <= e.oid < parent {
                    walk_events(db, child_path, e.oid)
                } else {
                    Seq::empty()
                }
            },
            m => seq![(child_path, m)],
        };
        head + walk_entries_events(db, path, es, k + 1, parent)
    }
}

/// Traversal events only read below an address, so they survive extension.
pub proof fn lemma_walk_events_monotone(
    db: Seq<ObjectV>,
    db2: Seq<ObjectV>,
    path: Seq<Seq<char>>,
    oid: int,
)
    requires
        crate::objects::db_extends(db, db2),
        0 <= oid < db.len(),
    ensures
        walk_events(db2, path, oid) == walk_events(db, path, oid),
    decreases oid, 1int, 0int,
{
    assert(db2[oid] == db[oid]);
    if db[oid] is Tree {
        lemma_walk_entries_events_monotone(db, db2, path, db[oid]->Tree_0, 1, oid);
    }
}

proof fn lemma_walk_entries_events_monotone(
    db: Seq<ObjectV>,
    db2: Seq<ObjectV>,
    path: Seq<Seq<char>>,
    es: Seq<TreeEntryV>,
    k: int,
    parent: int,
)
    requires
        crate::objects::db_extends(db, db2),
        0 <= parent <= db.len(),
    ensures
        walk_entries_events(db2, path, es, k, parent) == walk_entries_events(db, path, es, k, parent),
    decreases parent, 0int, es.len() - k,
{
    if k < 0 || k >= es.len() {
    } else {
        let e = es[k];
        let child_path = path.push(decoded_child(e.name)->Ok_0);
        if e.mode is Tree && 0 <= e.oid < parent {
            lemma_walk_events_monotone(db, db2, child_path, e.oid);
        }
        lemma_walk_entries_events_monotone(db, db2, path, es, k + 1, parent);
    }
}

/// The parent bound in the events walk only guards the recursion, so any
/// two bounds above every referenced address give the same events.
pub proof fn lemma_walk_entries_events_parent(
    db: Seq<ObjectV>,
    path: Seq<Seq<char>>,
    es: Seq<TreeEntryV>,
    k: int,
    p1: int,
    p2: int,
)
    requires
        forall|j: int| 0 <= j < es.len() ==> 0 <= (#[trigger] es[j]).oid < p1,
        forall|j: int| 0 <= j < es.len() ==> 0 <= (#[trigger] es[j]).oid < p2,
    ensures
        walk_entries_events(db, path, es, k, p1) == walk_entries_events(db, path, es, k, p2),
    decreases es.len() - k,
{
    if k < 0 || k >= es.len() {
    } else {
        lemma_walk_entries_events_parent(db, path, es, k + 1, p1, p2);
    }
}

} // verus!
