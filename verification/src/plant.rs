use vstd::prelude::*;

use crate::error::Error;
use crate::names::{encode_name, TreeEntryName, TreeEntryNameV};
use crate::objects::{
    db_extends, db_wf, obj_refs_below, FileMode, Object, ObjectDb, ObjectV, Oid, TreeEntry,
    TreeEntryV,
};
use crate::edit::{lemma_write_spec, write_spec};
use crate::paths::valid_components;
use crate::shadow::{shadow_bytes_spec, shadow_v_wf};
use crate::snapshot::{SnapshotEntry, SnapshotEntryV, SnapshotEntryValue, SnapshotEntryValueV};
use crate::traverse::{
    check_walk, check_walk_entries, decoded_child, entry_valid, marker_entry_ok, tree_valid,
};
use vstd::utf8::encode_utf8;

verus! {

/// Validity of a parsed entry sequence's values: every path is made of
/// valid components and every file shadow carries a well-formed digest.
/// The parser only ever produces such entries.
pub open spec fn entries_values_wf(entries: Seq<SnapshotEntryV>) -> bool {
    forall|k: int|
        0 <= k < entries.len() ==> {
            &&& valid_components((#[trigger] entries[k]).path)
            &&& (entries[k].value matches SnapshotEntryValueV::File { shadow, .. }
                ==> shadow_v_wf(shadow))
        }
}

/// The blob an entry value plants: the serialized shadow for a file, the
/// UTF-8 bytes of the target for a link.
pub open spec fn value_blob(v: SnapshotEntryValueV) -> Seq<u8> {
    match v {
        SnapshotEntryValueV::File { shadow, .. } => shadow_bytes_spec(shadow),
        SnapshotEntryValueV::Link { target } => encode_utf8(target),
        SnapshotEntryValueV::Tree => Seq::empty(),
    }
}

pub open spec fn value_mode(v: SnapshotEntryValueV) -> FileMode {
    match v {
        SnapshotEntryValueV::File { executable, .. } => if executable {
            FileMode::BlobExecutable
        } else {
            FileMode::Blob
        },
        SnapshotEntryValueV::Link { .. } => FileMode::Link,
        SnapshotEntryValueV::Tree => FileMode::Tree,
    }
}

/// Whether `child` is an immediate child path of `parent`.
pub open spec fn is_child_path(child: Seq<Seq<char>>, parent: Seq<Seq<char>>) -> bool {
    child.len() == parent.len() + 1 && child.drop_last() == parent
}

/// What planting one entry means: a file or link writes its blob; a
/// directory consumes the following entries while their paths are its
/// immediate children, planting each recursively (children's objects exist
/// before the parent tree is written), and finally writes its tree, marker
/// first.  Returns the new database, the planted `(mode, address)`, and the
/// index of the first unconsumed entry.
pub open spec fn plant_spec(
    db: Seq<ObjectV>,
    entries: Seq<SnapshotEntryV>,
    i: int,
    entry: SnapshotEntryV,
    eb: int,
) -> (Seq<ObjectV>, FileMode, int, int)
    decreases entries.len() - i, 1int,
{
    match entry.value {
        SnapshotEntryValueV::File { shadow, executable } => {
            let (db2, o) = write_spec(db, ObjectV::Blob(shadow_bytes_spec(shadow)));
            (db2, value_mode(entry.value), o, i)
        },
        SnapshotEntryValueV::Link { target } => {
            let (db2, o) = write_spec(db, ObjectV::Blob(encode_utf8(target)));
            (db2, FileMode::Link, o, i)
        },
        SnapshotEntryValueV::Tree => {
            let acc = seq![
                TreeEntryV { name: crate::names::marker_name(), mode: FileMode::Blob, oid: eb },
            ];
            let (db1, es, i2) = plant_children(db, entries, i, entry.path, acc, eb);
            let (db2, o) = write_spec(db1, ObjectV::Tree(es));
            (db2, FileMode::Tree, o, i2)
        },
    }
}

pub open spec fn plant_children(
    db: Seq<ObjectV>,
    entries: Seq<SnapshotEntryV>,
    i: int,
    parent: Seq<Seq<char>>,
    acc: Seq<TreeEntryV>,
    eb: int,
) -> (Seq<ObjectV>, Seq<TreeEntryV>, int)
    decreases entries.len() - i, 0int,
{
    if i < 0 || i >= entries.len() || !is_child_path(entries[i].path, parent) {
        (db, acc, i)
    } else {
        let child = entries[i];
        let (db1, cmode, coid, i2) = plant_spec(db, entries, i + 1, child, eb);
        let name = encode_name(TreeEntryNameV::Child(child.path.last()));
        let acc2 = acc.push(TreeEntryV { name, mode: cmode, oid: coid });
        if i + 1 <= i2 <= entries.len() {
            plant_children(db1, entries, i2, parent, acc2, eb)
        } else {
            (db1, acc2, i2)
        }
    }
}

/// What planting a whole snapshot means: the first entry must be the root,
/// and planting it must consume the entire sequence.
pub open spec fn plant_snapshot_spec(db: Seq<ObjectV>, entries: Seq<SnapshotEntryV>) -> (
    Seq<ObjectV>,
    Result<(FileMode, int), Error>,
) {
    if entries.len() == 0 || entries[0].path.len() != 0 {
        (db, Err(Error::InvalidEntrySequence))
    } else {
        let (db0, eb) = write_spec(db, ObjectV::Blob(Seq::empty()));
        let (db2, mode, o, i2) = plant_spec(db0, entries, 1, entries[0], eb);
        if i2 != entries.len() {
            (db2, Err(Error::InvalidEntrySequence))
        } else {
            (db2, Ok((mode, o)))
        }
    }
}

/// Like [`entry_valid`], but bounded by the database length instead of a
/// parent address: what holds of a planted child before its parent exists.
pub open spec fn entry_semivalid(db: Seq<ObjectV>, e: TreeEntryV) -> bool {
    &&& decoded_child(e.name) is Ok
    &&& 0 <= e.oid < db.len()
    &&& match e.mode {
        FileMode::Blob | FileMode::BlobExecutable => {
            &&& db[e.oid] is Blob
            &&& crate::shadow::is_shadow_blob(db[e.oid]->Blob_0)
        },
        FileMode::Link => {
            &&& db[e.oid] is Blob
            &&& vstd::utf8::valid_utf8(db[e.oid]->Blob_0)
        },
        FileMode::Tree => tree_valid(db, e.oid),
    }
}

/// Tree validity only looks below an address, so it survives extension.
pub proof fn lemma_tree_valid_monotone(db: Seq<ObjectV>, db2: Seq<ObjectV>, oid: int)
    requires
        tree_valid(db, oid),
        db_extends(db, db2),
    ensures
        tree_valid(db2, oid),
    decreases oid, 1int, 0int,
{
    let es = db[oid]->Tree_0;
    assert(db2[oid] == db[oid]);
    assert(db2[es[0].oid] == db[es[0].oid]);
    assert forall|k: int| 1 <= k < es.len() implies entry_valid(db2, #[trigger] es[k], oid) by {
        assert(entry_valid(db, es[k], oid));
        lemma_entry_valid_monotone(db, db2, es[k], oid);
    }
}

proof fn lemma_entry_valid_monotone(db: Seq<ObjectV>, db2: Seq<ObjectV>, e: TreeEntryV, parent: int)
    requires
        entry_valid(db, e, parent),
        db_extends(db, db2),
        0 <= parent <= db.len(),
    ensures
        entry_valid(db2, e, parent),
    decreases parent, 0int, 0int,
{
    assert(db2[e.oid] == db[e.oid]);
    if e.mode is Tree {
        lemma_tree_valid_monotone(db, db2, e.oid);
    }
}

proof fn lemma_entry_semivalid_monotone(db: Seq<ObjectV>, db2: Seq<ObjectV>, e: TreeEntryV)
    requires
        entry_semivalid(db, e),
        db_extends(db, db2),
    ensures
        entry_semivalid(db2, e),
{
    assert(db2[e.oid] == db[e.oid]);
    if e.mode is Tree {
        lemma_tree_valid_monotone(db, db2, e.oid);
    }
}

/// What a successful plant guarantees: a well-formed extended database, at
/// most the whole input consumed, and a fully valid planted object — for a
/// directory, a valid shadow tree.
pub proof fn lemma_plant_valid(
    db: Seq<ObjectV>,
    entries: Seq<SnapshotEntryV>,
    i: int,
    entry: SnapshotEntryV,
    eb: int,
)
    requires
        db_wf(db),
        entries_values_wf(entries),
        valid_components(entry.path),
        entry.value matches SnapshotEntryValueV::File { shadow, .. } ==> shadow_v_wf(shadow),
        0 <= eb < db.len(),
        db[eb] == ObjectV::Blob(Seq::<u8>::empty()),
        0 <= i <= entries.len(),
    ensures
        ({
            let (db2, mode, o, i2) = plant_spec(db, entries, i, entry, eb);
            &&& db_wf(db2)
            &&& db_extends(db, db2)
            &&& i <= i2 <= entries.len()
            &&& 0 <= o < db2.len()
            &&& mode == value_mode(entry.value)
            &&& (entry.value is Tree ==> tree_valid(db2, o))
            &&& (!(entry.value is Tree) ==> db2[o] == ObjectV::Blob(value_blob(entry.value)))
        }),
    decreases entries.len() - i, 1int,
{
    match entry.value {
        SnapshotEntryValueV::File { shadow, executable } => {
            lemma_write_spec(db, ObjectV::Blob(shadow_bytes_spec(shadow)));
        },
        SnapshotEntryValueV::Link { target } => {
            lemma_write_spec(db, ObjectV::Blob(encode_utf8(target)));
        },
        SnapshotEntryValueV::Tree => {
            let acc = seq![
                TreeEntryV { name: crate::names::marker_name(), mode: FileMode::Blob, oid: eb },
            ];
            lemma_plant_children_valid(db, entries, i, entry.path, acc, eb);
            let (db1, es, i2) = plant_children(db, entries, i, entry.path, acc, eb);
            assert(obj_refs_below(ObjectV::Tree(es), db1.len() as int));
            lemma_write_spec(db1, ObjectV::Tree(es));
            let (db2, o) = write_spec(db1, ObjectV::Tree(es));
            // the written tree is a valid shadow tree at its address
            assert(es[0].name == crate::names::marker_name());
            assert(db2[es[0].oid] == ObjectV::Blob(Seq::<u8>::empty()));
            assert(marker_entry_ok(db2, es));
            assert forall|k: int| 1 <= k < es.len() implies entry_valid(
                db2,
                #[trigger] es[k],
                o,
            ) by {
                assert(entry_semivalid(db1, es[k]));
                lemma_entry_semivalid_monotone(db1, db2, es[k]);
                assert(obj_refs_below(db2[o], o));
                assert(es[k].oid < o);
                if es[k].mode is Tree {
                    assert(tree_valid(db2, es[k].oid));
                }
            }
            assert(tree_valid(db2, o));
        },
    }
}

proof fn lemma_plant_children_valid(
    db: Seq<ObjectV>,
    entries: Seq<SnapshotEntryV>,
    i: int,
    parent: Seq<Seq<char>>,
    acc: Seq<TreeEntryV>,
    eb: int,
)
    requires
        db_wf(db),
        entries_values_wf(entries),
        0 <= eb < db.len(),
        db[eb] == ObjectV::Blob(Seq::<u8>::empty()),
        0 <= i <= entries.len(),
        acc.len() >= 1,
        acc[0] == (TreeEntryV { name: crate::names::marker_name(), mode: FileMode::Blob, oid: eb }),
        forall|k: int| 1 <= k < acc.len() ==> entry_semivalid(db, #[trigger] acc[k]),
    ensures
        ({
            let (db1, es, i2) = plant_children(db, entries, i, parent, acc, eb);
            &&& db_wf(db1)
            &&& db_extends(db, db1)
            &&& i <= i2 <= entries.len()
            &&& es.len() >= acc.len()
            &&& (forall|k: int| 0 <= k < acc.len() ==> es[k] == #[trigger] acc[k])
            &&& es[0] == (TreeEntryV {
                name: crate::names::marker_name(),
                mode: FileMode::Blob,
                oid: eb,
            })
            &&& db1[eb] == ObjectV::Blob(Seq::<u8>::empty())
            &&& forall|k: int| 1 <= k < es.len() ==> entry_semivalid(db1, #[trigger] es[k])
        }),
    decreases entries.len() - i, 0int,
{
    if i < 0 || i >= entries.len() || !is_child_path(entries[i].path, parent) {
    } else {
        let child = entries[i];
        assert(valid_components(child.path));
        lemma_plant_valid(db, entries, i + 1, child, eb);
        let (db1, cmode, coid, i2) = plant_spec(db, entries, i + 1, child, eb);
        let name = encode_name(TreeEntryNameV::Child(child.path.last()));
        let e2 = TreeEntryV { name, mode: cmode, oid: coid };
        // the child's final component is a valid, marker-free entry name
        assert(crate::paths::valid_component(child.path.last())) by {
            assert(child.path.len() >= 1);
            assert(child.path[child.path.len() - 1] == child.path.last());
        }
        crate::names::lemma_name_roundtrip(child.path.last());
        assert(decoded_child(name) is Ok);
        assert(entry_semivalid(db1, e2)) by {
            if !(child.value is Tree) {
                assert(db1[coid] == ObjectV::Blob(value_blob(child.value)));
                match child.value {
                    SnapshotEntryValueV::File { shadow, .. } => {
                        assert(shadow_v_wf(shadow));
                        assert(crate::shadow::is_shadow_blob(shadow_bytes_spec(shadow)));
                    },
                    SnapshotEntryValueV::Link { target } => {
                        vstd::utf8::encode_utf8_valid_utf8(target);
                    },
                    _ => {},
                }
            }
        }
        let acc2 = acc.push(e2);
        assert forall|k: int| 1 <= k < acc2.len() implies entry_semivalid(
            db1,
            #[trigger] acc2[k],
        ) by {
            if k < acc.len() {
                lemma_entry_semivalid_monotone(db, db1, acc[k]);
            }
        }
        if i + 1 <= i2 <= entries.len() {
            lemma_plant_children_valid(db1, entries, i2, parent, acc2, eb);
            crate::objects::lemma_db_extends_trans(
                db,
                db1,
                plant_children(db1, entries, i2, parent, acc2, eb).0,
            );
            let es_final = plant_children(db1, entries, i2, parent, acc2, eb).1;
            assert forall|k: int| 0 <= k < acc.len() implies es_final[k] == #[trigger] acc[k] by {
                assert(es_final[k] == acc2[k]);
            }
        }
    }
}

/// A fully valid shadow tree passes `check` from any starting set of
/// already-visited addresses.
pub proof fn lemma_tree_valid_check_ok(db: Seq<ObjectV>, oid: int, seen: Set<int>)
    requires
        tree_valid(db, oid),
    ensures
        check_walk(db, oid, seen) is Ok,
    decreases oid, 1int, 0int,
{
    if !seen.contains(oid) {
        let es = db[oid]->Tree_0;
        lemma_tree_valid_entries_check_ok(db, es, 1, oid, seen.insert(oid));
    }
}

proof fn lemma_tree_valid_entries_check_ok(
    db: Seq<ObjectV>,
    es: Seq<TreeEntryV>,
    k: int,
    parent: int,
    seen: Set<int>,
)
    requires
        forall|j: int| 1 <= j < es.len() ==> entry_valid(db, #[trigger] es[j], parent),
        1 <= k,
        0 <= parent <= db.len(),
    ensures
        check_walk_entries(db, es, k, parent, seen) is Ok,
    decreases parent, 0int, es.len() - k,
{
    if k >= es.len() {
    } else {
        let e = es[k];
        assert(entry_valid(db, e, parent));
        match e.mode {
            FileMode::Blob | FileMode::BlobExecutable => {
                if seen.contains(e.oid) {
                    lemma_tree_valid_entries_check_ok(db, es, k + 1, parent, seen);
                } else {
                    lemma_tree_valid_entries_check_ok(db, es, k + 1, parent, seen.insert(e.oid));
                }
            },
            FileMode::Link => {
                if seen.contains(e.oid) {
                    lemma_tree_valid_entries_check_ok(db, es, k + 1, parent, seen);
                } else {
                    lemma_tree_valid_entries_check_ok(db, es, k + 1, parent, seen.insert(e.oid));
                }
            },
            FileMode::Tree => {
                lemma_tree_valid_check_ok(db, e.oid, seen);
                let seen2 = check_walk(db, e.oid, seen)->Ok_0;
                lemma_tree_valid_entries_check_ok(db, es, k + 1, parent, seen2);
            },
        }
    }
}

/// Plant/traverse consistency: planting a well-formed entry sequence
/// yields a tree that `check` accepts — the planted store is structurally
/// valid, every blob is a shadow record, every link is text — and whose
/// plain traversal yields exactly the input sequence's paths and kinds, in
/// order.
pub proof fn lemma_plant_then_check(db: Seq<ObjectV>, entries: Seq<SnapshotEntryV>)
    requires
        db_wf(db),
        entries_values_wf(entries),
        plant_snapshot_spec(db, entries).1 matches Ok((m, o)) && m is Tree,
    ensures
        ({
            let (db2, rec) = plant_snapshot_spec(db, entries);
            &&& db_wf(db2)
            &&& db_extends(db, db2)
            &&& tree_valid(db2, rec->Ok_0.1)
            &&& check_walk(db2, rec->Ok_0.1, Set::empty()) is Ok
            &&& crate::traverse::walk_events(db2, Seq::empty(), rec->Ok_0.1)
                == entries.map_values(|e: SnapshotEntryV| entry_event(e))
        }),
{
    let (db0, eb) = write_spec(db, ObjectV::Blob(Seq::empty()));
    lemma_write_spec(db, ObjectV::Blob(Seq::empty()));
    lemma_plant_valid(db0, entries, 1, entries[0], eb);
    let (db2, mode, o, i2) = plant_spec(db0, entries, 1, entries[0], eb);
    assert(entries[0].value is Tree) by {
        if !(entries[0].value is Tree) {
            assert(mode == value_mode(entries[0].value));
        }
    }
    lemma_tree_valid_check_ok(db2, o, Set::empty());
    crate::objects::lemma_db_extends_trans(db, db0, db2);
    lemma_plant_events(db0, entries, 1, entries[0], eb);
    assert(entries[0].path =~= Seq::<Seq<char>>::empty());
    assert(crate::traverse::walk_events(db2, Seq::empty(), o) == seq![
        (entries[0].path, FileMode::Tree),
    ] + entries_events_of(entries, 1, entries.len() as int));
    assert(seq![(entries[0].path, FileMode::Tree)] + entries_events_of(
        entries,
        1,
        entries.len() as int,
    ) =~= entries.map_values(|e: SnapshotEntryV| entry_event(e))) by {
        assert(entry_event(entries[0]) == (entries[0].path, FileMode::Tree));
        assert forall|a: int| 0 <= a < entries.len() implies entries.map_values(
            |e: SnapshotEntryV| entry_event(e),
        )[a] == (seq![(entries[0].path, FileMode::Tree)] + entries_events_of(
            entries,
            1,
            entries.len() as int,
        ))[a] by {
            if a > 0 {
                assert(entries_events_of(entries, 1, entries.len() as int)[a - 1]
                    == entry_event(entries[a]));
            }
        }
    }
}

fn entry_for(db: &mut ObjectDb, value: &SnapshotEntryValue) -> (r: (FileMode, Oid))
    requires
        old(db).wf(),
        !(value@ is Tree),
    ensures
        final(db).wf(),
        db_extends(old(db)@, final(db)@),
        r.1.index < final(db)@.len(),
        ({
            let (db2, o) = write_spec(old(db)@, ObjectV::Blob(value_blob(value@)));
            &&& final(db)@ == db2
            &&& r.1.index == o
            &&& r.0 == value_mode(value@)
        }),
{
    match value {
        SnapshotEntryValue::File { shadow, executable } => {
            let bytes = shadow.to_bytes();
            let mode = if *executable {
                FileMode::BlobExecutable
            } else {
                FileMode::Blob
            };
            let ghost pre = db@;
            let o = db.write(Object::Blob(bytes));
            proof {
                lemma_write_spec(pre, ObjectV::Blob(value_blob(value@)));
                if exists|x: int| 0 <= x < pre.len() && pre[x] == ObjectV::Blob(
                    value_blob(value@),
                ) {
                    crate::objects::ObjectDb::lemma_address_unique(
                        db@,
                        o.index as int,
                        write_spec(pre, ObjectV::Blob(value_blob(value@))).1,
                    );
                }
            }
            (mode, o)
        },
        SnapshotEntryValue::Link { target } => {
            let bytes = target.as_str().as_bytes_vec();
            let ghost pre = db@;
            let o = db.write(Object::Blob(bytes));
            proof {
                lemma_write_spec(pre, ObjectV::Blob(value_blob(value@)));
                if exists|x: int| 0 <= x < pre.len() && pre[x] == ObjectV::Blob(
                    value_blob(value@),
                ) {
                    crate::objects::ObjectDb::lemma_address_unique(
                        db@,
                        o.index as int,
                        write_spec(pre, ObjectV::Blob(value_blob(value@))).1,
                    );
                }
            }
            (FileMode::Link, o)
        },
        SnapshotEntryValue::Tree => {
            // ruled out by the precondition: planting a directory goes
            // through the recursive planter
            proof {
                assert(false);
            }
            (FileMode::Tree, Oid { index: 0 })
        },
    }
}

#[verifier::rlimit(100)]
#[verifier::loop_isolation(false)]
fn plant_inner(
    db: &mut ObjectDb,
    entries: &Vec<SnapshotEntry>,
    i: usize,
    entry: &SnapshotEntry,
    eb: Oid,
) -> (r: ((FileMode, Oid), usize))
    requires
        old(db).wf(),
        i <= entries@.len(),
        eb.index < old(db)@.len(),
    ensures
        final(db).wf(),
        db_extends(old(db)@, final(db)@),
        r.0.1.index < final(db)@.len(),
        ({
            let (db2, mode, o, i2) = plant_spec(
                old(db)@,
                entries.deep_view(),
                i as int,
                entry@,
                eb.index as int,
            );
            &&& final(db)@ == db2
            &&& r.0.0 == mode
            &&& r.0.1.index == o
            &&& r.1 == i2
            &&& i <= r.1 <= entries@.len()
        }),
    decreases entries@.len() - i, 1int,
{
    let ghost ev = entries.deep_view();
    match &entry.value {
        SnapshotEntryValue::Tree => {
            let ghost pre = db@;
            let mut acc: Vec<TreeEntry> = Vec::new();
            acc.push(TreeEntry {
                name: TreeEntryName::Marker.encode(),
                mode: FileMode::Blob,
                oid: eb,
            });
            let mut j = i;
            proof {
                assert(acc.deep_view() =~= seq![
                    TreeEntryV {
                        name: crate::names::marker_name(),
                        mode: FileMode::Blob,
                        oid: eb.index as int,
                    },
                ]);
            }
            let ghost acc0 = acc.deep_view();
            while j < entries.len() && entries[j].path.is_child_of(&entry.path)
                invariant
                    i <= j <= entries@.len(),
                    db.wf(),
                    db_extends(pre, db@),
                    forall|k: int|
                        0 <= k < acc.deep_view().len() ==> (#[trigger] acc.deep_view()[k]).oid
                            < db@.len(),
                    plant_children(pre, ev, i as int, entry@.path, acc0, eb.index as int)
                        == plant_children(
                        db@,
                        ev,
                        j as int,
                        entry@.path,
                        acc.deep_view(),
                        eb.index as int,
                    ),
                decreases entries@.len() - j,
            {
                let child = &entries[j];
                proof {
                    assert(child@ == ev[j as int]);
                    assert(is_child_path(ev[j as int].path, entry@.path));
                }
                let ghost db_at = db@;
                let ghost acc_at = acc.deep_view();
                let ((cmode, coid), j2) = plant_inner(db, entries, j + 1, child, eb);
                let name = TreeEntryName::Child(child.path.last().clone()).encode();
                acc.push(TreeEntry { name, mode: cmode, oid: coid });
                proof {
                    assert(name@ == encode_name(TreeEntryNameV::Child(ev[j as int].path.last())));
                    assert(acc.deep_view() =~= acc_at.push(
                        TreeEntryV { name: name@, mode: cmode, oid: coid.index as int },
                    ));
                    assert forall|k: int|
                        0 <= k < acc.deep_view().len() implies (#[trigger] acc.deep_view()[k]).oid
                        < db@.len() by {
                        if k < acc_at.len() {
                            assert(acc_at[k].oid < db_at.len());
                        }
                    }
                }
                j = j2;
            }
            proof {
                if j < entries@.len() {
                    assert(!is_child_path(ev[j as int].path, entry@.path));
                }
                assert(plant_children(
                    db@,
                    ev,
                    j as int,
                    entry@.path,
                    acc.deep_view(),
                    eb.index as int,
                ) == (db@, acc.deep_view(), j as int));
            }
            let ghost db1 = db@;
            let ghost es = acc.deep_view();
            proof {
                assert(obj_refs_below(ObjectV::Tree(es), db1.len() as int));
            }
            let t = db.write(Object::Tree(acc));
            proof {
                lemma_write_spec(db1, ObjectV::Tree(es));
                if exists|x: int| 0 <= x < db1.len() && db1[x] == ObjectV::Tree(es) {
                    crate::objects::ObjectDb::lemma_address_unique(
                        db@,
                        t.index as int,
                        write_spec(db1, ObjectV::Tree(es)).1,
                    );
                }
                crate::objects::lemma_db_extends_trans(pre, db1, db@);
            }
            ((FileMode::Tree, t), j)
        },
        value => {
            let mo = entry_for(db, value);
            (mo, i)
        },
    }
}

/// Plants a whole snapshot entry sequence, bottom-up, returning the mode
/// and address of the planted root.  The first entry must be the root and
/// planting must consume the entire sequence; otherwise the sequence
/// violates the pre-order layout and is rejected.
pub fn plant_snapshot(db: &mut ObjectDb, entries: &Vec<SnapshotEntry>) -> (r: Result<
    (FileMode, Oid),
    Error,
>)
    requires
        old(db).wf(),
    ensures
        final(db).wf(),
        ({
            let (db2, rec) = plant_snapshot_spec(old(db)@, entries.deep_view());
            &&& final(db)@ == db2
            &&& match rec {
                Ok((m, o)) => r matches Ok(x) && x.0 == m && x.1.index == o,
                Err(e) => r == Err::<(FileMode, Oid), Error>(e),
            }
        }),
{
    if entries.len() == 0 {
        return Err(Error::InvalidEntrySequence);
    }
    let first = &entries[0];
    if first.path.components().len() != 0 {
        proof {
            assert(entries.deep_view()[0].path.len() != 0);
        }
        return Err(Error::InvalidEntrySequence);
    }
    proof {
        assert(entries.deep_view()[0].path.len() == 0);
    }
    let ghost pre = db@;
    let empty: Vec<u8> = Vec::new();
    proof {
        assert(empty@ =~= Seq::<u8>::empty());
    }
    let eb = db.write(Object::Blob(empty));
    proof {
        lemma_write_spec(pre, ObjectV::Blob(Seq::empty()));
        if exists|x: int| 0 <= x < pre.len() && pre[x] == ObjectV::Blob(Seq::<u8>::empty()) {
            crate::objects::ObjectDb::lemma_address_unique(
                db@,
                eb.index as int,
                write_spec(pre, ObjectV::Blob(Seq::empty())).1,
            );
        }
    }
    let ((mode, o), i2) = plant_inner(db, entries, 1, first, eb);
    if i2 != entries.len() {
        return Err(Error::InvalidEntrySequence);
    }
    Ok((mode, o))
}

/// The event of one snapshot entry: its path and the kind it plants.
pub open spec fn entry_event(e: SnapshotEntryV) -> (Seq<Seq<char>>, FileMode) {
    (e.path, value_mode(e.value))
}

pub open spec fn entries_events_of(entries: Seq<SnapshotEntryV>, i: int, i2: int) -> Seq<
    (Seq<Seq<char>>, FileMode),
> {
    entries.subrange(i, i2).map_values(|e: SnapshotEntryV| entry_event(e))
}

/// Plant/traverse consistency, the event half: traversing a planted
/// directory yields exactly the paths and kinds of the consumed entry
/// slice, in order.
pub proof fn lemma_plant_events(
    db: Seq<ObjectV>,
    entries: Seq<SnapshotEntryV>,
    i: int,
    entry: SnapshotEntryV,
    eb: int,
)
    requires
        db_wf(db),
        entries_values_wf(entries),
        valid_components(entry.path),
        entry.value is Tree,
        0 <= eb < db.len(),
        db[eb] == ObjectV::Blob(Seq::<u8>::empty()),
        0 <= i <= entries.len(),
    ensures
        ({
            let (db2, mode, o, i2) = plant_spec(db, entries, i, entry, eb);
            crate::traverse::walk_events(db2, entry.path, o) == seq![
                (entry.path, FileMode::Tree),
            ] + entries_events_of(entries, i, i2)
        }),
    decreases entries.len() - i, 1int,
{
    let acc = seq![
        TreeEntryV { name: crate::names::marker_name(), mode: FileMode::Blob, oid: eb },
    ];
    lemma_plant_children_valid(db, entries, i, entry.path, acc, eb);
    lemma_plant_children_events(db, entries, i, entry.path, acc, eb);
    let (db1, es, i2) = plant_children(db, entries, i, entry.path, acc, eb);
    lemma_write_spec(db1, ObjectV::Tree(es));
    let (db2, o) = write_spec(db1, ObjectV::Tree(es));
    assert(db2[o] == ObjectV::Tree(es));
    // the freshly planted entries all reference addresses below the tree's
    // own, whether the tree is new or already present
    assert(forall|j: int| 0 <= j < es.len() ==> 0 <= (#[trigger] es[j]).oid < db1.len()) by {
        assert(forall|j: int| 1 <= j < es.len() ==> entry_semivalid(db1, #[trigger] es[j]));
        assert(es[0].oid == eb && 0 <= eb < db.len());
    }
    assert(forall|j: int| 0 <= j < es.len() ==> 0 <= (#[trigger] es[j]).oid < o) by {
        assert(obj_refs_below(db2[o], o));
    }
    lemma_walk_entries_events_monotone_bridge(db1, db2, entry.path, es, o);
    assert(crate::traverse::walk_events(db2, entry.path, o) == seq![
        (entry.path, FileMode::Tree),
    ] + crate::traverse::walk_entries_events(db2, entry.path, es, 1, o));
    assert(crate::traverse::walk_entries_events(db1, entry.path, es, 1, db1.len() as int)
        == entries_events_of(entries, i, i2));
}

/// Bridges the events of a written tree's entry list from the database
/// before the write, with the length bound, to the database after, with
/// the tree's own address as bound.
proof fn lemma_walk_entries_events_monotone_bridge(
    db1: Seq<ObjectV>,
    db2: Seq<ObjectV>,
    path: Seq<Seq<char>>,
    es: Seq<TreeEntryV>,
    o: int,
)
    requires
        crate::objects::db_extends(db1, db2),
        forall|j: int| 0 <= j < es.len() ==> 0 <= (#[trigger] es[j]).oid < db1.len(),
        forall|j: int| 0 <= j < es.len() ==> 0 <= (#[trigger] es[j]).oid < o,
    ensures
        crate::traverse::walk_entries_events(db2, path, es, 1, o)
            == crate::traverse::walk_entries_events(db1, path, es, 1, db1.len() as int),
{
    crate::traverse::lemma_walk_entries_events_parent(db2, path, es, 1, o, db1.len() as int);
    lemma_walk_entries_events_monotone_all(db1, db2, path, es, 1);
}

proof fn lemma_walk_entries_events_monotone_all(
    db1: Seq<ObjectV>,
    db2: Seq<ObjectV>,
    path: Seq<Seq<char>>,
    es: Seq<TreeEntryV>,
    k: int,
)
    requires
        crate::objects::db_extends(db1, db2),
        forall|j: int| 0 <= j < es.len() ==> 0 <= (#[trigger] es[j]).oid < db1.len(),
    ensures
        crate::traverse::walk_entries_events(db2, path, es, k, db1.len() as int)
            == crate::traverse::walk_entries_events(db1, path, es, k, db1.len() as int),
    decreases es.len() - k,
{
    if k < 0 || k >= es.len() {
    } else {
        let e = es[k];
        let child_path = path.push(crate::traverse::decoded_child(e.name)->Ok_0);
        if e.mode is Tree && 0 <= e.oid < db1.len() {
            crate::traverse::lemma_walk_events_monotone(db1, db2, child_path, e.oid);
        }
        lemma_walk_entries_events_monotone_all(db1, db2, path, es, k + 1);
    }
}

proof fn lemma_plant_children_events(
    db: Seq<ObjectV>,
    entries: Seq<SnapshotEntryV>,
    i: int,
    parent: Seq<Seq<char>>,
    acc: Seq<TreeEntryV>,
    eb: int,
)
    requires
        db_wf(db),
        entries_values_wf(entries),
        0 <= eb < db.len(),
        db[eb] == ObjectV::Blob(Seq::<u8>::empty()),
        0 <= i <= entries.len(),
        acc.len() >= 1,
        acc[0] == (TreeEntryV { name: crate::names::marker_name(), mode: FileMode::Blob, oid: eb }),
        forall|k: int| 1 <= k < acc.len() ==> entry_semivalid(db, #[trigger] acc[k]),
    ensures
        ({
            let (db1, es, i2) = plant_children(db, entries, i, parent, acc, eb);
            crate::traverse::walk_entries_events(db1, parent, es, acc.len() as int,
                db1.len() as int) == entries_events_of(entries, i, i2)
        }),
    decreases entries.len() - i, 0int,
{
    lemma_plant_children_valid(db, entries, i, parent, acc, eb);
    let (db1, es, i2) = plant_children(db, entries, i, parent, acc, eb);
    if i < 0 || i >= entries.len() || !is_child_path(entries[i].path, parent) {
        assert(es == acc);
        assert(entries_events_of(entries, i, i) =~= Seq::<(Seq<Seq<char>>, FileMode)>::empty());
    } else {
        let child = entries[i];
        lemma_plant_valid(db, entries, i + 1, child, eb);
        let (dba, cmode, coid, ia) = plant_spec(db, entries, i + 1, child, eb);
        let name = encode_name(TreeEntryNameV::Child(child.path.last()));
        let e2 = TreeEntryV { name, mode: cmode, oid: coid };
        let acc2 = acc.push(e2);
        crate::names::lemma_name_roundtrip(child.path.last());
        assert(crate::traverse::decoded_child(name) is Ok) by {
            assert(valid_components(child.path));
            assert(child.path[child.path.len() - 1] == child.path.last());
            assert(crate::paths::valid_component(child.path.last()));
        }
        assert(crate::traverse::decoded_child(name)->Ok_0 == child.path.last());
        assert(parent.push(child.path.last()) =~= child.path) by {
            assert(child.path.drop_last() == parent);
        }
        assert(entry_semivalid(dba, e2)) by {
            if !(child.value is Tree) {
                assert(dba[coid] == ObjectV::Blob(value_blob(child.value)));
                match child.value {
                    SnapshotEntryValueV::File { shadow, .. } => {
                        assert(shadow_v_wf(shadow));
                        assert(crate::shadow::is_shadow_blob(shadow_bytes_spec(shadow)));
                    },
                    SnapshotEntryValueV::Link { target } => {
                        vstd::utf8::encode_utf8_valid_utf8(target);
                    },
                    _ => {},
                }
            }
        }
        assert forall|k: int| 1 <= k < acc2.len() implies entry_semivalid(
            dba,
            #[trigger] acc2[k],
        ) by {
            if k < acc.len() {
                lemma_entry_semivalid_monotone(db, dba, acc[k]);
            }
        }
        lemma_plant_children_valid(dba, entries, ia, parent, acc2, eb);
        lemma_plant_children_events(dba, entries, ia, parent, acc2, eb);
        assert(plant_children(db, entries, i, parent, acc, eb) == plant_children(
            dba,
            entries,
            ia,
            parent,
            acc2,
            eb,
        ));
        // the new child's slot in the final entry list
        assert(es[acc.len() as int] == e2) by {
            assert(es[acc.len() as int] == acc2[acc.len() as int]);
        }
        let lhs = crate::traverse::walk_entries_events(db1, parent, es, acc.len() as int,
            db1.len() as int);
        let tail = crate::traverse::walk_entries_events(db1, parent, es, acc.len() as int + 1,
            db1.len() as int);
        assert(tail == entries_events_of(entries, ia, i2));
        let head: Seq<(Seq<Seq<char>>, FileMode)> = match cmode {
            FileMode::Tree => {
                // a planted directory: its events are its consumed slice
                lemma_plant_events(db, entries, i + 1, child, eb);
                assert(crate::traverse::walk_events(dba, child.path, coid) == seq![
                    (child.path, FileMode::Tree),
                ] + entries_events_of(entries, i + 1, ia));
                assert(crate::objects::db_extends(dba, db1));
                crate::traverse::lemma_walk_events_monotone(dba, db1, child.path, coid);
                assert(0 <= coid < db1.len());
                crate::traverse::walk_events(db1, child.path, coid)
            },
            m => {
                assert(ia == i + 1);
                assert(entries_events_of(entries, i + 1, ia) =~= Seq::<
                    (Seq<Seq<char>>, FileMode),
                >::empty());
                seq![(child.path, m)]
            },
        };
        assert(head == seq![entry_event(child)] + entries_events_of(entries, i + 1, ia)) by {
            if !(cmode is Tree) {
                assert(cmode == value_mode(child.value));
                assert(head =~= seq![entry_event(child)] + entries_events_of(
                    entries,
                    i + 1,
                    ia,
                ));
            }
        }
        assert(lhs == head + tail);
        assert(lhs =~= entries_events_of(entries, i, i2)) by {
            assert(i < ia <= i2 <= entries.len());
            assert forall|a: int| 0 <= a < i2 - i implies entries_events_of(entries, i, i2)[a]
                == lhs[a] by {
                assert(entries_events_of(entries, i, i2)[a] == entry_event(entries[i + a]));
                if a == 0 {
                } else if a < ia - i {
                    assert(head[a] == entries_events_of(entries, i + 1, ia)[a - 1]);
                } else {
                    assert(tail[a - (ia - i)] == entries_events_of(entries, ia, i2)[a - (ia
                        - i)]);
                }
            }
        }
    }
}


} // verus!
