use vstd::prelude::*;

use crate::error::Error;
use crate::names::{encode_name, marker_name, TreeEntryName, TreeEntryNameV};
use crate::objects::{
    db_extends, db_wf, obj_refs_below, FileMode, Object, ObjectDb, ObjectV, Oid, TreeEntry,
    TreeEntryV,
};
use crate::paths::{string_eq, ShadowPath};

verus! {

/// Index of the first entry with the given (encoded) name, or -1.
pub open spec fn find_entry(es: Seq<TreeEntryV>, name: Seq<char>) -> int
    decreases es.len(),
{
    if es.len() == 0 {
        -1
    } else if es[0].name == name {
        0
    } else {
        let r = find_entry(es.drop_first(), name);
        if r < 0 {
            -1
        } else {
            r + 1
        }
    }
}

pub proof fn lemma_find_entry(es: Seq<TreeEntryV>, name: Seq<char>)
    ensures
        -1 <= find_entry(es, name) < es.len(),
        find_entry(es, name) >= 0 ==> es[find_entry(es, name)].name == name,
        forall|j: int| 0 <= j < find_entry(es, name) ==> es[j].name != name,
        find_entry(es, name) == -1 ==> forall|j: int| 0 <= j < es.len() ==> es[j].name != name,
    decreases es.len(),
{
    if es.len() == 0 {
    } else if es[0].name == name {
    } else {
        lemma_find_entry(es.drop_first(), name);
        let r = find_entry(es.drop_first(), name);
        if r >= 0 {
            assert forall|j: int| 0 <= j < find_entry(es, name) implies es[j].name != name by {
                if j > 0 {
                    assert(es.drop_first()[j - 1].name != name);
                }
            }
        } else {
            assert forall|j: int| 0 <= j < es.len() implies es[j].name != name by {
                if j > 0 {
                    assert(es.drop_first()[j - 1].name != name);
                }
            }
        }
    }
}

/// The first index where a stated occurrence of `name` sits, as `find_entry`
/// computes it.
pub proof fn lemma_find_entry_at(es: Seq<TreeEntryV>, name: Seq<char>, k: int)
    requires
        0 <= k <= es.len(),
        forall|j: int| 0 <= j < k ==> es[j].name != name,
        k < es.len() ==> es[k].name == name,
    ensures
        find_entry(es, name) == if k < es.len() {
            k
        } else {
            -1
        },
{
    lemma_find_entry(es, name);
    let m = find_entry(es, name);
    if k < es.len() {
        if m == -1 {
            assert(es[k].name != name);
        } else {
            if m < k {
                assert(es[m].name != name);
            }
            if k < m {
                assert(es[k].name != name);
            }
        }
    } else {
        if m >= 0 {
            assert(es[m].name != name);
        }
    }
}

/// What a content-addressed write means: the existing address for content
/// already present, a fresh address otherwise.
pub open spec fn write_spec(db: Seq<ObjectV>, o: ObjectV) -> (Seq<ObjectV>, int) {
    if exists|i: int| 0 <= i < db.len() && db[i] == o {
        (db, choose|i: int| 0 <= i < db.len() && db[i] == o)
    } else {
        (db.push(o), db.len() as int)
    }
}

pub proof fn lemma_write_spec(db: Seq<ObjectV>, o: ObjectV)
    requires
        db_wf(db),
        obj_refs_below(o, db.len() as int),
    ensures
        db_wf(write_spec(db, o).0),
        db_extends(db, write_spec(db, o).0),
        0 <= write_spec(db, o).1 < write_spec(db, o).0.len(),
        write_spec(db, o).0[write_spec(db, o).1] == o,
        (exists|i: int| 0 <= i < db.len() && db[i] == o) ==> write_spec(db, o).0 == db,
{
    let (db2, r) = write_spec(db, o);
    if exists|i: int| 0 <= i < db.len() && db[i] == o {
    } else {
        assert forall|a: int, b: int| 0 <= a < b < db2.len() implies #[trigger] db2[a]
            != #[trigger] db2[b] by {
            if b < db.len() {
            } else {
                assert(db2[b] == o);
                assert(db2[a] == db[a]);
            }
        }
        assert forall|a: int| 0 <= a < db2.len() implies obj_refs_below(#[trigger] db2[a], a) by {
            if a < db.len() {
            } else {
                assert(db2[a] == o);
            }
        }
    }
}

/// The marker-only entry list of a freshly created empty directory.
pub open spec fn marker_only(eb: int) -> Seq<TreeEntryV> {
    seq![TreeEntryV { name: marker_name(), mode: FileMode::Blob, oid: eb }]
}

/// What `append` computes: a copy-on-write descent along the path.  Only the
/// tree objects on the edited path are rewritten; every sibling entry is
/// carried over by address, in its place, and a newly inserted entry goes
/// at the end of the list (the model's canonical order is insertion order;
/// see [`crate::objects::Object`]).  The returned database always retains
/// every old object at its old address.
pub open spec fn append_spec(
    db: Seq<ObjectV>,
    node: int,
    path: Seq<Seq<char>>,
    i: int,
    mode: FileMode,
    obj: int,
    force: bool,
) -> (Seq<ObjectV>, Result<int, Error>)
    decreases path.len() - i,
{
    if !(0 <= node < db.len()) {
        (db, Err(Error::ObjectNotFound))
    } else if !(db[node] is Tree) {
        (db, Err(Error::InvalidTreeStructure))
    } else if i < 0 || i >= path.len() {
        (db, Err(Error::EntryNotFound))
    } else {
        let es = db[node]->Tree_0;
        let name = encode_name(TreeEntryNameV::Child(path[i]));
        let j = find_entry(es, name);
        if i == path.len() - 1 {
            if j >= 0 && !force {
                (db, Err(Error::EntryAlreadyExists))
            } else {
                let e2 = TreeEntryV { name, mode, oid: obj };
                let es2 = if j >= 0 {
                    es.update(j, e2)
                } else {
                    es.push(e2)
                };
                let (db2, t) = write_spec(db, ObjectV::Tree(es2));
                (db2, Ok(t))
            }
        } else {
            if j >= 0 {
                let child = es[j].oid;
                if !(0 <= child < db.len() && db[child] is Tree) {
                    (db, Err(Error::InvalidTreeStructure))
                } else {
                    let (db1, rec) = append_spec(db, child, path, i + 1, mode, obj, force);
                    match rec {
                        Err(e) => (db1, Err(e)),
                        Ok(c) => {
                            let es2 = es.update(
                                j,
                                TreeEntryV { name, mode: FileMode::Tree, oid: c },
                            );
                            let (db2, t) = write_spec(db1, ObjectV::Tree(es2));
                            (db2, Ok(t))
                        },
                    }
                }
            } else {
                let (dba, eb) = write_spec(db, ObjectV::Blob(Seq::empty()));
                let (dbb, t0) = write_spec(dba, ObjectV::Tree(marker_only(eb)));
                let (db1, rec) = append_spec(dbb, t0, path, i + 1, mode, obj, force);
                match rec {
                    Err(e) => (db1, Err(e)),
                    Ok(c) => {
                        let es2 = es.push(TreeEntryV { name, mode: FileMode::Tree, oid: c });
                        let (db2, t) = write_spec(db1, ObjectV::Tree(es2));
                        (db2, Ok(t))
                    },
                }
            }
        }
    }
}

/// What `remove` computes: the mirror descent that deletes the final
/// component's entry, failing with `EntryNotFound` when any level lacks the
/// wanted name.  A directory left holding only its marker stays in place.
pub open spec fn remove_spec(db: Seq<ObjectV>, node: int, path: Seq<Seq<char>>, i: int) -> (
    Seq<ObjectV>,
    Result<int, Error>,
)
    decreases path.len() - i,
{
    if !(0 <= node < db.len()) {
        (db, Err(Error::ObjectNotFound))
    } else if !(db[node] is Tree) {
        (db, Err(Error::InvalidTreeStructure))
    } else if i < 0 || i >= path.len() {
        (db, Err(Error::EntryNotFound))
    } else {
        let es = db[node]->Tree_0;
        let name = encode_name(TreeEntryNameV::Child(path[i]));
        let j = find_entry(es, name);
        if j < 0 {
            (db, Err(Error::EntryNotFound))
        } else if i == path.len() - 1 {
            let es2 = es.remove(j);
            let (db2, t) = write_spec(db, ObjectV::Tree(es2));
            (db2, Ok(t))
        } else {
            let child = es[j].oid;
            if !(0 <= child < db.len() && db[child] is Tree) {
                (db, Err(Error::InvalidTreeStructure))
            } else {
                let (db1, rec) = remove_spec(db, child, path, i + 1);
                match rec {
                    Err(e) => (db1, Err(e)),
                    Ok(c) => {
                        let es2 = es.update(j, TreeEntryV { name, mode: FileMode::Tree, oid: c });
                        let (db2, t) = write_spec(db1, ObjectV::Tree(es2));
                        (db2, Ok(t))
                    },
                }
            }
        }
    }
}

/// On success, `append` leaves a well-formed database that extends the old
/// one, and the returned address holds a tree.
pub proof fn lemma_append_spec_props(
    db: Seq<ObjectV>,
    node: int,
    path: Seq<Seq<char>>,
    i: int,
    mode: FileMode,
    obj: int,
    force: bool,
)
    requires
        db_wf(db),
        0 <= obj < db.len(),
        append_spec(db, node, path, i, mode, obj, force).1 is Ok,
    ensures
        ({
            let (db1, rec) = append_spec(db, node, path, i, mode, obj, force);
            let t = rec->Ok_0;
            &&& db_wf(db1)
            &&& db_extends(db, db1)
            &&& 0 <= t < db1.len()
            &&& db1[t] is Tree
        }),
    decreases path.len() - i,
{
    let es = db[node]->Tree_0;
    let name = encode_name(TreeEntryNameV::Child(path[i]));
    let j = find_entry(es, name);
    lemma_find_entry(es, name);
    assert(obj_refs_below(db[node], node));
    if i == path.len() - 1 {
        let e2 = TreeEntryV { name, mode, oid: obj };
        let es2 = if j >= 0 {
            es.update(j, e2)
        } else {
            es.push(e2)
        };
        assert(obj_refs_below(ObjectV::Tree(es2), db.len() as int));
        lemma_write_spec(db, ObjectV::Tree(es2));
    } else {
        if j >= 0 {
            let child = es[j].oid;
            lemma_append_spec_props(db, child, path, i + 1, mode, obj, force);
            let (db1, rec) = append_spec(db, child, path, i + 1, mode, obj, force);
            let c = rec->Ok_0;
            let es2 = es.update(j, TreeEntryV { name, mode: FileMode::Tree, oid: c });
            assert(obj_refs_below(ObjectV::Tree(es2), db1.len() as int));
            lemma_write_spec(db1, ObjectV::Tree(es2));
        } else {
            let (dba, eb) = write_spec(db, ObjectV::Blob(Seq::empty()));
            lemma_write_spec(db, ObjectV::Blob(Seq::empty()));
            let (dbb, t0) = write_spec(dba, ObjectV::Tree(marker_only(eb)));
            assert(obj_refs_below(ObjectV::Tree(marker_only(eb)), dba.len() as int));
            lemma_write_spec(dba, ObjectV::Tree(marker_only(eb)));
            lemma_append_spec_props(dbb, t0, path, i + 1, mode, obj, force);
            let (db1, rec) = append_spec(dbb, t0, path, i + 1, mode, obj, force);
            let c = rec->Ok_0;
            let es2 = es.push(TreeEntryV { name, mode: FileMode::Tree, oid: c });
            assert(obj_refs_below(ObjectV::Tree(es2), db1.len() as int));
            lemma_write_spec(db1, ObjectV::Tree(es2));
        }
    }
}

/// The path already carries exactly `(mode, obj)`: every level of the path
/// exists, and the final component's entry holds the appended value.
pub open spec fn present(
    db: Seq<ObjectV>,
    node: int,
    path: Seq<Seq<char>>,
    i: int,
    mode: FileMode,
    obj: int,
) -> bool
    decreases path.len() - i,
{
    &&& 0 <= node < db.len()
    &&& db[node] is Tree
    &&& 0 <= i < path.len()
    &&& {
        let es = db[node]->Tree_0;
        let name = encode_name(TreeEntryNameV::Child(path[i]));
        let j = find_entry(es, name);
        &&& j >= 0
        &&& if i == path.len() - 1 {
            es[j] == TreeEntryV { name, mode, oid: obj }
        } else {
            es[j].mode == FileMode::Tree && present(db, es[j].oid, path, i + 1, mode, obj)
        }
    }
}

/// Presence survives extension of the database: old objects keep their
/// addresses.
pub proof fn lemma_present_monotone(
    db: Seq<ObjectV>,
    db2: Seq<ObjectV>,
    node: int,
    path: Seq<Seq<char>>,
    i: int,
    mode: FileMode,
    obj: int,
)
    requires
        present(db, node, path, i, mode, obj),
        db_extends(db, db2),
    ensures
        present(db2, node, path, i, mode, obj),
    decreases path.len() - i,
{
    let es = db[node]->Tree_0;
    let name = encode_name(TreeEntryNameV::Child(path[i]));
    let j = find_entry(es, name);
    if i < path.len() - 1 {
        lemma_present_monotone(db, db2, es[j].oid, path, i + 1, mode, obj);
    }
}

/// A successful `append` leaves the appended value present at the path
/// under the returned address.
pub proof fn lemma_append_makes_present(
    db: Seq<ObjectV>,
    node: int,
    path: Seq<Seq<char>>,
    i: int,
    mode: FileMode,
    obj: int,
    force: bool,
)
    requires
        db_wf(db),
        0 <= obj < db.len(),
        append_spec(db, node, path, i, mode, obj, force).1 is Ok,
    ensures
        ({
            let (db1, rec) = append_spec(db, node, path, i, mode, obj, force);
            present(db1, rec->Ok_0, path, i, mode, obj)
        }),
    decreases path.len() - i,
{
    let (db1, rec) = append_spec(db, node, path, i, mode, obj, force);
    let t = rec->Ok_0;
    let es = db[node]->Tree_0;
    let name = encode_name(TreeEntryNameV::Child(path[i]));
    let j = find_entry(es, name);
    lemma_find_entry(es, name);
    assert(obj_refs_below(db[node], node));
    if i == path.len() - 1 {
        let e2 = TreeEntryV { name, mode, oid: obj };
        let es2 = if j >= 0 {
            es.update(j, e2)
        } else {
            es.push(e2)
        };
        assert(obj_refs_below(ObjectV::Tree(es2), db.len() as int));
        lemma_write_spec(db, ObjectV::Tree(es2));
        proof_find_after_put(es, name, j, e2);
    } else {
        if j >= 0 {
            let child = es[j].oid;
            let (dbc, recc) = append_spec(db, child, path, i + 1, mode, obj, force);
            let c = recc->Ok_0;
            lemma_append_makes_present(db, child, path, i + 1, mode, obj, force);
            lemma_append_spec_props(db, child, path, i + 1, mode, obj, force);
            let e2 = TreeEntryV { name, mode: FileMode::Tree, oid: c };
            let es2 = es.update(j, e2);
            assert(obj_refs_below(ObjectV::Tree(es2), dbc.len() as int));
            lemma_write_spec(dbc, ObjectV::Tree(es2));
            proof_find_after_put(es, name, j, e2);
            lemma_present_monotone(dbc, db1, c, path, i + 1, mode, obj);
        } else {
            let (dba, eb) = write_spec(db, ObjectV::Blob(Seq::empty()));
            lemma_write_spec(db, ObjectV::Blob(Seq::empty()));
            let (dbb, t0) = write_spec(dba, ObjectV::Tree(marker_only(eb)));
            assert(obj_refs_below(ObjectV::Tree(marker_only(eb)), dba.len() as int));
            lemma_write_spec(dba, ObjectV::Tree(marker_only(eb)));
            let (dbc, recc) = append_spec(dbb, t0, path, i + 1, mode, obj, force);
            let c = recc->Ok_0;
            lemma_append_makes_present(dbb, t0, path, i + 1, mode, obj, force);
            lemma_append_spec_props(dbb, t0, path, i + 1, mode, obj, force);
            let e2 = TreeEntryV { name, mode: FileMode::Tree, oid: c };
            let es2 = es.push(e2);
            assert(obj_refs_below(ObjectV::Tree(es2), dbc.len() as int));
            lemma_write_spec(dbc, ObjectV::Tree(es2));
            proof_find_after_put(es, name, -1, e2);
            lemma_present_monotone(dbc, db1, c, path, i + 1, mode, obj);
        }
    }
}

/// Appending a value that is already exactly in place, with `force`, writes
/// nothing and returns the same address.
pub proof fn lemma_append_present_noop(
    db: Seq<ObjectV>,
    node: int,
    path: Seq<Seq<char>>,
    i: int,
    mode: FileMode,
    obj: int,
)
    requires
        db_wf(db),
        present(db, node, path, i, mode, obj),
    ensures
        append_spec(db, node, path, i, mode, obj, true) == (db, Ok::<int, Error>(node)),
    decreases path.len() - i,
{
    let es = db[node]->Tree_0;
    let name = encode_name(TreeEntryNameV::Child(path[i]));
    let j = find_entry(es, name);
    lemma_find_entry(es, name);
    assert(obj_refs_below(db[node], node));
    if i == path.len() - 1 {
        let e2 = TreeEntryV { name, mode, oid: obj };
        let es2 = es.update(j, e2);
        assert(es2 =~= es) by {
            assert(es[j] == e2);
        }
        assert(exists|x: int| 0 <= x < db.len() && db[x] == ObjectV::Tree(es2)) by {
            assert(db[node] == ObjectV::Tree(es2));
        }
        lemma_write_spec(db, ObjectV::Tree(es2));
        let (db2, t) = write_spec(db, ObjectV::Tree(es2));
        assert(db2 == db);
        crate::objects::ObjectDb::lemma_address_unique(db, t, node);
    } else {
        let child = es[j].oid;
        assert(present(db, child, path, i + 1, mode, obj));
        assert(0 <= child < db.len() && db[child] is Tree);
        lemma_append_present_noop(db, child, path, i + 1, mode, obj);
        let e2 = TreeEntryV { name, mode: FileMode::Tree, oid: child };
        let es2 = es.update(j, e2);
        assert(es2 =~= es) by {
            assert(es[j] == e2);
        }
        assert(exists|x: int| 0 <= x < db.len() && db[x] == ObjectV::Tree(es2)) by {
            assert(db[node] == ObjectV::Tree(es2));
        }
        lemma_write_spec(db, ObjectV::Tree(es2));
        let (db2, t) = write_spec(db, ObjectV::Tree(es2));
        assert(db2 == db);
        crate::objects::ObjectDb::lemma_address_unique(db, t, node);
    }
}

/// Overwriting `append` is idempotent: appending the same object at the same
/// path again, with `force`, yields the same final address both times — the
/// second call is a no-op overwrite of identical content, leaving the
/// database untouched.
pub proof fn lemma_append_overwrite_idempotent(
    db: Seq<ObjectV>,
    node: int,
    path: Seq<Seq<char>>,
    i: int,
    mode: FileMode,
    obj: int,
)
    requires
        db_wf(db),
        0 <= obj < db.len(),
        append_spec(db, node, path, i, mode, obj, true).1 is Ok,
    ensures
        ({
            let (db1, rec) = append_spec(db, node, path, i, mode, obj, true);
            append_spec(db1, rec->Ok_0, path, i, mode, obj, true) == (db1, rec)
        }),
    decreases path.len() - i,
{
    let (db1, rec) = append_spec(db, node, path, i, mode, obj, true);
    lemma_append_spec_props(db, node, path, i, mode, obj, true);
    lemma_append_makes_present(db, node, path, i, mode, obj, true);
    lemma_append_present_noop(db1, rec->Ok_0, path, i, mode, obj);
}

/// After replacing (or adding) the entry named `name` at position `j` (or at
/// the end), that position is the first holding `name`.
proof fn proof_find_after_put(es: Seq<TreeEntryV>, name: Seq<char>, j: int, e2: TreeEntryV)
    requires
        e2.name == name,
        j == find_entry(es, name),
    ensures
        j >= 0 ==> find_entry(es.update(j, e2), name) == j,
        j < 0 ==> find_entry(es.push(e2), name) == es.len(),
{
    lemma_find_entry(es, name);
    if j >= 0 {
        let es2 = es.update(j, e2);
        assert(forall|x: int| 0 <= x < j ==> es2[x].name != name);
        assert(es2[j].name == name);
        lemma_find_entry_at(es2, name, j);
    } else {
        let es2 = es.push(e2);
        assert(forall|x: int| 0 <= x < es.len() ==> es2[x].name != name);
        assert(es2[es.len() as int].name == name);
        lemma_find_entry_at(es2, name, es.len() as int);
    }
}

/// The descent hypothesis for the append/remove inverse law: every level of
/// the path but the last already exists as a tree-mode entry over a tree
/// object.
pub open spec fn descends(db: Seq<ObjectV>, node: int, path: Seq<Seq<char>>, i: int) -> bool
    decreases path.len() - i,
{
    &&& 0 <= node < db.len()
    &&& db[node] is Tree
    &&& 0 <= i < path.len()
    &&& (i < path.len() - 1 ==> {
        let es = db[node]->Tree_0;
        let j = find_entry(es, encode_name(TreeEntryNameV::Child(path[i])));
        &&& j >= 0
        &&& es[j].mode == FileMode::Tree
        &&& descends(db, es[j].oid, path, i + 1)
    })
}

/// Removing the entry that a non-colliding `append` just added restores
/// the original root address, in any well-formed database extending the
/// append's result.
pub proof fn lemma_remove_undoes_append(
    db: Seq<ObjectV>,
    node: int,
    path: Seq<Seq<char>>,
    i: int,
    mode: FileMode,
    obj: int,
    big: Seq<ObjectV>,
)
    requires
        db_wf(db),
        0 <= obj < db.len(),
        descends(db, node, path, i),
        append_spec(db, node, path, i, mode, obj, false).1 is Ok,
        db_wf(big),
        db_extends(append_spec(db, node, path, i, mode, obj, false).0, big),
    ensures
        ({
            let (db1, rec) = append_spec(db, node, path, i, mode, obj, false);
            remove_spec(big, rec->Ok_0, path, i) == (big, Ok::<int, Error>(node))
        }),
    decreases path.len() - i,
{
    let (db1, rec) = append_spec(db, node, path, i, mode, obj, false);
    let t = rec->Ok_0;
    lemma_append_spec_props(db, node, path, i, mode, obj, false);
    let es = db[node]->Tree_0;
    let name = encode_name(TreeEntryNameV::Child(path[i]));
    let j = find_entry(es, name);
    lemma_find_entry(es, name);
    assert(obj_refs_below(db[node], node));
    if i == path.len() - 1 {
        // force is false and the call succeeded, so the name was absent
        assert(j < 0);
        let e2 = TreeEntryV { name, mode, oid: obj };
        let es2 = es.push(e2);
        assert(obj_refs_below(ObjectV::Tree(es2), db.len() as int));
        lemma_write_spec(db, ObjectV::Tree(es2));
        assert(db1[t] == ObjectV::Tree(es2));
        assert(big[t] == ObjectV::Tree(es2));
        let j2 = find_entry(es2, name);
        proof_find_after_put(es, name, -1, e2);
        assert(j2 == es.len() as int);
        let es3 = es2.remove(j2);
        assert(es3 =~= es);
        assert(exists|x: int| 0 <= x < big.len() && big[x] == ObjectV::Tree(es3)) by {
            assert(big[node] == db[node]);
            assert(db[node] == ObjectV::Tree(es));
        }
        assert(obj_refs_below(ObjectV::Tree(es3), big.len() as int));
        lemma_write_spec(big, ObjectV::Tree(es3));
        let (big2, t2) = write_spec(big, ObjectV::Tree(es3));
        assert(big2 == big);
        assert(big[node] == ObjectV::Tree(es3));
        crate::objects::ObjectDb::lemma_address_unique(big, t2, node);
    } else {
        assert(j >= 0);
        assert(es[j].mode == FileMode::Tree);
        let child = es[j].oid;
        assert(0 <= child < db.len() && db[child] is Tree);
        let (dbc, recc) = append_spec(db, child, path, i + 1, mode, obj, false);
        let c = recc->Ok_0;
        lemma_append_spec_props(db, child, path, i + 1, mode, obj, false);
        let e2 = TreeEntryV { name, mode: FileMode::Tree, oid: c };
        let es2 = es.update(j, e2);
        assert(obj_refs_below(ObjectV::Tree(es2), dbc.len() as int));
        lemma_write_spec(dbc, ObjectV::Tree(es2));
        assert(db1 == write_spec(dbc, ObjectV::Tree(es2)).0);
        assert(db1[t] == ObjectV::Tree(es2));
        assert(big[t] == ObjectV::Tree(es2));
        let j2 = find_entry(es2, name);
        proof_find_after_put(es, name, j, e2);
        assert(j2 == j);
        assert(es2[j2] == e2);
        // by induction, removing below c restores the original child address
        crate::objects::lemma_db_extends_trans(dbc, db1, big);
        lemma_remove_undoes_append(db, child, path, i + 1, mode, obj, big);
        assert(remove_spec(big, c, path, i + 1) == (big, Ok::<int, Error>(child)));
        assert(0 <= c < dbc.len() && dbc[c] is Tree);
        assert(0 <= c < big.len() && big[c] is Tree);
        let es3 = es2.update(j2, TreeEntryV { name, mode: FileMode::Tree, oid: child });
        assert(es3 =~= es) by {
            assert(es[j] == TreeEntryV { name, mode: FileMode::Tree, oid: child });
        }
        assert(exists|x: int| 0 <= x < big.len() && big[x] == ObjectV::Tree(es3)) by {
            assert(big[node] == db[node]);
            assert(db[node] == ObjectV::Tree(es));
        }
        assert(obj_refs_below(ObjectV::Tree(es3), big.len() as int)) by {
            assert(obj_refs_below(db[node], node));
        }
        lemma_write_spec(big, ObjectV::Tree(es3));
        let (big2, t2) = write_spec(big, ObjectV::Tree(es3));
        assert(big2 == big);
        assert(big[node] == ObjectV::Tree(es3));
        crate::objects::ObjectDb::lemma_address_unique(big, t2, node);
    }
}

/// Append and remove are inverse: removing what a non-colliding append just
/// grafted restores the original root address and database.
pub proof fn lemma_remove_after_append(
    db: Seq<ObjectV>,
    node: int,
    path: Seq<Seq<char>>,
    mode: FileMode,
    obj: int,
)
    requires
        db_wf(db),
        0 <= obj < db.len(),
        descends(db, node, path, 0),
        append_spec(db, node, path, 0, mode, obj, false).1 is Ok,
    ensures
        ({
            let (db1, rec) = append_spec(db, node, path, 0, mode, obj, false);
            remove_spec(db1, rec->Ok_0, path, 0) == (db1, Ok::<int, Error>(node))
        }),
{
    let (db1, rec) = append_spec(db, node, path, 0, mode, obj, false);
    lemma_append_spec_props(db, node, path, 0, mode, obj, false);
    lemma_remove_undoes_append(db, node, path, 0, mode, obj, db1);
}

/// Finds the first entry with the given name.
fn find_entry_x(es: &Vec<TreeEntry>, name: &String) -> (r: Option<usize>)
    ensures
        r matches Some(j) ==> find_entry(es.deep_view(), name@) == j as int && (j as int)
            < es@.len(),
        r is None ==> find_entry(es.deep_view(), name@) == -1,
{
    let ghost esv = es.deep_view();
    let mut k: usize = 0;
    while k < es.len()
        invariant
            0 <= k <= es.len(),
            esv == es.deep_view(),
            forall|j: int| 0 <= j < k ==> esv[j].name != name@,
        decreases es.len() - k,
    {
        if string_eq(&es[k].name, name) {
            proof {
                assert(esv[k as int].name == name@);
                lemma_find_entry_at(esv, name@, k as int);
            }
            return Some(k);
        }
        proof {
            assert(esv[k as int].name != name@);
        }
        k += 1;
    }
    proof {
        lemma_find_entry_at(esv, name@, es.len() as int);
    }
    None
}

/// Copies an entry list, optionally replacing one position or adding a new
/// entry at the end.
fn copy_entries(es: &Vec<TreeEntry>, at: Option<usize>, e2: TreeEntry) -> (r: Vec<TreeEntry>)
    requires
        at matches Some(j) ==> j < es@.len(),
    ensures
        match at {
            Some(j) => r.deep_view() == es.deep_view().update(j as int, e2@),
            None => r.deep_view() == es.deep_view().push(e2@),
        },
{
    let mut r: Vec<TreeEntry> = Vec::new();
    let mut k: usize = 0;
    let replace = match at {
        Some(j) => j,
        None => es.len(),
    };
    while k < es.len()
        invariant
            0 <= k <= es.len(),
            replace == match at {
                Some(j) => j as int,
                None => es@.len() as int,
            },
            at matches Some(j) ==> j < es@.len(),
            r@.len() == k,
            forall|x: int|
                0 <= x < k && x != replace ==> r.deep_view()[x] == es.deep_view()[x],
            k > replace ==> r.deep_view()[replace as int] == e2@,
        decreases es.len() - k,
    {
        if k == replace {
            r.push(TreeEntry { name: e2.name.clone(), mode: e2.mode, oid: e2.oid });
        } else {
            let e = &es[k];
            r.push(TreeEntry { name: e.name.clone(), mode: e.mode, oid: e.oid });
        }
        k += 1;
    }
    match at {
        Some(j) => {
            proof {
                assert(r.deep_view() =~= es.deep_view().update(j as int, e2@));
            }
        },
        None => {
            r.push(e2);
            proof {
                assert(r.deep_view() =~= es.deep_view().push(e2@));
            }
        },
    }
    r
}

/// Copies an entry list with one position deleted.
fn copy_entries_without(es: &Vec<TreeEntry>, at: usize) -> (r: Vec<TreeEntry>)
    requires
        at < es@.len(),
    ensures
        r.deep_view() == es.deep_view().remove(at as int),
{
    let mut r: Vec<TreeEntry> = Vec::new();
    let mut k: usize = 0;
    while k < es.len()
        invariant
            0 <= k <= es.len(),
            at < es@.len(),
            r@.len() == if k <= at {
                k as int
            } else {
                k - 1
            },
            forall|x: int| 0 <= x < k && x < at ==> r.deep_view()[x] == es.deep_view()[x],
            forall|x: int|
                at < x < k ==> r.deep_view()[x - 1] == es.deep_view()[x],
        decreases es.len() - k,
    {
        if k != at {
            let e = &es[k];
            r.push(TreeEntry { name: e.name.clone(), mode: e.mode, oid: e.oid });
        }
        k += 1;
    }
    proof {
        assert(r.deep_view() =~= es.deep_view().remove(at as int));
    }
    r
}

/// Copies an entry list unchanged.
fn clone_entries(es: &Vec<TreeEntry>) -> (r: Vec<TreeEntry>)
    ensures
        r.deep_view() == es.deep_view(),
{
    let mut r: Vec<TreeEntry> = Vec::new();
    let mut k: usize = 0;
    while k < es.len()
        invariant
            0 <= k <= es.len(),
            r@.len() == k,
            forall|x: int| 0 <= x < k ==> r.deep_view()[x] == es.deep_view()[x],
        decreases es.len() - k,
    {
        let e = &es[k];
        r.push(TreeEntry { name: e.name.clone(), mode: e.mode, oid: e.oid });
        k += 1;
    }
    proof {
        assert(r.deep_view() =~= es.deep_view());
    }
    r
}

/// Reads the entry list of a tree object, owned.
fn read_tree_entries(db: &ObjectDb, node: Oid) -> (r: Result<Vec<TreeEntry>, Error>)
    ensures
        r matches Ok(es) ==> node.index < db@.len() && db@[node.index as int] == ObjectV::Tree(
            es.deep_view(),
        ),
        r is Err ==> !(node.index < db@.len() && db@[node.index as int] is Tree),
        r matches Err(e) ==> e == if node.index < db@.len() {
            Error::InvalidTreeStructure
        } else {
            Error::ObjectNotFound
        },
{
    match db.read(node) {
        None => Err(Error::ObjectNotFound),
        Some(Object::Blob(_)) => Err(Error::InvalidTreeStructure),
        Some(Object::Tree(es)) => Ok(clone_entries(es)),
    }
}

/// The marker entry, pointing at the empty blob.
fn marker_entry(eb: Oid) -> (r: TreeEntry)
    ensures
        r@ == (TreeEntryV { name: marker_name(), mode: FileMode::Blob, oid: eb.index as int }),
{
    let name = TreeEntryName::Marker.encode();
    TreeEntry { name, mode: FileMode::Blob, oid: eb }
}

#[verifier::rlimit(100)]
fn append_at(
    db: &mut ObjectDb,
    node: Oid,
    path: &Vec<String>,
    i: usize,
    mode: FileMode,
    object: Oid,
    force: bool,
) -> (r: Result<Oid, Error>)
    requires
        old(db).wf(),
        i < path@.len(),
        object.index < old(db)@.len(),
    ensures
        ({
            let (db1, rec) = append_spec(
                old(db)@,
                node.index as int,
                path.deep_view(),
                i as int,
                mode,
                object.index as int,
                force,
            );
            &&& final(db)@ == db1
            &&& match rec {
                Ok(t) => r matches Ok(x) && x.index == t,
                Err(e) => r == Err::<Oid, Error>(e),
            }
        }),
    decreases path@.len() - i,
{
    let ghost pre = db@;
    let ghost pathv = path.deep_view();
    let entries = match read_tree_entries(db, node) {
        Ok(es) => es,
        Err(e) => {
            return Err(e);
        },
    };
    let ghost es = entries.deep_view();
    let name = TreeEntryName::Child(path[i].clone()).encode();
    proof {
        assert(name@ == encode_name(TreeEntryNameV::Child(pathv[i as int])));
    }
    let j = find_entry_x(&entries, &name);
    if i == path.len() - 1 {
        match j {
            Some(jj) if !force => {
                proof {
                    lemma_find_entry(es, name@);
                }
                Err(Error::EntryAlreadyExists)
            },
            _ => {
                let e2 = TreeEntry { name, mode, oid: object };
                let es2 = copy_entries(&entries, j, e2);
                proof {
                    lemma_find_entry(es, name@);
                    assert(obj_refs_below(ObjectV::Tree(es2.deep_view()), db@.len() as int)) by {
                        assert(obj_refs_below(pre[node.index as int], node.index as int));
                    }
                }
                let t = db.write(Object::Tree(es2));
                proof {
                    lemma_write_spec(pre, ObjectV::Tree(es2.deep_view()));
                    if exists|x: int| 0 <= x < pre.len() && pre[x] == ObjectV::Tree(
                        es2.deep_view(),
                    ) {
                        crate::objects::ObjectDb::lemma_address_unique(
                            db@,
                            t.index as int,
                            write_spec(pre, ObjectV::Tree(es2.deep_view())).1,
                        );
                    }
                }
                Ok(t)
            },
        }
    } else {
        match j {
            Some(jj) => {
                let child = entries[jj].oid;
                let is_tree = match db.read(child) {
                    Some(Object::Tree(_)) => true,
                    _ => false,
                };
                if !is_tree {
                    return Err(Error::InvalidTreeStructure);
                }
                let c = match append_at(db, child, path, i + 1, mode, object, force) {
                    Ok(c) => c,
                    Err(e) => {
                        return Err(e);
                    },
                };
                let ghost db1 = db@;
                let e2 = TreeEntry { name, mode: FileMode::Tree, oid: c };
                let es2 = copy_entries(&entries, Some(jj), e2);
                proof {
                    lemma_append_spec_props(
                        pre,
                        child.index as int,
                        pathv,
                        i as int + 1,
                        mode,
                        object.index as int,
                        force,
                    );
                    assert(obj_refs_below(ObjectV::Tree(es2.deep_view()), db1.len() as int)) by {
                        assert(obj_refs_below(pre[node.index as int], node.index as int));
                        assert(db_extends(pre, db1));
                    }
                }
                let t = db.write(Object::Tree(es2));
                proof {
                    lemma_write_spec(db1, ObjectV::Tree(es2.deep_view()));
                    if exists|x: int| 0 <= x < db1.len() && db1[x] == ObjectV::Tree(
                        es2.deep_view(),
                    ) {
                        crate::objects::ObjectDb::lemma_address_unique(
                            db@,
                            t.index as int,
                            write_spec(db1, ObjectV::Tree(es2.deep_view())).1,
                        );
                    }
                }
                Ok(t)
            },
            None => {
                let empty: Vec<u8> = Vec::new();
                proof {
                    assert(empty@ =~= Seq::<u8>::empty());
                }
                let eb = db.write(Object::Blob(empty));
                proof {
                    lemma_write_spec(pre, ObjectV::Blob(Seq::empty()));
                    if exists|x: int| 0 <= x < pre.len() && pre[x] == ObjectV::Blob(
                        Seq::<u8>::empty(),
                    ) {
                        crate::objects::ObjectDb::lemma_address_unique(
                            db@,
                            eb.index as int,
                            write_spec(pre, ObjectV::Blob(Seq::empty())).1,
                        );
                    }
                }
                let ghost dba = db@;
                let mut m: Vec<TreeEntry> = Vec::new();
                m.push(marker_entry(eb));
                proof {
                    assert(m.deep_view() =~= marker_only(eb.index as int));
                    assert(obj_refs_below(ObjectV::Tree(marker_only(eb.index as int)),
                        dba.len() as int));
                }
                let t0 = db.write(Object::Tree(m));
                proof {
                    lemma_write_spec(dba, ObjectV::Tree(marker_only(eb.index as int)));
                    if exists|x: int| 0 <= x < dba.len() && dba[x] == ObjectV::Tree(
                        marker_only(eb.index as int),
                    ) {
                        crate::objects::ObjectDb::lemma_address_unique(
                            db@,
                            t0.index as int,
                            write_spec(dba, ObjectV::Tree(marker_only(eb.index as int))).1,
                        );
                    }
                }
                let ghost dbb = db@;
                let c = match append_at(db, t0, path, i + 1, mode, object, force) {
                    Ok(c) => c,
                    Err(e) => {
                        return Err(e);
                    },
                };
                let ghost db1 = db@;
                let e2 = TreeEntry { name, mode: FileMode::Tree, oid: c };
                let es2 = copy_entries(&entries, None, e2);
                proof {
                    lemma_append_spec_props(
                        dbb,
                        t0.index as int,
                        pathv,
                        i as int + 1,
                        mode,
                        object.index as int,
                        force,
                    );
                    assert(obj_refs_below(ObjectV::Tree(es2.deep_view()), db1.len() as int)) by {
                        assert(obj_refs_below(pre[node.index as int], node.index as int));
                        assert(db_extends(pre, dbb));
                        assert(db_extends(dbb, db1));
                    }
                }
                let t = db.write(Object::Tree(es2));
                proof {
                    lemma_write_spec(db1, ObjectV::Tree(es2.deep_view()));
                    if exists|x: int| 0 <= x < db1.len() && db1[x] == ObjectV::Tree(
                        es2.deep_view(),
                    ) {
                        crate::objects::ObjectDb::lemma_address_unique(
                            db@,
                            t.index as int,
                            write_spec(db1, ObjectV::Tree(es2.deep_view())).1,
                        );
                    }
                }
                Ok(t)
            },
        }
    }
}

#[verifier::rlimit(100)]
fn remove_at(db: &mut ObjectDb, node: Oid, path: &Vec<String>, i: usize) -> (r: Result<Oid, Error>)
    requires
        old(db).wf(),
        i < path@.len(),
    ensures
        ({
            let (db1, rec) = remove_spec(old(db)@, node.index as int, path.deep_view(), i as int);
            &&& final(db)@ == db1
            &&& match rec {
                Ok(t) => r matches Ok(x) && x.index == t,
                Err(e) => r == Err::<Oid, Error>(e),
            }
        }),
    decreases path@.len() - i,
{
    let ghost pre = db@;
    let ghost pathv = path.deep_view();
    let entries = match read_tree_entries(db, node) {
        Ok(es) => es,
        Err(e) => {
            return Err(e);
        },
    };
    let ghost es = entries.deep_view();
    let name = TreeEntryName::Child(path[i].clone()).encode();
    proof {
        assert(name@ == encode_name(TreeEntryNameV::Child(pathv[i as int])));
    }
    let jj = match find_entry_x(&entries, &name) {
        None => {
            return Err(Error::EntryNotFound);
        },
        Some(jj) => jj,
    };
    proof {
        lemma_find_entry(es, name@);
    }
    if i == path.len() - 1 {
        let es2 = copy_entries_without(&entries, jj);
        proof {
            assert(obj_refs_below(ObjectV::Tree(es2.deep_view()), db@.len() as int)) by {
                assert(obj_refs_below(pre[node.index as int], node.index as int));
            }
        }
        let t = db.write(Object::Tree(es2));
        proof {
            lemma_write_spec(pre, ObjectV::Tree(es2.deep_view()));
            if exists|x: int| 0 <= x < pre.len() && pre[x] == ObjectV::Tree(es2.deep_view()) {
                crate::objects::ObjectDb::lemma_address_unique(
                    db@,
                    t.index as int,
                    write_spec(pre, ObjectV::Tree(es2.deep_view())).1,
                );
            }
        }
        Ok(t)
    } else {
        let child = entries[jj].oid;
        let is_tree = match db.read(child) {
            Some(Object::Tree(_)) => true,
            _ => false,
        };
        if !is_tree {
            return Err(Error::InvalidTreeStructure);
        }
        let c = match remove_at(db, child, path, i + 1) {
            Ok(c) => c,
            Err(e) => {
                return Err(e);
            },
        };
        let ghost db1 = db@;
        let e2 = TreeEntry { name, mode: FileMode::Tree, oid: c };
        let es2 = copy_entries(&entries, Some(jj), e2);
        proof {
            lemma_remove_spec_props(pre, child.index as int, pathv, i as int + 1);
            assert(obj_refs_below(ObjectV::Tree(es2.deep_view()), db1.len() as int)) by {
                assert(obj_refs_below(pre[node.index as int], node.index as int));
                assert(db_extends(pre, db1));
            }
        }
        let t = db.write(Object::Tree(es2));
        proof {
            lemma_write_spec(db1, ObjectV::Tree(es2.deep_view()));
            if exists|x: int| 0 <= x < db1.len() && db1[x] == ObjectV::Tree(es2.deep_view()) {
                crate::objects::ObjectDb::lemma_address_unique(
                    db@,
                    t.index as int,
                    write_spec(db1, ObjectV::Tree(es2.deep_view())).1,
                );
            }
        }
        Ok(t)
    }
}

/// On success, `remove` leaves a well-formed database that extends the old
/// one, and the returned address holds a tree.
pub proof fn lemma_remove_spec_props(db: Seq<ObjectV>, node: int, path: Seq<Seq<char>>, i: int)
    requires
        db_wf(db),
        remove_spec(db, node, path, i).1 is Ok,
    ensures
        ({
            let (db1, rec) = remove_spec(db, node, path, i);
            let t = rec->Ok_0;
            &&& db_wf(db1)
            &&& db_extends(db, db1)
            &&& 0 <= t < db1.len()
            &&& db1[t] is Tree
        }),
    decreases path.len() - i,
{
    let es = db[node]->Tree_0;
    let name = encode_name(TreeEntryNameV::Child(path[i]));
    let j = find_entry(es, name);
    lemma_find_entry(es, name);
    assert(obj_refs_below(db[node], node));
    if i == path.len() - 1 {
        let es2 = es.remove(j);
        assert(obj_refs_below(ObjectV::Tree(es2), db.len() as int));
        lemma_write_spec(db, ObjectV::Tree(es2));
    } else {
        let child = es[j].oid;
        lemma_remove_spec_props(db, child, path, i + 1);
        let (db1, rec) = remove_spec(db, child, path, i + 1);
        let c = rec->Ok_0;
        let es2 = es.update(j, TreeEntryV { name, mode: FileMode::Tree, oid: c });
        assert(obj_refs_below(ObjectV::Tree(es2), db1.len() as int));
        lemma_write_spec(db1, ObjectV::Tree(es2));
    }
}

/// Grafts `(mode, object)` at `relative_path` under `root`, copy-on-write:
/// returns the new root address; the old root and all its objects remain
/// valid and shared.  With `force` false an existing final entry fails with
/// `EntryAlreadyExists`; missing intermediate directories are created with
/// their marker.
pub fn append(
    db: &mut ObjectDb,
    root: Oid,
    relative_path: &ShadowPath,
    mode: FileMode,
    object: Oid,
    force: bool,
) -> (r: Result<Oid, Error>)
    requires
        old(db).wf(),
        relative_path@.len() >= 1,
        object.index < old(db)@.len(),
    ensures
        ({
            let (db1, rec) = append_spec(
                old(db)@,
                root.index as int,
                relative_path@,
                0,
                mode,
                object.index as int,
                force,
            );
            &&& final(db)@ == db1
            &&& final(db).wf()
            &&& match rec {
                Ok(t) => r matches Ok(x) && x.index == t,
                Err(e) => r == Err::<Oid, Error>(e),
            }
        }),
{
    let r = append_at(db, root, relative_path.components(), 0, mode, object, force);
    proof {
        let (db1, rec) = append_spec(
            old(db)@,
            root.index as int,
            relative_path@,
            0,
            mode,
            object.index as int,
            force,
        );
        if rec is Ok {
            lemma_append_spec_props(
                old(db)@,
                root.index as int,
                relative_path@,
                0,
                mode,
                object.index as int,
                force,
            );
        } else {
            lemma_append_spec_err_keeps_db(
                old(db)@,
                root.index as int,
                relative_path@,
                0,
                mode,
                object.index as int,
                force,
            );
        }
    }
    r
}

/// On failure, `append` may have written helper objects for created
/// directories, but the database still extends the old one and stays
/// well-formed.
pub proof fn lemma_append_spec_err_keeps_db(
    db: Seq<ObjectV>,
    node: int,
    path: Seq<Seq<char>>,
    i: int,
    mode: FileMode,
    obj: int,
    force: bool,
)
    requires
        db_wf(db),
        0 <= obj < db.len(),
        append_spec(db, node, path, i, mode, obj, force).1 is Err,
    ensures
        db_wf(append_spec(db, node, path, i, mode, obj, force).0),
        db_extends(db, append_spec(db, node, path, i, mode, obj, force).0),
    decreases path.len() - i,
{
    if !(0 <= node < db.len()) || !(db[node] is Tree) || i < 0 || i >= path.len() {
    } else {
        let es = db[node]->Tree_0;
        let name = encode_name(TreeEntryNameV::Child(path[i]));
        let j = find_entry(es, name);
        lemma_find_entry(es, name);
        if i == path.len() - 1 {
        } else {
            if j >= 0 {
                let child = es[j].oid;
                if 0 <= child < db.len() && db[child] is Tree {
                    if append_spec(db, child, path, i + 1, mode, obj, force).1 is Err {
                        lemma_append_spec_err_keeps_db(db, child, path, i + 1, mode, obj, force);
                    } else {
                        lemma_append_spec_props(db, child, path, i + 1, mode, obj, force);
                    }
                }
            } else {
                let (dba, eb) = write_spec(db, ObjectV::Blob(Seq::empty()));
                lemma_write_spec(db, ObjectV::Blob(Seq::empty()));
                let (dbb, t0) = write_spec(dba, ObjectV::Tree(marker_only(eb)));
                assert(obj_refs_below(ObjectV::Tree(marker_only(eb)), dba.len() as int));
                lemma_write_spec(dba, ObjectV::Tree(marker_only(eb)));
                if append_spec(dbb, t0, path, i + 1, mode, obj, force).1 is Err {
                    lemma_append_spec_err_keeps_db(dbb, t0, path, i + 1, mode, obj, force);
                } else {
                    lemma_append_spec_props(dbb, t0, path, i + 1, mode, obj, force);
                }
            }
        }
    }
}

/// Excises the entry at `relative_path` under `root`, copy-on-write: the
/// mirror of [`append`].  Fails with `EntryNotFound` when any level lacks
/// the wanted component.
pub fn remove(db: &mut ObjectDb, root: Oid, relative_path: &ShadowPath) -> (r: Result<Oid, Error>)
    requires
        old(db).wf(),
        relative_path@.len() >= 1,
    ensures
        ({
            let (db1, rec) = remove_spec(old(db)@, root.index as int, relative_path@, 0);
            &&& final(db)@ == db1
            &&& final(db).wf()
            &&& match rec {
                Ok(t) => r matches Ok(x) && x.index == t,
                Err(e) => r == Err::<Oid, Error>(e),
            }
        }),
{
    let r = remove_at(db, root, relative_path.components(), 0);
    proof {
        let (db1, rec) = remove_spec(old(db)@, root.index as int, relative_path@, 0);
        if rec is Ok {
            lemma_remove_spec_props(old(db)@, root.index as int, relative_path@, 0);
        } else {
            lemma_remove_spec_err_keeps_db(old(db)@, root.index as int, relative_path@, 0);
        }
    }
    r
}

pub proof fn lemma_remove_spec_err_keeps_db(
    db: Seq<ObjectV>,
    node: int,
    path: Seq<Seq<char>>,
    i: int,
)
    requires
        db_wf(db),
        remove_spec(db, node, path, i).1 is Err,
    ensures
        db_wf(remove_spec(db, node, path, i).0),
        db_extends(db, remove_spec(db, node, path, i).0),
    decreases path.len() - i,
{
    if !(0 <= node < db.len()) || !(db[node] is Tree) || i < 0 || i >= path.len() {
    } else {
        let es = db[node]->Tree_0;
        let name = encode_name(TreeEntryNameV::Child(path[i]));
        let j = find_entry(es, name);
        lemma_find_entry(es, name);
        if j < 0 || i == path.len() - 1 {
        } else {
            let child = es[j].oid;
            if 0 <= child < db.len() && db[child] is Tree {
                if remove_spec(db, child, path, i + 1).1 is Err {
                    lemma_remove_spec_err_keeps_db(db, child, path, i + 1);
                } else {
                    lemma_remove_spec_props(db, child, path, i + 1);
                }
            }
        }
    }
}

} // verus!
