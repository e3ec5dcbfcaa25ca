use vstd::prelude::*;

use crate::edit;
use crate::error::Error;
use crate::objects::{FileMode, ObjectDb, ObjectV, Oid};
use crate::paths::{BulkPath, ShadowPath};
use crate::plant;
use crate::shadow::Shadow;
use crate::snapshot::SnapshotEntry;
use crate::traverse;

verus! {

/// The orchestrator: a content-addressed object database together with the
/// snapshot, traversal, and tree-edit operations over it.
#[derive(Debug)]
pub struct Database {
    objects: ObjectDb,
}

impl View for Database {
    type V = Seq<ObjectV>;

    closed spec fn view(&self) -> Seq<ObjectV> {
        self.objects@
    }
}

impl Database {
    pub open spec fn wf(&self) -> bool {
        crate::objects::db_wf(self@)
    }

    pub fn new() -> (r: Database)
        ensures
            r@ == Seq::<ObjectV>::empty(),
            r.wf(),
    {
        Database { objects: ObjectDb::new() }
    }

    /// The underlying object store.
    pub fn objects(&self) -> (r: &ObjectDb)
        ensures
            r@ == self@,
            self.wf() ==> r.wf(),
    {
        &self.objects
    }

    /// Writes a blob, returning its content address (idempotent).
    pub fn write_blob(&mut self, bytes: Vec<u8>) -> (r: Oid)
        requires
            old(self).wf(),
        ensures
            final(self).wf(),
            crate::objects::db_extends(old(self)@, final(self)@),
            r.index < final(self)@.len(),
            final(self)@[r.index as int] == ObjectV::Blob(bytes@),
            (exists|i: int| 0 <= i < old(self)@.len() && old(self)@[i] == ObjectV::Blob(bytes@))
                ==> final(self)@ == old(self)@,
    {
        self.objects.write(crate::objects::Object::Blob(bytes))
    }

    /// Writes a tree, returning its content address (idempotent).
    pub fn write_tree(&mut self, entries: Vec<crate::objects::TreeEntry>) -> (r: Oid)
        requires
            old(self).wf(),
            crate::objects::obj_refs_below(
                ObjectV::Tree(entries.deep_view()),
                old(self)@.len() as int,
            ),
        ensures
            final(self).wf(),
            crate::objects::db_extends(old(self)@, final(self)@),
            r.index < final(self)@.len(),
            final(self)@[r.index as int] == ObjectV::Tree(entries.deep_view()),
            (exists|i: int|
                0 <= i < old(self)@.len() && old(self)@[i] == ObjectV::Tree(entries.deep_view()))
                ==> final(self)@ == old(self)@,
    {
        let ghost obj = ObjectV::Tree(entries.deep_view());
        let r = self.objects.write(crate::objects::Object::Tree(entries));
        r
    }

    /// The address of the empty blob, writing it if it is not yet present.
    pub fn empty_blob_oid(&mut self) -> (r: Oid)
        requires
            old(self).wf(),
        ensures
            final(self).wf(),
            crate::objects::db_extends(old(self)@, final(self)@),
            r.index < final(self)@.len(),
            final(self)@[r.index as int] == ObjectV::Blob(Seq::<u8>::empty()),
    {
        let empty: Vec<u8> = Vec::new();
        proof {
            assert(empty@ =~= Seq::<u8>::empty());
        }
        self.objects.write(crate::objects::Object::Blob(empty))
    }

    /// Builds a shadow tree bottom-up from a parsed snapshot entry
    /// sequence.  See [`plant::plant_snapshot`].
    pub fn plant_snapshot(&mut self, entries: &Vec<SnapshotEntry>) -> (r: Result<
        (FileMode, Oid),
        Error,
    >)
        requires
            old(self).wf(),
        ensures
            final(self).wf(),
            ({
                let (db2, rec) = plant::plant_snapshot_spec(old(self)@, entries.deep_view());
                &&& final(self)@ == db2
                &&& match rec {
                    Ok((m, o)) => r matches Ok(x) && x.0 == m && x.1.index == o,
                    Err(e) => r == Err::<(FileMode, Oid), Error>(e),
                }
            }),
    {
        plant::plant_snapshot(&mut self.objects, entries)
    }

    /// Validates a whole tree, visiting each shared object exactly once.
    /// See [`traverse::check_tree`].
    pub fn check(&self, tree: Oid) -> (r: Result<(), Error>)
        requires
            self.wf(),
        ensures
            (r is Ok) == (traverse::check_walk(self@, tree.index as int, Set::empty()) is Ok),
            r matches Err(e) ==> traverse::check_walk(self@, tree.index as int, Set::empty())
                == Err::<Set<int>, Error>(e),
    {
        traverse::check_tree(&self.objects, tree)
    }

    /// Enumerates each distinct blob exactly once with its first path and
    /// decoded shadow.  See [`traverse::unique_blobs`].
    pub fn unique_blobs(&self, tree: Oid) -> (r: Result<Vec<(BulkPath, Shadow)>, Error>)
        requires
            self.wf(),
        ensures
            match traverse::shadows_walk(self@, Seq::empty(), tree.index as int, Set::empty()) {
                Ok((items, _)) => r matches Ok(v) && v@.len() == items.len() && (forall|a: int|
                    0 <= a < items.len() ==> (#[trigger] v@[a]).0@ == items[a].0 && v@[a].1@
                        == items[a].1),
                Err(e) => r == Err::<Vec<(BulkPath, Shadow)>, Error>(e),
            },
    {
        traverse::unique_blobs(&self.objects, tree)
    }

    /// Grafts `(mode, object)` at `relative_path` under `big_tree`,
    /// copy-on-write.  See [`edit::append`].
    pub fn append(
        &mut self,
        big_tree: Oid,
        relative_path: &ShadowPath,
        mode: FileMode,
        object: Oid,
        force: bool,
    ) -> (r: Result<Oid, Error>)
        requires
            old(self).wf(),
            relative_path@.len() >= 1,
            object.index < old(self)@.len(),
        ensures
            final(self).wf(),
            ({
                let (db1, rec) = edit::append_spec(
                    old(self)@,
                    big_tree.index as int,
                    relative_path@,
                    0,
                    mode,
                    object.index as int,
                    force,
                );
                &&& final(self)@ == db1
                &&& match rec {
                    Ok(t) => r matches Ok(x) && x.index == t,
                    Err(e) => r == Err::<Oid, Error>(e),
                }
            }),
    {
        edit::append(&mut self.objects, big_tree, relative_path, mode, object, force)
    }

    /// Excises the entry at `relative_path` under `big_tree`, copy-on-write.
    /// See [`edit::remove`].
    pub fn remove(&mut self, big_tree: Oid, relative_path: &ShadowPath) -> (r: Result<Oid, Error>)
        requires
            old(self).wf(),
            relative_path@.len() >= 1,
        ensures
            final(self).wf(),
            ({
                let (db1, rec) = edit::remove_spec(
                    old(self)@,
                    big_tree.index as int,
                    relative_path@,
                    0,
                );
                &&& final(self)@ == db1
                &&& match rec {
                    Ok(t) => r matches Ok(x) && x.index == t,
                    Err(e) => r == Err::<Oid, Error>(e),
                }
            }),
    {
        edit::remove(&mut self.objects, big_tree, relative_path)
    }

    /// A generic traversal of this database driven by the given visitor.
    pub fn traverser<'a, T: traverse::TraversalCallbacks>(
        &'a self,
        callbacks: &'a mut T,
    ) -> (r: traverse::Traverser<'a, T>)
        requires
            self.wf(),
        ensures
            r.db_wf(),
    {
        traverse::Traverser::new(&self.objects, callbacks)
    }
}

} // verus!
