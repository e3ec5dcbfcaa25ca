use bulk::database::Database;
use bulk::error::Error;
use bulk::names::TreeEntryName;
use bulk::objects::{FileMode, Oid, TreeEntry};
use bulk::paths::ShadowPath;
use bulk::shadow::{ContentHash, Shadow};

fn hash64(c: char) -> String {
    std::iter::repeat(c).take(64).collect()
}

fn empty_root(db: &mut Database) -> Oid {
    let eb = db.empty_blob_oid();
    db.write_tree(vec![TreeEntry {
        name: TreeEntryName::Marker.encode(),
        mode: FileMode::Blob,
        oid: eb,
    }])
}

fn shadow_blob(db: &mut Database, c: char) -> Oid {
    let shadow = Shadow::new(ContentHash::parse(&hash64(c)).unwrap(), Some(1));
    db.write_blob(shadow.to_bytes())
}

#[test]
fn append_force_semantics() {
    // appending at ["x", "y"] into an empty root: the second non-forced
    // call fails, the forced call returns the same address as the first
    let mut db = Database::new();
    let root = empty_root(&mut db);
    let object = shadow_blob(&mut db, 'a');
    let path = ShadowPath::parse("x/y").unwrap();

    let first = db
        .append(root, &path, FileMode::Blob, object, false)
        .unwrap();
    assert_eq!(
        db.append(first, &path, FileMode::Blob, object, false)
            .unwrap_err(),
        Error::EntryAlreadyExists
    );
    let second = db
        .append(first, &path, FileMode::Blob, object, true)
        .unwrap();
    assert_eq!(first, second);
}

#[test]
fn append_overwrite_idempotent() {
    let mut db = Database::new();
    let root = empty_root(&mut db);
    let object = shadow_blob(&mut db, 'b');
    let path = ShadowPath::parse("dir/file").unwrap();

    let once = db.append(root, &path, FileMode::Blob, object, true).unwrap();
    let len_after_once = db.objects().len();
    let twice = db.append(once, &path, FileMode::Blob, object, true).unwrap();
    assert_eq!(once, twice);
    // the second call wrote nothing: identical content, identical address
    assert_eq!(db.objects().len(), len_after_once);
}

#[test]
fn remove_undoes_append() {
    // with the intermediate directory already present, remove after a
    // non-colliding append restores the original address
    let mut db = Database::new();
    let inner = empty_root(&mut db);
    let eb = db.empty_blob_oid();
    let root = db.write_tree(vec![
        TreeEntry {
            name: TreeEntryName::Marker.encode(),
            mode: FileMode::Blob,
            oid: eb,
        },
        TreeEntry {
            name: TreeEntryName::Child("x".to_string()).encode(),
            mode: FileMode::Tree,
            oid: inner,
        },
    ]);
    let object = shadow_blob(&mut db, 'c');
    let path = ShadowPath::parse("x/y").unwrap();

    let appended = db
        .append(root, &path, FileMode::Blob, object, false)
        .unwrap();
    assert_ne!(appended, root);
    let restored = db.remove(appended, &path).unwrap();
    assert_eq!(restored, root);
}

#[test]
fn remove_missing_entry_fails() {
    let mut db = Database::new();
    let root = empty_root(&mut db);
    let path = ShadowPath::parse("nope").unwrap();
    assert_eq!(db.remove(root, &path).unwrap_err(), Error::EntryNotFound);
    let deep = ShadowPath::parse("a/b").unwrap();
    assert_eq!(db.remove(root, &deep).unwrap_err(), Error::EntryNotFound);
}

#[test]
fn append_creates_intermediate_directories() {
    let mut db = Database::new();
    let root = empty_root(&mut db);
    let object = shadow_blob(&mut db, 'e');
    let path = ShadowPath::parse("a/b/c").unwrap();
    let new_root = db
        .append(root, &path, FileMode::Blob, object, false)
        .unwrap();
    // the created levels carry their markers, so the result checks clean
    db.check(new_root).unwrap();
    let blobs = db.unique_blobs(new_root).unwrap();
    assert_eq!(blobs.len(), 1);
    assert_eq!(blobs[0].0.to_string(), "a/b/c");
}
