use bulk::database::Database;
use bulk::error::Error;
use bulk::names::TreeEntryName;
use bulk::objects::{FileMode, Oid, TreeEntry};
use bulk::shadow::{ContentHash, Shadow};
use bulk::snapshot::{SnapshotEntries, SnapshotEntry};
use bulk::traverse::{
    OnUnique, TraversalCallbacks, Visit, VisitBlob, VisitLink, VisitTree, VisitTreeDecision,
};

fn hash64(c: char) -> String {
    std::iter::repeat(c).take(64).collect()
}

fn parse_all(nodes: Vec<u8>, digests: Vec<u8>) -> Vec<SnapshotEntry> {
    let mut entries = SnapshotEntries::new(nodes, digests);
    let mut out = Vec::new();
    while let Some(e) = entries.next().unwrap() {
        out.push(e);
    }
    out
}

#[test]
fn plant_traverse_consistency() {
    // a snapshot with a nested directory, a file, a link, and a shared file
    let nodes = b"d 0755 ? .\x00 \x00\n\
f 0644 5 ./a.txt\x00 \x00\n\
d 0755 ? ./sub\x00 \x00\n\
f 0644 5 ./sub/b.txt\x00 \x00\n\
l 0777 ? ./sub/ln\x00 a.txt\x00\n"
        .to_vec();
    let digests = format!(
        "{} *./a.txt\x00\n{} *./sub/b.txt\x00\n",
        hash64('a'),
        hash64('a')
    )
    .into_bytes();
    let entries = parse_all(nodes, digests);
    assert_eq!(entries.len(), 5);

    let mut db = Database::new();
    let (mode, root) = db.plant_snapshot(&entries).unwrap();
    assert_eq!(mode, FileMode::Tree);

    // the planted tree passes check
    db.check(root).unwrap();

    // traversal yields each distinct blob once, at its first path; the two
    // identical file contents share one address, so only one is reported
    let blobs = db.unique_blobs(root).unwrap();
    assert_eq!(blobs.len(), 1);
    assert_eq!(blobs[0].0.to_string(), "a.txt");
    assert_eq!(blobs[0].1.content_hash().to_string(), hash64('a'));
    assert_eq!(blobs[0].1.size, Some(5));
}

#[test]
fn plant_rejects_bad_sequences() {
    let mut db = Database::new();
    // empty sequence
    assert_eq!(
        db.plant_snapshot(&Vec::new()).unwrap_err(),
        Error::InvalidEntrySequence
    );
    // first entry not the root
    let nodes = b"d 0755 ? ./sub\x00 \x00\n".to_vec();
    let entries = parse_all(nodes, Vec::new());
    assert_eq!(
        db.plant_snapshot(&entries).unwrap_err(),
        Error::InvalidEntrySequence
    );
    // an orphan entry whose parent never appears stays unconsumed
    let nodes = b"d 0755 ? .\x00 \x00\nf 0644 1 ./x/deep.txt\x00 \x00\n".to_vec();
    let digests = format!("{} *./x/deep.txt\x00\n", hash64('c')).into_bytes();
    let entries = parse_all(nodes, digests);
    assert_eq!(
        db.plant_snapshot(&entries).unwrap_err(),
        Error::InvalidEntrySequence
    );
}

#[test]
fn check_requires_marker() {
    // a tree whose first entry is not the marker fails check
    let mut db = Database::new();
    let shadow = Shadow::new(ContentHash::parse(&hash64('a')).unwrap(), Some(1));
    let blob = db.write_blob(shadow.to_bytes());
    let bad = db.write_tree(vec![TreeEntry {
        name: TreeEntryName::Child("a".to_string()).encode(),
        mode: FileMode::Blob,
        oid: blob,
    }]);
    assert_eq!(db.check(bad).unwrap_err(), Error::InvalidTreeStructure);

    // an empty tree fails too: the marker is how an empty directory exists
    let empty = db.write_tree(Vec::new());
    assert_eq!(db.check(empty).unwrap_err(), Error::InvalidTreeStructure);
}

#[test]
fn check_rejects_mismatched_kinds() {
    // a blob-mode entry pointing at a tree object is unsupported
    let mut db = Database::new();
    let eb = db.empty_blob_oid();
    let marker = || TreeEntryName::Marker.encode();
    let inner = db.write_tree(vec![TreeEntry {
        name: marker(),
        mode: FileMode::Blob,
        oid: eb,
    }]);
    let root = db.write_tree(vec![
        TreeEntry { name: marker(), mode: FileMode::Blob, oid: eb },
        TreeEntry {
            name: TreeEntryName::Child("x".to_string()).encode(),
            mode: FileMode::Blob,
            oid: inner,
        },
    ]);
    assert_eq!(db.check(root).unwrap_err(), Error::UnsupportedEntry);
}

#[test]
fn check_rejects_unknown_address() {
    let db = Database::new();
    assert_eq!(
        db.check(Oid { index: 7 }).unwrap_err(),
        Error::ObjectNotFound
    );
}

#[derive(Default)]
struct Counter {
    blobs: Vec<usize>,
    links: Vec<usize>,
    trees: Vec<usize>,
}

impl TraversalCallbacks for Counter {
    fn on_blob(&mut self, blob: &Visit<'_, VisitBlob>) -> Result<(), Error> {
        blob.read_blob()?;
        self.blobs.push(blob.oid().index);
        Ok(())
    }

    fn on_link(&mut self, link: &Visit<'_, VisitLink>) -> Result<(), Error> {
        link.read_link()?;
        self.links.push(link.oid().index);
        Ok(())
    }

    fn on_tree(&mut self, tree: &Visit<'_, VisitTree>) -> Result<VisitTreeDecision, Error> {
        self.trees.push(tree.oid().index);
        Ok(VisitTreeDecision::Descend)
    }
}

#[test]
fn engine_restores_path_on_failure() {
    // a blob whose body is not a shadow record makes the visitor's read
    // fail mid-walk; the path accumulator must come back unchanged
    let mut db = Database::new();
    let eb = db.empty_blob_oid();
    let junk = db.write_blob(b"not a shadow record".to_vec());
    let root = db.write_tree(vec![
        TreeEntry {
            name: TreeEntryName::Marker.encode(),
            mode: FileMode::Blob,
            oid: eb,
        },
        TreeEntry {
            name: TreeEntryName::Child("bad".to_string()).encode(),
            mode: FileMode::Blob,
            oid: junk,
        },
        TreeEntry {
            name: TreeEntryName::Child("weird".to_string()).encode(),
            mode: FileMode::Link,
            oid: junk,
        },
    ]);

    let mut callbacks = Counter::default();
    let mut traverser = db.traverser(&mut callbacks);
    let mut path = bulk::paths::BulkPath::new();
    path.push("prefix".to_string());
    let err = traverser.traverse_from(&mut path, root).unwrap_err();
    // read_blob reports exactly why it failed, and the accumulator is
    // restored on the early error return
    assert_eq!(err, Error::MalformedShadow);
    assert_eq!(path.to_string(), "prefix");

    // a link whose body is not text fails with the structural error
    let text = db.write_blob(vec![0xff, 0xfe]);
    let root2 = db.write_tree(vec![
        TreeEntry {
            name: TreeEntryName::Marker.encode(),
            mode: FileMode::Blob,
            oid: eb,
        },
        TreeEntry {
            name: TreeEntryName::Child("ln".to_string()).encode(),
            mode: FileMode::Link,
            oid: text,
        },
    ]);
    let mut callbacks = Counter::default();
    let mut traverser = db.traverser(&mut callbacks);
    let mut path = bulk::paths::BulkPath::new();
    let err = traverser.traverse_from(&mut path, root2).unwrap_err();
    assert_eq!(err, Error::InvalidTreeStructure);
    assert_eq!(path.to_string(), ".");
}

#[test]
fn dedup_adapter_visits_each_address_once() {
    // one subtree referenced from two sibling positions
    let mut db = Database::new();
    let eb = db.empty_blob_oid();
    let marker = || TreeEntryName::Marker.encode();
    let shadow = Shadow::new(ContentHash::parse(&hash64('d')).unwrap(), Some(2));
    let blob = db.write_blob(shadow.to_bytes());
    let sub = db.write_tree(vec![
        TreeEntry { name: marker(), mode: FileMode::Blob, oid: eb },
        TreeEntry {
            name: TreeEntryName::Child("f".to_string()).encode(),
            mode: FileMode::Blob,
            oid: blob,
        },
    ]);
    let root = db.write_tree(vec![
        TreeEntry { name: marker(), mode: FileMode::Blob, oid: eb },
        TreeEntry {
            name: TreeEntryName::Child("one".to_string()).encode(),
            mode: FileMode::Tree,
            oid: sub,
        },
        TreeEntry {
            name: TreeEntryName::Child("two".to_string()).encode(),
            mode: FileMode::Tree,
            oid: sub,
        },
    ]);

    let mut callbacks = OnUnique::new(Counter::default());
    db.traverser(&mut callbacks).traverse(root).unwrap();
    let counter = callbacks.into_inner();

    // the shared subtree and its blob are each visited exactly once,
    // however many paths reach them
    assert_eq!(counter.trees, vec![root.index, sub.index]);
    assert_eq!(counter.blobs, vec![blob.index]);
    assert_eq!(counter.links, Vec::<usize>::new());

    // and unique_blobs reports the shared content once, at its first path
    let blobs = db.unique_blobs(root).unwrap();
    assert_eq!(blobs.len(), 1);
    assert_eq!(blobs[0].0.to_string(), "one/f");
}
