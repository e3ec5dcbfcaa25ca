use bulk::error::Error;
use bulk::snapshot::{Snapshot, SnapshotEntries, SnapshotEntryValue};

fn hash64(c: char) -> String {
    std::iter::repeat(c).take(64).collect()
}

#[test]
fn parse_tree_and_file() {
    let nodes = b"d 0755 ? .\x00 \x00\nf 0644 5 ./a.txt\x00 \x00\n".to_vec();
    let digests = format!("{} *./a.txt\x00\n", hash64('a')).into_bytes();
    let mut entries = SnapshotEntries::new(nodes, digests);

    let first = entries.next().unwrap().unwrap();
    assert_eq!(first.path.components().len(), 0);
    assert!(matches!(first.value, SnapshotEntryValue::Tree));

    let second = entries.next().unwrap().unwrap();
    assert_eq!(second.path.to_string(), "a.txt");
    match &second.value {
        SnapshotEntryValue::File { shadow, executable } => {
            assert_eq!(shadow.content_hash().to_string(), hash64('a'));
            assert_eq!(shadow.size, Some(5));
            assert!(!executable);
        }
        other => panic!("unexpected value: {:?}", other),
    }

    assert!(entries.next().unwrap().is_none());
}

#[test]
fn parse_link_and_executable() {
    let nodes = b"l 0777 ? ./ln\x00 target\x00\nf 0755 3 ./run\x00 \x00\n".to_vec();
    let digests = format!("{} *./run\x00\n", hash64('b')).into_bytes();
    let mut entries = SnapshotEntries::new(nodes, digests);

    let link = entries.next().unwrap().unwrap();
    assert_eq!(link.path.to_string(), "ln");
    match &link.value {
        SnapshotEntryValue::Link { target } => assert_eq!(target, "target"),
        other => panic!("unexpected value: {:?}", other),
    }

    let exe = entries.next().unwrap().unwrap();
    match &exe.value {
        SnapshotEntryValue::File { executable, .. } => assert!(*executable),
        other => panic!("unexpected value: {:?}", other),
    }
}

#[test]
fn skips_unsupported_node_types() {
    let nodes = b"c 0644 ? ./dev\x00 \x00\nd 0755 ? .\x00 \x00\n".to_vec();
    let mut entries = SnapshotEntries::new(nodes, Vec::new());
    let first = entries.next().unwrap().unwrap();
    assert!(matches!(first.value, SnapshotEntryValue::Tree));
    assert!(entries.next().unwrap().is_none());
}

#[test]
fn desynchronized_streams_fail() {
    // the digests record's path does not match the nodes record's path
    let nodes = b"f 0644 5 ./a.txt\x00 \x00\n".to_vec();
    let digests = format!("{} *./b.txt\x00\n", hash64('a')).into_bytes();
    let mut entries = SnapshotEntries::new(nodes, digests);
    assert_eq!(entries.next().unwrap_err(), Error::StreamDesynchronized);

    // a file record with the digests stream exhausted
    let nodes = b"f 0644 5 ./a.txt\x00 \x00\n".to_vec();
    let mut entries = SnapshotEntries::new(nodes, Vec::new());
    assert_eq!(entries.next().unwrap_err(), Error::StreamDesynchronized);
}

#[test]
fn malformed_records_fail() {
    // unknown type tag
    let mut e = SnapshotEntries::new(b"q 0644 5 ./a\x00 \x00\n".to_vec(), Vec::new());
    assert_eq!(e.next().unwrap_err(), Error::MalformedRecord);
    // too few mode digits
    let mut e = SnapshotEntries::new(b"d 05 ? .\x00 \x00\n".to_vec(), Vec::new());
    assert_eq!(e.next().unwrap_err(), Error::MalformedRecord);
    // non-octal mode digit
    let mut e = SnapshotEntries::new(b"d 0958 ? .\x00 \x00\n".to_vec(), Vec::new());
    assert_eq!(e.next().unwrap_err(), Error::MalformedRecord);
    // missing terminators
    let mut e = SnapshotEntries::new(b"d 0755 ? .\n".to_vec(), Vec::new());
    assert_eq!(e.next().unwrap_err(), Error::MalformedRecord);
    // bad digest record
    let nodes = b"f 0644 5 ./a\x00 \x00\n".to_vec();
    let mut e = SnapshotEntries::new(nodes, b"zz *./a\x00\n".to_vec());
    assert_eq!(e.next().unwrap_err(), Error::MalformedRecord);
}

#[test]
fn parse_decodes_multibyte_paths() {
    // a path outside ASCII round-trips through the byte streams
    let nodes = b"d 0755 ? ./caf\xc3\xa9\x00 \x00\n".to_vec();
    let mut entries = SnapshotEntries::new(nodes, Vec::new());
    let entry = entries.next().unwrap().unwrap();
    assert_eq!(entry.path.to_string(), "caf\u{e9}");
    // while invalid UTF-8 in a path is rejected
    let bad = b"d 0755 ? ./a\xff\x00 \x00\n".to_vec();
    let mut entries = SnapshotEntries::new(bad, Vec::new());
    assert_eq!(entries.next().unwrap_err(), Error::MalformedRecord);
}

#[test]
fn snapshot_stream_locations() {
    let s = Snapshot::new("/tmp/snap");
    assert_eq!(s.path(), "/tmp/snap");
    assert_eq!(s.nodes_path(), "/tmp/snap/nodes");
    assert_eq!(s.digests_path(), "/tmp/snap/digests");
}
