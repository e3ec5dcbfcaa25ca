use bulk::error::Error;
use bulk::paths::{BulkPath, ShadowPath};

#[test]
fn parse_root_dot() {
    let p = ShadowPath::parse(".").unwrap();
    assert_eq!(p.components().len(), 0);
    assert_eq!(p.to_string(), ".");
}

#[test]
fn parse_single_component_roundtrip() {
    let p = ShadowPath::parse("a.txt").unwrap();
    assert_eq!(p.components(), &vec!["a.txt".to_string()]);
    let s = p.to_string();
    assert_eq!(s, "a.txt");
    let q = ShadowPath::parse(&s).unwrap();
    assert_eq!(p, q);
}

#[test]
fn parse_multi_component_roundtrip() {
    let p = ShadowPath::parse("a/b/c").unwrap();
    assert_eq!(
        p.components(),
        &vec!["a".to_string(), "b".to_string(), "c".to_string()]
    );
    assert_eq!(p.to_string(), "a/b/c");
    assert_eq!(ShadowPath::parse(&p.to_string()).unwrap(), p);
}

#[test]
fn parse_dot_slash_prefix() {
    let p = ShadowPath::parse("./a.txt").unwrap();
    assert_eq!(p.components(), &vec!["a.txt".to_string()]);
}

#[test]
fn parse_rejects_empty_component() {
    assert_eq!(ShadowPath::parse("a//b").unwrap_err(), Error::InvalidPath);
    assert_eq!(ShadowPath::parse("").unwrap_err(), Error::InvalidPath);
    assert_eq!(ShadowPath::parse("a/").unwrap_err(), Error::InvalidPath);
    assert_eq!(ShadowPath::parse("/a").unwrap_err(), Error::InvalidPath);
}

#[test]
fn bulk_path_push_pop() {
    let mut p = BulkPath::new();
    assert_eq!(p.to_string(), ".");
    p.push("x".to_string());
    p.push("y".to_string());
    assert_eq!(p.to_string(), "x/y");
    p.pop();
    assert_eq!(p.to_string(), "x");
}

#[test]
fn child_relation() {
    let parent = ShadowPath::parse("a/b").unwrap();
    let child = ShadowPath::parse("a/b/c").unwrap();
    let other = ShadowPath::parse("a/x/c").unwrap();
    assert!(child.is_child_of(&parent));
    assert!(!other.is_child_of(&parent));
    assert!(!parent.is_child_of(&child));
}
