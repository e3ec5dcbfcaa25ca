use bulk::error::Error;
use bulk::names::TreeEntryName;
use bulk::shadow::{ContentHash, Shadow};

#[test]
fn name_roundtrip() {
    let n = TreeEntryName::Child("hello".to_string());
    let encoded = n.encode();
    assert_eq!(encoded, "1hello");
    let decoded = TreeEntryName::decode(&encoded).unwrap();
    assert_eq!(decoded, n);
}

#[test]
fn name_marker_form() {
    assert_eq!(TreeEntryName::Marker.encode(), "0");
    let decoded = TreeEntryName::decode("0").unwrap();
    assert!(decoded.is_marker());
    // no component ever encodes to the marker form: even a component that
    // spells the marker is escaped
    let tricky = TreeEntryName::Child("0".to_string());
    assert_eq!(tricky.encode(), "10");
    assert_ne!(tricky.encode(), "0");
}

#[test]
fn name_rejects_reserved_collisions() {
    assert_eq!(
        TreeEntryName::decode("00").unwrap_err(),
        Error::ReservedNameCollision
    );
    assert_eq!(
        TreeEntryName::decode("x").unwrap_err(),
        Error::ReservedNameCollision
    );
    assert_eq!(
        TreeEntryName::decode("").unwrap_err(),
        Error::ReservedNameCollision
    );
}

#[test]
fn marker_sorts_first() {
    // the marker occupies the sort position before any escaped name
    let marker = TreeEntryName::Marker.encode();
    let a = TreeEntryName::Child("".to_string()).encode();
    let b = TreeEntryName::Child("zzz".to_string()).encode();
    assert!(marker < a);
    assert!(marker < b);
}

fn hash64(c: char) -> String {
    std::iter::repeat(c).take(64).collect()
}

#[test]
fn shadow_roundtrip_with_size() {
    let hash = ContentHash::parse(&hash64('a')).unwrap();
    let shadow = Shadow::new(hash, Some(5));
    let bytes = shadow.to_bytes();
    let mut expected = hash64('a').into_bytes();
    expected.extend_from_slice(b" 5");
    assert_eq!(bytes, expected);
    let back = Shadow::from_bytes(&bytes).unwrap();
    assert_eq!(back, shadow);
}

#[test]
fn shadow_roundtrip_without_size() {
    let hash = ContentHash::parse(&hash64('0')).unwrap();
    let shadow = Shadow::new(hash, None);
    let bytes = shadow.to_bytes();
    let mut expected = hash64('0').into_bytes();
    expected.extend_from_slice(b" ?");
    assert_eq!(bytes, expected);
    let back = Shadow::from_bytes(&bytes).unwrap();
    assert_eq!(back, shadow);
}

#[test]
fn shadow_rejects_malformed() {
    // bad digest length
    assert_eq!(
        Shadow::from_bytes(&b"abc 5".to_vec()).unwrap_err(),
        Error::MalformedShadow
    );
    // uppercase hex digit
    let mut bad = hash64('a').into_bytes();
    bad[0] = b'A';
    bad.extend_from_slice(b" 5");
    assert_eq!(Shadow::from_bytes(&bad).unwrap_err(), Error::MalformedShadow);
    // a leading zero is not the canonical decimal form
    let mut lz = hash64('a').into_bytes();
    lz.extend_from_slice(b" 05");
    assert_eq!(Shadow::from_bytes(&lz).unwrap_err(), Error::MalformedShadow);
    // missing size field
    let mut ns = hash64('a').into_bytes();
    ns.extend_from_slice(b" ");
    assert_eq!(Shadow::from_bytes(&ns).unwrap_err(), Error::MalformedShadow);
}

#[test]
fn content_hash_rejects_bad_digests() {
    assert!(ContentHash::parse(&hash64('g')).is_err());
    assert!(ContentHash::parse(&hash64('?')).is_err());
    assert!(ContentHash::parse("abc").is_err());
    let h = ContentHash::parse(&hash64('f')).unwrap();
    assert_eq!(h.to_string(), hash64('f'));
}
