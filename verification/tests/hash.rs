use engine::content_hash;

#[test]
fn content_hashes_are_fnv1a_64_in_hex() {
    assert_eq!(content_hash(b""), "cbf29ce484222325");
    assert_eq!(content_hash(b"a"), "af63dc4c8601ec8c");
    assert_eq!(content_hash(b"foobar"), "85944171f73967e8");
}
