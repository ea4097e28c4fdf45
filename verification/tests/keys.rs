use holt::key::SearchKey;

#[test]
fn user_key_has_virtual_terminator() {
    let key = SearchKey::user(b"abc");
    assert_eq!(key.len(), 4);
    assert_eq!(key.byte_at(0), Some(b'a'));
    assert_eq!(key.byte_at(3), Some(0));
    assert_eq!(key.byte_at(4), None);
    assert!(key.eq_slice(b"abc\0"));
}

#[test]
fn virtual_key_compares_across_terminator() {
    let key = SearchKey::user(b"abc");
    assert!(key.range_eq(2, b"c\0"));
    assert_eq!(key.common_prefix_with_slice(0, b"abc\0def"), 4);
    assert_eq!(key.common_prefix_with_slice(0, b"abcdef"), 3);
}

#[test]
fn a_fingerprint_depends_on_the_whole_key() {
    assert_eq!(SearchKey::exact(b"").fingerprint(), 8997);
    assert_eq!(SearchKey::user(b"hello").fingerprint(), 14769);
    assert_eq!(SearchKey::exact(b"hello\0").fingerprint(), 14769);
    assert_eq!(SearchKey::user(b"hellx").fingerprint(), 56334);
    assert!(SearchKey::user(b"hello").may_match(14769));
    assert!(SearchKey::user(b"hello").may_match(0));
    assert!(!SearchKey::user(b"hello").may_match(56334));
}
