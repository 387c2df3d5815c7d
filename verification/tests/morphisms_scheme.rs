use ewm_state_machine::morphisms::scheme::{key_scheme, key_sha1, scheme_key, NG};

#[test]
fn prefixed_keys_roundtrip() {
    let key = scheme_key(NG, "a".repeat(40).as_str());
    assert_eq!(key_scheme(&key), Some(NG));
    assert_eq!(key_sha1(&key), Some("aaaaaaaaaaaaaaaaaaaaaaaaaaaaaaaaaaaaaaaa"));
}

#[test]
fn bare_and_malformed_keys_are_rejected() {
    assert_eq!(key_scheme("h:aaaaaaaaaaaaaaaaaaaaaaaaaaaaaaaaaaaaaaaa"), None);
    assert_eq!(key_scheme("h:xx:aaaaaaaaaaaaaaaaaaaaaaaaaaaaaaaaaaaaaaaa"), Some("xx"));
    assert_eq!(key_sha1("not-a-key"), None);
}
