use ewm_state_machine::machine::token::TokenEncoding;

#[test]
fn tid_and_le_roundtrip_explicitly() {
    // Explicit: this test uses BOTH encodings, one assertion each.
    let tid = TokenEncoding::Tid;
    assert_eq!(tid.encode(44), b"tid44");
    assert_eq!(tid.parse(b"tid44"), Some(44));

    let le = TokenEncoding::Le;
    assert_eq!(le.encode(44), [44, 0, 0, 0]);
    assert_eq!(le.parse(&[44, 0, 0, 0]), Some(44));

    // Cross-parse fails by construction: neither inscription is the other.
    assert_eq!(tid.parse(&[44, 0, 0, 0]), None);
    assert_eq!(le.parse(b"tid44"), None);
}
