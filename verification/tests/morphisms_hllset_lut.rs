use ewm_state_machine::morphisms::hllset_lut::HllsetLut;

#[test]
fn register_is_idempotent_and_touch_is_monotonic() {
    let mut lut = HllsetLut::new();
    lut.register("h:aaa");
    lut.register("h:aaa");
    assert_eq!(lut.len(), 1);
    assert_eq!(lut.th("h:aaa"), 0);
    lut.touch("h:aaa");
    lut.touch("h:aaa");
    assert_eq!(lut.th("h:aaa"), 2, "each touch counts");
}

#[test]
fn ranks_by_th_then_key() {
    let mut lut = HllsetLut::new();
    lut.touch("h:a");
    lut.touch("h:b");
    lut.touch("h:b");
    let ranked = lut.ranked();
    assert_eq!(ranked[0], ("h:b".to_string(), 2));
    assert_eq!(ranked[1], ("h:a".to_string(), 1));
}

#[test]
fn merge_is_pointwise_max() {
    let mut a = HllsetLut::new();
    a.touch("h:x");
    a.touch("h:x");
    a.touch("h:y");
    let mut b = HllsetLut::new();
    b.touch("h:x");
    b.touch("h:y");
    b.touch("h:y");
    b.touch("h:y");
    a.merge(&b);
    assert_eq!(a.th("h:x"), 2, "max(2, 1)");
    assert_eq!(a.th("h:y"), 3, "max(1, 3)");
}
