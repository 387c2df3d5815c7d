use ewm_state_machine::git::object::ObjectId;
use ewm_state_machine::git::registry::{BitTf, HllsetLut};
use ewm_state_machine::hllset::HLLSet;

fn hll(tokens: &[&str]) -> HLLSet {
    HLLSet::from_tokens(&bytes(tokens))
}

fn bytes(tokens: &[&str]) -> Vec<Vec<u8>> {
    tokens.iter().map(|t| t.as_bytes().to_vec()).collect()
}

#[test]
fn hllset_lut_registers_idempotently_and_counts_touches() {
    let id = ObjectId::of_bytes(b"hllset");
    let mut lut = HllsetLut::new();
    lut.register(&id);
    lut.register(&id);
    assert_eq!(lut.len(), 1);
    assert_eq!(lut.th(&id), 0);
    lut.touch(&id);
    lut.touch(&id);
    assert_eq!(lut.th(&id), 2, "each touch counts");
}

#[test]
fn hllset_lut_ranks_by_th() {
    let a = ObjectId::of_bytes(b"a");
    let b = ObjectId::of_bytes(b"b");
    let mut lut = HllsetLut::new();
    lut.touch(&a);
    lut.touch(&b);
    lut.touch(&b);
    let ranked = lut.ranked();
    assert_eq!(ranked[0], (b, 2));
    assert_eq!(ranked[1], (a, 1));
}

#[test]
fn bit_tf_touches_are_monotonic_and_merge() {
    let mut tf = BitTf::new();
    let set = hll(&["a", "b"]);
    tf.touch(&set);
    tf.touch(&set);
    assert_eq!(tf.active_bits(), set.popcount() as usize);
    assert_eq!(tf.total() as f64, 2.0 * set.popcount() as f64);

    let mut tf2 = BitTf::new();
    tf2.touch(&hll(&["b", "c"]));
    tf.merge(&tf2);
    assert!(tf.total() as f64 >= 2.0 * set.popcount() as f64, "merge is monotonic");
}

#[test]
fn bit_tf_roundtrip() {
    let mut tf = BitTf::new();
    tf.touch(&hll(&["round", "trip"]));
    let bytes = tf.to_bytes();
    let restored = BitTf::from_bytes(&bytes).unwrap();
    assert_eq!(restored, tf);
}
