use std::collections::BTreeSet;

use ewm_state_machine::hashing::BitAddress;
use ewm_state_machine::hllset::HLLSet;
use ewm_state_machine::lut::LutIndex;
use ewm_state_machine::machine::token::{token_in_bytes, token_in_bytes_le};
use ewm_state_machine::morphisms::ingest::Ingest;
use ewm_state_machine::morphisms::materialize::materialize;

fn sorted(tokens: &[Vec<u8>]) -> Vec<Vec<u8>> {
    let set: BTreeSet<Vec<u8>> = tokens.iter().cloned().collect();
    set.into_iter().collect()
}

#[test]
fn collided_bit_keeps_all_candidates() {
    let mut ingest = Ingest::new();
    // tid262LE and tid48300LE collide at (759, 0) under seed 0.
    let a = token_in_bytes_le(262).to_vec();
    let b = token_in_bytes_le(48_300).to_vec();
    ingest.ingest_token(&a);
    ingest.ingest_token(&a); // TF(a) = 2
    ingest.ingest_token(&b); // TF(b) = 1

    let mut sketch = HLLSet::new();
    sketch.add_bit(759 * 32 + 0);

    // No TF filtering: both references to the collided bit survive.
    let restored = materialize(&[(&sketch, ingest.lut(0))]);
    assert_eq!(
        restored.to_vec(),
        sorted(&[a.clone(), b.clone()]),
        "a collided bit restores every candidate"
    );
}

#[test]
fn unambiguous_bit_restores_the_pointed_token() {
    let mut ingest = Ingest::new();
    let rare = token_in_bytes(1);
    let frequent = token_in_bytes(2);
    ingest.ingest_token(&rare);
    for _ in 0..100 {
        ingest.ingest_token(&frequent);
    }

    // A sketch containing only `rare`'s seed-0 atom restores `rare`.
    let mut sketch = HLLSet::new();
    let rare_bit = BitAddress::of_token_seeded(&rare, 0).bit();
    sketch.add_bit(rare_bit);

    let restored = materialize(&[(&sketch, ingest.lut(0))]);
    assert_eq!(restored.to_vec(), sorted(&[rare]));
}

#[test]
fn tokens_outside_the_luts_never_appear() {
    let mut ingest = Ingest::new();
    let in_lut = token_in_bytes(5);
    let outside = token_in_bytes(6);
    ingest.ingest_token(&in_lut);
    // `outside` gets a huge TF but is removed from all LUTs.
    for _ in 0..1000 {
        ingest.ingest_token(&outside);
    }
    // Rebuild a LUT containing only `in_lut`.
    let mut lut_only_in = LutIndex::new();
    lut_only_in.insert_token(in_lut.clone());

    let mut sketch = HLLSet::new();
    let bit = BitAddress::of_token_seeded(&in_lut, 0).bit();
    sketch.add_bit(bit);

    let restored = materialize(&[(&sketch, &lut_only_in)]);
    assert_eq!(restored.to_vec(), sorted(&[in_lut]), "TF cannot conjure tokens absent from the LUTs");
}

#[test]
fn candidates_come_from_all_pointed_luts() {
    let ingest = Ingest::new();
    let t0 = token_in_bytes(10);
    let t1 = token_in_bytes(20);
    let t2 = token_in_bytes(30);

    // One sketch + LUT pair per encoding; each token appears in its own
    // encoding's LUT only.
    let mut s0 = HLLSet::new();
    s0.add_bit(BitAddress::of_token_seeded(&t0, 0).bit());
    let mut l0 = LutIndex::new();
    l0.insert_token_seeded(t0.clone(), 0);

    let mut s1 = HLLSet::new();
    s1.add_bit(BitAddress::of_token_seeded(&t1, 1).bit());
    let mut l1 = LutIndex::new();
    l1.insert_token_seeded(t1.clone(), 1);

    let mut s2 = HLLSet::new();
    s2.add_bit(BitAddress::of_token_seeded(&t2, 2).bit());
    let mut l2 = LutIndex::new();
    l2.insert_token_seeded(t2.clone(), 2);

    // Only when all three LUTs are pointed are all three restored.
    let all = materialize(&[(&s0, &l0), (&s1, &l1), (&s2, &l2)]);
    assert_eq!(all.to_vec(), sorted(&[t0.clone(), t1.clone(), t2.clone()]));
    let only_l0 = materialize(&[(&s0, &l0)]);
    assert_eq!(only_l0.to_vec(), sorted(&[t0]));
}
