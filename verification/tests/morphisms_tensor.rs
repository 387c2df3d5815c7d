use std::collections::BTreeSet;

use ewm_state_machine::morphisms::api::gate;
use ewm_state_machine::morphisms::tensor::{
    ingest_tensor, materialize_tensor, materialize_tensor_beam, materialize_tensor_no_order, Tensor,
};

fn tok(s: &str) -> Vec<u8> {
    s.as_bytes().to_vec()
}

fn sorted(tokens: &[Vec<u8>]) -> Vec<Vec<u8>> {
    let set: BTreeSet<Vec<u8>> = tokens.iter().cloned().collect();
    set.into_iter().collect()
}

#[test]
fn tensor_roundtrip_2x2x2_volume() {
    let cells: Vec<Vec<u8>> = ["a", "b", "c", "d", "e", "f", "g", "h"]
        .iter()
        .map(|s| tok(s))
        .collect();
    let t = Tensor::new(vec![2, 2, 2], cells);
    let ing = ingest_tensor(&t);
    assert_eq!(materialize_tensor(&ing), t, "2×2×2 restores exactly");
    assert_eq!(materialize_tensor_beam(&ing, 2), t, "beam-2 agrees");
}

#[test]
fn tensor_roundtrip_rgb_like_4x4x3() {
    // A small RGB-like volume with repeats: cell (r, c, ch) -> tid.
    let cells: Vec<Vec<u8>> = (0..4 * 4 * 3)
        .map(|i| {
            let ch = i % 3;
            let c = (i / 3) % 4;
            let r = i / 12;
            format!("tid{}", (r * 7 + c * 5 + ch * 3) % 20).into_bytes()
        })
        .collect();
    let t = Tensor::new(vec![4, 4, 3], cells);
    let ing = ingest_tensor(&t);
    let restored = materialize_tensor(&ing);
    assert_eq!(restored, t, "4×4×3 RGB-like volume restores exactly");
    let set = materialize_tensor_no_order(&ing);
    assert_eq!(set.len(), t.cells.iter().collect::<BTreeSet<_>>().len());
}

#[test]
fn tensor_roundtrip_4d_hypercube() {
    let cells: Vec<Vec<u8>> = (0..16)
        .map(|i| format!("t{}", i).into_bytes())
        .collect();
    let t = Tensor::new(vec![2, 2, 2, 2], cells);
    let ing = ingest_tensor(&t);
    assert_eq!(materialize_tensor(&ing), t, "2×2×2×2 restores exactly");
}

#[test]
fn transposed_presentations_are_distinct_content() {
    // The same values in two orientations: (W,H) = (2,3) vs (H,W) =
    // (3,2). The hash is deterministic and content-addressed, so the
    // orientation is part of the content: the two layouts are two
    // different presentations of the same measured object.
    let cells: Vec<Vec<u8>> = (0..6).map(|i| format!("v{i}").into_bytes()).collect();
    let a = Tensor::new(vec![2, 3], cells.clone());
    let mut transposed = Vec::with_capacity(6);
    for r in 0..3 {
        for c in 0..2 {
            transposed.push(cells[c * 3 + r].clone());
        }
    }
    let b = Tensor::new(vec![3, 2], transposed);

    let ia = ingest_tensor(&a);
    let ib = ingest_tensor(&b);

    // The 1x1 channel is the shared token set — orientation-free.
    assert_eq!(
        ia.channels[0].content_key(),
        ib.channels[0].content_key(),
        "G1 is the same token set in both orientations"
    );
    // The 2x2 channel and the projection are orientation-dependent.
    assert_ne!(
        ia.channels[1].content_key(),
        ib.channels[1].content_key(),
        "2x2 neighborhoods differ under transposition"
    );
    assert_ne!(ia.key, ib.key, "the projections are different content");

    // The G1 gate extracts the token set from either presentation.
    let g1 = ia.channels[0].union(&ib.channels[0]);
    assert_eq!(
        gate(&g1, &ia.projection).content_key(),
        ia.channels[0].content_key(),
        "gate(G1, H_a) == G1"
    );
    assert_eq!(
        gate(&g1, &ib.projection).content_key(),
        ib.channels[0].content_key(),
        "gate(G1, H_b) == G1"
    );
}

#[test]
fn tensor_channels_and_key_are_populated() {
    let t = Tensor::new(
        vec![2, 2],
        vec![tok("x"), tok("y"), tok("y"), tok("z")],
    );
    let ing = ingest_tensor(&t);
    assert!(ing.key.starts_with("h:"));
    for ch in &ing.channels {
        assert!(ch.popcount() > 0, "every channel is populated");
    }
    assert_eq!(
        materialize_tensor_no_order(&ing).to_vec(),
        sorted(&[tok("x"), tok("y"), tok("z")])
    );
}
