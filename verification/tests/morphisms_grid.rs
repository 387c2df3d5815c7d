use std::collections::BTreeSet;

use ewm_state_machine::morphisms::grid::{
    ingest_grid, materialize_grid, materialize_grid_beam, materialize_grid_no_order, Grid,
};

fn tok(s: &str) -> Vec<u8> {
    s.as_bytes().to_vec()
}

fn sorted(tokens: &[Vec<u8>]) -> Vec<Vec<u8>> {
    let set: BTreeSet<Vec<u8>> = tokens.iter().cloned().collect();
    set.into_iter().collect()
}

#[test]
fn grid_roundtrip_2x2_distinct() {
    let grid = Grid::new(
        2,
        2,
        vec![tok("a"), tok("b"), tok("c"), tok("d")],
    );
    let ing = ingest_grid(&grid);
    let restored = materialize_grid(&ing);
    assert_eq!(restored, grid, "2×2 grid restores exactly");
    let set = materialize_grid_no_order(&ing);
    assert_eq!(set.to_vec(), sorted(&[tok("a"), tok("b"), tok("c"), tok("d")]));
}

#[test]
fn grid_roundtrip_3x3_with_duplicates() {
    let cells: Vec<Vec<u8>> = ["a", "b", "a", "c", "a", "c", "b", "c", "b"]
        .iter()
        .map(|s| tok(s))
        .collect();
    let grid = Grid::new(3, 3, cells);
    let ing = ingest_grid(&grid);
    assert_eq!(materialize_grid(&ing), grid, "greedy restores duplicates");
    assert_eq!(materialize_grid_beam(&ing, 2), grid, "beam-2 agrees");
}

#[test]
fn grid_roundtrip_16x16_pseudo_frame() {
    // The image-application shape: a 16×16 grid of tid tokens with
    // repeats, exactly like the scene frames.
    let cells: Vec<Vec<u8>> = (0..256)
        .map(|i| {
            let r = i / 16;
            let c = i % 16;
            format!("tid{}", (r * 37 + c * 7 + (r + c) / 3) % 60).into_bytes()
        })
        .collect();
    let grid = Grid::new(16, 16, cells);
    let ing = ingest_grid(&grid);
    let restored = materialize_grid(&ing);
    assert_eq!(restored, grid, "16×16 pseudo-frame restores exactly");
    let restored_beam = materialize_grid_beam(&ing, 3);
    assert_eq!(restored_beam, grid, "beam-3 agrees");
}

#[test]
fn grid_channels_and_key_are_populated() {
    let grid = Grid::new(2, 2, vec![tok("x"), tok("y"), tok("y"), tok("z")]);
    let ing = ingest_grid(&grid);
    assert!(ing.key.starts_with("h:"));
    assert!(ing.channels[0].popcount() > 0, "1×1 channel");
    assert!(ing.channels[1].popcount() > 0, "2×2 channel");
    assert!(ing.channels[2].popcount() > 0, "3×3 channel");
    assert!(ing.channels[3].popcount() > 0, "4×4 channel");
    // The set restoration keeps every candidate of the duplicated token.
    assert_eq!(
        materialize_grid_no_order(&ing).to_vec(),
        sorted(&[tok("x"), tok("y"), tok("z")])
    );
}
