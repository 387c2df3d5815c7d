use ewm_state_machine::boolring::{symmetric_difference, BoolBasis, BoolWindow, InsertResult};
use ewm_state_machine::hllset::HLLSet;

fn set(bits: &[u32]) -> HLLSet {
    let mut h = HLLSet::new();
    for b in bits {
        h.add_bit(*b);
    }
    h
}

#[test]
fn symmetric_difference_axioms() {
    let a = set(&[1, 2, 3]);
    let b = set(&[2, 3, 4]);
    assert!(symmetric_difference(&a, &a).is_empty(), "A Δ A = ∅");
    assert_eq!(
        symmetric_difference(&a, &HLLSet::new()).popcount(),
        a.popcount(),
        "A Δ ∅ = A"
    );
    assert_eq!(
        symmetric_difference(&a, &b).popcount(),
        2,
        "A Δ B = {{1, 4}}"
    );
}

#[test]
fn union_decomposes_in_the_ring() {
    let a = set(&[1, 2, 3]);
    let b = set(&[2, 3, 4]);
    // A ∪ B = A Δ B Δ (A ∩ B)
    let lhs = a.union(&b);
    let rhs = symmetric_difference(&symmetric_difference(&a, &b), &a.intersection(&b));
    assert_eq!(lhs.popcount(), rhs.popcount());
    assert!(lhs.difference(&rhs).is_empty() && rhs.difference(&lhs).is_empty());
}

#[test]
fn span_dimension_and_coordinates() {
    let a = set(&[1, 2, 3]);
    let b = set(&[2, 3, 4]);
    let ab = symmetric_difference(&a, &b); // {1, 4}

    let mut basis = BoolBasis::new();
    assert!(matches!(basis.insert(&a), InsertResult::Added { .. }));
    assert!(matches!(basis.insert(&b), InsertResult::Added { .. }));
    assert_eq!(basis.dimension(), 2);

    // A Δ B is in the span; reconstruct it from its coordinates.
    let coords = basis.coordinates(&ab).expect("A Δ B is in the span");
    let mut rebuilt = HLLSet::new();
    for (i, c) in coords.iter().enumerate() {
        if *c {
            rebuilt = symmetric_difference(&rebuilt, &basis.basis[i]);
        }
    }
    assert!(rebuilt.difference(&ab).is_empty() && ab.difference(&rebuilt).is_empty(),
            "coordinates reconstruct A Δ B");
}

#[test]
fn residual_is_linear_novelty() {
    let a = set(&[1, 2, 3]);
    let b = set(&[2, 3, 4]);
    let c = set(&[5, 6]); // introduces two new independent directions

    let mut basis = BoolBasis::new();
    basis.insert(&a);
    basis.insert(&b);
    assert_eq!(basis.dimension(), 2);

    let res = basis.residual(&c);
    assert!(!res.is_empty(), "C has new directions");
    assert!(basis.coordinates(&c).is_none(), "C is outside the span");

    match basis.insert(&c) {
        InsertResult::Added { residual, .. } => {
            assert!(!residual.is_empty());
        }
        InsertResult::InSpan { .. } => panic!("C must be added"),
    }
    assert_eq!(basis.dimension(), 3);
    assert!(basis.coordinates(&c).is_some(), "C is now in the span");
}

#[test]
fn span_is_order_independent_though_basis_is_not() {
    let a = set(&[1, 2, 3]);
    let b = set(&[2, 3, 4]);
    let mut b1 = BoolBasis::new();
    b1.insert(&a);
    b1.insert(&b);
    let mut b2 = BoolBasis::new();
    b2.insert(&b);
    b2.insert(&a);
    assert_eq!(b1.dimension(), b2.dimension(), "the span has one size");
    assert!(b1.coordinates(&a).is_some());
    assert!(b2.coordinates(&a).is_some());
}

#[test]
fn insertion_reports_the_rotation_component() {
    // Pure extension: the new pivot bit is absent from every existing
    // basis element -> nothing rotates.
    let mut basis = BoolBasis::new();
    match basis.insert(&set(&[1, 2])) {
        InsertResult::Added { rotation_count, .. } => assert_eq!(rotation_count, 0),
        InsertResult::InSpan { .. } => panic!("first set is added"),
    }
    match basis.insert(&set(&[4, 5])) {
        InsertResult::Added { rotation_count, .. } => assert_eq!(rotation_count, 0),
        InsertResult::InSpan { .. } => panic!("disjoint set is added"),
    }

    // Rotation: B1 = {1, 3} (pivot 1), insert R = {3, 5} (new pivot 3).
    // B1 contains bit 3, so it is re-pivoted to {1, 5} — one touched
    // element.
    let mut basis = BoolBasis::new();
    basis.insert(&set(&[1, 3]));
    match basis.insert(&set(&[3, 5])) {
        InsertResult::Added {
            residual,
            rotation_count,
            ..
        } => {
            assert_eq!(rotation_count, 1, "B1 shares the new pivot bit");
            assert_eq!(residual.popcount(), 2, "R = {{3, 5}}");
        }
        InsertResult::InSpan { .. } => panic!("R is outside the span"),
    }
    assert_eq!(basis.dimension(), 2);

    // In-span pushes never rotate.
    let mut basis = BoolBasis::new();
    basis.insert(&set(&[1, 2]));
    match basis.insert(&set(&[1, 2])) {
        InsertResult::InSpan { .. } => {}
        InsertResult::Added { .. } => panic!("duplicate is in the span"),
    }
}

#[test]
fn ring_stats_carry_rotation_mass() {
    let mut w = BoolWindow::new(8);
    let s1 = w.push(&set(&[1, 2]));
    assert_eq!(s1.rotation_count, 0);
    assert_eq!(s1.rotation_mass, 0);
    // {1, 3} shares the new pivot of a second set whose residual has a
    // new lowest bit that B1 contains -> one element re-pivots.
    let mut w = BoolWindow::new(8);
    w.push(&set(&[1, 3]));
    let s2 = w.push(&set(&[3, 5]));
    assert_eq!(s2.rotation_count, 1);
    assert_eq!(s2.rotation_mass, s2.rotation_count * s2.residual);
}

#[test]
fn same_sequence_gives_the_same_basis() {
    let a = set(&[1, 2, 3]);
    let b = set(&[2, 3, 4]);
    let c = set(&[3, 4, 5]);

    let mut w1 = BoolWindow::new(8);
    let mut w2 = BoolWindow::new(8);
    for s in [&a, &b, &c] {
        w1.push(s);
        w2.push(s);
    }
    assert_eq!(w1.basis().pivots, w2.basis().pivots,
        "a fixed ingestion order fixes the basis");
    assert_eq!(w1.dimension(), w2.dimension());
}

#[test]
fn eviction_slides_the_window_and_recomputes() {
    let a = set(&[1, 2, 3]);
    let b = set(&[2, 3, 4]);
    let c = set(&[5, 6]); // independent of {a, b}? {5,6} vs span of a,b -> independent

    let mut w = BoolWindow::new(2);
    let s1 = w.push(&a);
    assert!(!s1.in_span && s1.residual == a.popcount());
    let s2 = w.push(&b);
    assert_eq!(w.window_len(), 2);
    let _ = s2;
    let s3 = w.push(&c); // evicts a; window = {b, c}
    assert_eq!(w.window_len(), 2);
    assert_eq!(s3.residual, c.popcount(), "c is outside the {{b}} span of the window");
    // a is gone: its residual against the window is nonempty.
    assert!(!w.residual(&a).is_empty(), "evicted original is outside the window span");
}

#[test]
fn in_span_push_has_zero_novelty() {
    let a = set(&[1, 2, 3]);
    let mut w = BoolWindow::new(8);
    let s1 = w.push(&a);
    assert!(!s1.in_span);
    let s2 = w.push(&a);
    assert!(s2.in_span);
    assert_eq!(s2.residual, 0);
    assert_eq!(w.dimension(), 1);
}
