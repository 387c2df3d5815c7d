use ewm_state_machine::boolring::BoolWindow;
use ewm_state_machine::flux::basis_frames::BasisHistory;
use ewm_state_machine::flux::sidecar::{sidecar_series, sidecar_series_with_window, SidecarFrame};
use ewm_state_machine::flux::transition::drn_series;
use ewm_state_machine::hllset::HLLSet;
use ewm_state_machine::scene::share::Share;

fn set(bits: &[u32]) -> HLLSet {
    let mut h = HLLSet::new();
    for b in bits {
        h.add_bit(*b);
    }
    h
}

fn ratio(s: &Share) -> f64 {
    s.part as f64 / s.whole as f64
}

fn step_len(f: &SidecarFrame) -> f64 {
    f.from.iter().zip(&f.soft).map(|(a, b)| (ratio(a) - ratio(b)).powi(2)).sum::<f64>().sqrt()
}

#[test]
fn drn_series_decomposes_transitions() {
    let hllsets = vec![set(&[1, 2]), set(&[2, 3])];
    let drn = drn_series(&hllsets);
    assert_eq!(drn[0].d, 0);
    assert_eq!(drn[0].r, 0);
    assert_eq!(drn[0].n, 2, "step 0: N = S(0)");
    assert_eq!(drn[1].d, 1, "bit 1 departed");
    assert_eq!(drn[1].r, 1, "bit 2 retained");
    assert_eq!(drn[1].n, 1, "bit 3 new");
}

#[test]
fn sidecar_series_matches_ewm_scene_semantics() {
    // Same expectations as the scene's tests: an empty basis for
    // step 0, soft key 2/3 for step 1 against {f1}, and the far step 2
    // carries both a bigger step and a nonempty residual.
    let hllsets = vec![set(&[1, 2, 3]), set(&[2, 3, 4]), set(&[9, 10])];
    let frames = sidecar_series(&hllsets);
    assert_eq!(frames.len(), 3);

    assert!(frames[0].soft.is_empty());
    assert!(frames[0].hard.is_none());
    assert!(!frames[0].ring.in_span);
    assert_eq!(frames[0].ring.dimension, 1);
    assert_eq!(step_len(&frames[0]), 0.0);

    assert_eq!(frames[1].soft.len(), 1);
    assert!((ratio(&frames[1].soft[0]) - 2.0 / 3.0).abs() < 1e-12);
    assert!(!frames[1].ring.in_span);
    assert_eq!(frames[1].ring.dimension, 2);
    assert!((step_len(&frames[1]) - 1.0 / 3.0).abs() < 1e-12);

    assert!(step_len(&frames[2]) > step_len(&frames[1]));
    assert!(frames[2].ring.residual > 0);
}

#[test]
fn sidecar_series_stamps_each_frame_with_its_basis_generation() {
    let hllsets = vec![set(&[1, 2]), set(&[2, 3])];
    let series = sidecar_series_with_window(&hllsets);
    assert_eq!(series.frames[0].basis_generation, 0, "empty basis for step 0");
    assert_eq!(series.frames[1].basis_generation, 1, "basis {{f1}} for step 1");
    assert_eq!(series.window.generation(), 2, "two additions bumped twice");
    assert!(series.frames[0].basis_change, "first push changes the basis");
    assert!(series.frames[1].basis_change, "second push changes the basis");

    // A repeated step is in-span: no basis change, no structural event.
    let series = sidecar_series_with_window(&vec![set(&[1, 2]), set(&[1, 2])]);
    assert!(series.frames[0].basis_change);
    assert!(!series.frames[1].basis_change);
    assert_eq!(series.window.generation(), 1);
}

#[test]
fn basis_history_records_every_basis_change_and_projects_into_any_frame() {
    let a = set(&[1, 2]);
    let b = set(&[2, 3]);

    let mut window = BoolWindow::new(64);
    let mut history = BasisHistory::new();
    assert_eq!(history.change_count(), 0);

    // The empty starting basis is a frame too.
    history.push_if_changed(&window);
    assert_eq!(history.change_count(), 1);
    assert_eq!(history.last().unwrap().generation, 0);
    assert_eq!(history.last().unwrap().dimension(), 0);

    window.push(&a); // basis changes -> recorded
    history.push_if_changed(&window);
    assert_eq!(history.change_count(), 2);
    assert_eq!(history.last().unwrap().generation, 1);

    window.push(&a); // in-span -> not a basis change, not recorded
    history.push_if_changed(&window);
    assert_eq!(history.change_count(), 2);

    window.push(&b); // basis changes again -> recorded
    history.push_if_changed(&window);
    assert_eq!(history.change_count(), 3);
    assert_eq!(history.last().unwrap().dimension(), 2);

    // Project `a` into frame 1 (basis {a}): inside, no spill, exact coords.
    let p = history.project_into(1, &a);
    assert_eq!(p.soft.len(), 1);
    assert!((ratio(&p.soft[0]) - 1.0).abs() < 1e-12);
    assert_eq!(p.spill, 0);
    assert_eq!(p.hard, Some(vec![true]));

    // Project `b` (a *newer* set) into the *older* frame {a}: the soft key
    // is still a valid similarity reading, and the spill is exactly the
    // part of `b` outside cover(a) = {1, 2}.
    let p2 = history.project_into(1, &b);
    assert!((ratio(&p2.soft[0]) - 0.5).abs() < 1e-12, "|b ∩ a| / |a| = 1/2");
    assert_eq!(p2.spill, 1, "b \\ a = {{3}}");
    assert_eq!(p2.hard, None, "b is outside the span of frame {{a}}");
}
