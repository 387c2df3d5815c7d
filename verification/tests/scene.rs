use ewm_state_machine::scene::dimension::{project, Dimension};
use ewm_state_machine::scene::frames::{Frame, FrameSet};
use ewm_state_machine::scene::pyramid::{pyramid, PerceptronTokens, PyramidFrame};
use ewm_state_machine::scene::restore::{
    grid_restore_with, restore, restore_with, subframes, tensor_restore_with, GridFrame, TensorFrame,
};
use ewm_state_machine::scene::ring_series::SidecarFrame;
use ewm_state_machine::scene::share::Share;

fn frame(id: u64, tokens: &[&str]) -> Frame {
    Frame { id, tokens: tokens.iter().map(|t| t.to_string()).collect() }
}

fn ratio(s: &Share) -> f64 {
    s.part as f64 / s.whole as f64
}

fn step(f: &SidecarFrame) -> f64 {
    f.from.iter().zip(&f.soft).map(|(a, b)| (ratio(a) - ratio(b)).powi(2)).sum::<f64>().sqrt()
}

#[test]
fn bss_and_jaccard_match_lattice_math() {
    let fs = FrameSet::from_frames(vec![
        frame(1, &["tid1", "tid2", "tid3"]),
        frame(2, &["tid2", "tid3", "tid4"]),
    ]);
    // A={1,2,3}, B={2,3,4}: |A∩B|=2, |B|=3, |A∪B|=4
    assert!((ratio(&fs.bss(0, 1)) - 2.0 / 3.0).abs() < 1e-12);
    assert!((ratio(&fs.jaccard(0, 1)) - 2.0 / 4.0).abs() < 1e-12);
}

#[test]
fn sidecar_measures_soft_key_step_and_jumps() {
    let fs = FrameSet::from_frames(vec![
        frame(1, &["tid1", "tid2", "tid3"]),
        frame(2, &["tid2", "tid3", "tid4"]),
        frame(3, &["tid9", "tid10"]), // far from the growing context
    ]);
    let out = fs.sidecar();
    assert_eq!(out.frames.len(), 3);

    // Frame 1: empty basis — nothing to measure against, full novelty.
    assert!(out.frames[0].soft.is_empty());
    assert!(out.frames[0].hard.is_none());
    assert!(!out.frames[0].in_span);
    assert_eq!(out.frames[0].dim, 1);
    assert_eq!(step(&out.frames[0]), 0.0);

    // Frame 2: basis = {f1}; soft key w = |f2 ∩ f1| / |f1| = 2/3.
    assert_eq!(out.frames[1].soft.len(), 1);
    assert!((ratio(&out.frames[1].soft[0]) - 2.0 / 3.0).abs() < 1e-12);
    assert!(!out.frames[1].in_span, "f2 is not an XOR copy of f1");
    assert_eq!(out.frames[1].dim, 2);
    // Step: |soft(f1) - soft(f2)| in the common basis {f1} = |1 - 2/3|.
    assert!((step(&out.frames[1]) - 1.0 / 3.0).abs() < 1e-12);

    // Frame 3 is far from the context: its step dwarfs the in-context step.
    assert!(step(&out.frames[2]) > step(&out.frames[1]));
    assert!(out.frames[2].residual > 0);
}

#[test]
fn sidecar_hard_key_is_span_membership() {
    // f2 is an exact copy of f1 -> hard key [true]; f3 duplicates f1's
    // structure again -> still in span, and the step to a repeated frame
    // is zero (both soft keys are all-ones in the same basis).
    let fs = FrameSet::from_frames(vec![
        frame(1, &["tid1", "tid2"]),
        frame(2, &["tid1", "tid2"]),
    ]);
    let out = fs.sidecar();
    assert!(out.frames[1].in_span);
    assert_eq!(out.frames[1].hard, Some(vec![true]));
    assert_eq!(out.frames[1].residual, 0);
    assert_eq!(out.frames[1].dim, 1);
    assert!(step(&out.frames[1]).abs() < 1e-12);
}

#[test]
fn sidecar_freeze_gives_stable_coordinates() {
    // Freeze after two frames: the basis stays {f1, f2} and later frames
    // are evaluated, never inserted — fixed-dim soft keys, zero rotation.
    let fs = FrameSet::from_frames(vec![
        frame(1, &["tid1"]),
        frame(2, &["tid2"]),
        frame(3, &["tid3"]),
        frame(4, &["tid2"]), // in the frozen span
    ]);
    let out = fs.sidecar_with_cap_freeze(64, Some(2));
    assert_eq!(out.frames.len(), 4);

    assert_eq!(out.frames[2].dim, 2, "basis frozen after two frames");
    assert_eq!(out.frames[3].dim, 2);
    assert_eq!(out.frames[2].soft.len(), 2, "fixed-dim soft keys");
    assert_eq!(out.frames[3].soft.len(), 2);
    assert_eq!(out.frames[2].rotation_count, 0, "evaluation never rotates");
    assert_eq!(out.frames[3].rotation_count, 0);
    assert!(!out.frames[2].in_span, "f3 is outside the frozen span");
    assert!(out.frames[3].in_span, "f4 == f2 is in the frozen span");
    assert_eq!(out.frames[3].hard, Some(vec![false, true]));
}

#[test]
fn moving_averages_use_trailing_unions() {
    let fs = FrameSet::from_frames(vec![
        frame(1, &["tid1"]),
        frame(2, &["tid2"]),
        frame(3, &["tid3"]),
    ]);
    let (t0, fast, slow) = fs.moving_averages(1, 2);
    assert_eq!(t0, vec![3]);
    assert_eq!(fast.len(), 1);
    assert_eq!(slow.len(), 1);
    // fast line at t=3: BSS(frame2, frame3) = 0 (disjoint)
    assert!(ratio(&fast[0]).abs() < 1e-12);
    // slow line at t=3: BSS(f1∪f2, f2∪f3) = |{2}| / 2 = 0.5
    assert!((ratio(&slow[0]) - 0.5).abs() < 1e-12);
}

#[test]
fn noether_decomposes_transitions() {
    let fs = FrameSet::from_frames(vec![
        frame(1, &["tid1", "tid2"]),
        frame(2, &["tid2", "tid3"]),
    ]);
    let out = fs.noether();
    let d = fs.hllsets[0].difference(&fs.hllsets[1]).popcount();
    let r = fs.hllsets[0].intersection(&fs.hllsets[1]).popcount();
    let n = fs.hllsets[1].difference(&fs.hllsets[0]).popcount();
    assert_eq!(out.dp, vec![d]); // tid1's atoms departed
    assert_eq!(out.rp, vec![r]); // tid2's atoms retained
    assert_eq!(out.np, vec![n]); // tid3's atoms new
    assert!(d > 0 && r > 0 && n > 0);
}

#[test]
fn restore_recovers_the_ordered_collection() {
    let tokens = ["tid0", "tid1", "tid0", "tid2"];
    let f = frame(1, &tokens);
    let r = restore(&f);
    assert_eq!(r.ordered, tokens);
    assert_eq!(r.set.len(), 3, "set keeps distinct tokens");
    assert_eq!(r.beam2, tokens, "beam-2 agrees on the unambiguous chain");
}

#[test]
fn subframes_split_a_transition_into_d_r_n() {
    let a = GridFrame {
        id: 1,
        width: 2,
        height: 2,
        tokens: ["a", "b", "c", "d"].iter().map(|s| s.to_string()).collect(),
    };
    let b = GridFrame {
        id: 2,
        width: 2,
        height: 2,
        tokens: ["b", "d", "e", "f"].iter().map(|s| s.to_string()).collect(),
    };
    let sf = subframes(&a, &b);
    assert_eq!(sf.pair, [1, 2]);
    assert_eq!(sf.departed, vec!["a".to_string(), "c".to_string()]);
    assert_eq!(sf.retained, vec!["b".to_string(), "d".to_string()]);
    assert_eq!(sf.new, vec!["e".to_string(), "f".to_string()]);
    // Every channel decomposes: D + R = A's channel bits, N + R = B's.
    for ch in 0..4 {
        assert!(sf.dp[ch] + sf.rp[ch] > 0, "channel {ch} has A bits");
        assert!(sf.np[ch] + sf.rp[ch] > 0, "channel {ch} has B bits");
    }
}

#[test]
fn grid_restore_recovers_a_16x16_frame_exactly() {
    let tokens: Vec<String> = (0..256)
        .map(|i| {
            let r = i / 16;
            let c = i % 16;
            format!("tid{}", (r * 37 + c * 7 + (r + c) / 3) % 60)
        })
        .collect();
    let f = GridFrame {
        id: 1,
        width: 16,
        height: 16,
        tokens: tokens.clone(),
    };
    let r = grid_restore_with(&f, 2);
    assert_eq!(r.ordered, tokens, "2D morphism restores the exact grid order");
    assert_eq!(r.beam2, tokens, "beam-2 agrees");
    assert_eq!(r.width, 16);
    assert_eq!(r.height, 16);
}

#[test]
fn tensor_restore_recovers_a_3x4x5_volume_exactly() {
    // A 3×4×5 volume (views × rows × cols) with repeated tids — the
    // multi-view perception-token shape. The N-d joint-window walk must
    // recover the exact lexicographic order.
    let shape = vec![3usize, 4, 5];
    let tokens: Vec<String> = (0..60)
        .map(|i| {
            let v = i / 20;
            let r = (i / 5) % 4;
            let c = i % 5;
            format!("tid{}", (v * 7 + r * 3 + c) % 11)
        })
        .collect();
    let f = TensorFrame {
        id: 1,
        shape: shape.clone(),
        tokens: tokens.clone(),
    };
    let r = tensor_restore_with(&f, 2);
    assert_eq!(r.ordered, tokens, "3D morphism restores the exact volume order");
    assert_eq!(r.beam2, tokens, "beam-2 agrees");
    assert_eq!(r.shape, shape);
}

#[test]
fn pyramid_union_drn_and_ring_decompose() {
    let pf = |id: u64, p1: &[&str], p2: &[&str]| PyramidFrame {
        id,
        perceptrons: vec![
            PerceptronTokens {
                name: "perception".into(),
                tokens: p1.iter().map(|s| s.to_string()).collect(),
            },
            PerceptronTokens {
                name: "ego".into(),
                tokens: p2.iter().map(|s| s.to_string()).collect(),
            },
        ],
    };
    let frames = vec![
        pf(1, &["a", "b"], &["b", "c"]),
        pf(2, &["a", "b"], &["c", "d"]),
    ];
    let out = pyramid(&frames, 64, None);
    assert_eq!(out.names, vec!["perception", "ego"]);
    assert_eq!(out.frames.len(), 2);

    // (b) joined components: per-perceptron HLLSets + the union.
    let f0 = &out.frames[0];
    assert_eq!(f0.pops.len(), 2);
    assert!(f0.pops[0] > 0 && f0.pops[1] > 0);
    let union12 = f0.hllsets[0].union(&f0.hllsets[1]);
    assert!(union12.difference(&f0.union_hll).is_empty());
    assert!(f0.union_hll.difference(&union12).is_empty(),
            "union equals the OR of the components");

    // (a) D/R/N of the union stream: f1={a,b,c}, f2={a,b,c,d}.
    assert_eq!(out.drn.dp, vec![0], "nothing departed");
    assert!(out.drn.rp[0] > 0, "common atoms retained");
    assert!(out.drn.np[0] > 0, "d's atoms are new");

    // (c) u-ring: first union is added, second is outside the span.
    assert_eq!(out.ring.frames.len(), 2);
    assert!(!out.ring.frames[0].in_span);
    assert!(!out.ring.frames[1].in_span, "f2 != f1 in GF(2)");
    assert_eq!(out.ring.frames[1].dim, 2);
}

#[test]
fn project_gives_the_bss_coordinates_in_any_frame() {
    // Frame = two named dimensions; stream = two frames.
    let dims = vec![
        Dimension::from_tokens("D".into(), &vec!["a".into(), "b".into()]),
        Dimension::from_tokens("N".into(), &vec!["c".into(), "d".into()]),
    ];
    let fs = FrameSet::from_frames(vec![
        frame(1, &["a", "b", "c"]),
        frame(2, &["c", "d"]),
    ]);
    let ids: Vec<u64> = fs.frames.iter().map(|f| f.id).collect();
    let out = project(&fs.hllsets, &fs.g1s, &ids, &dims);

    assert_eq!(out.names, vec!["D", "N"]);
    assert_eq!(out.frames.len(), 2);
    // frame 1: {a,b,c} ∩ D = {a,b} (full), ∩ N = {c} (part of N).
    assert_eq!(out.frames[0].intersections[0], out.pops[0]);
    assert!((ratio(&out.frames[0].bss[0]) - 1.0).abs() < 1e-12);
    assert!(ratio(&out.frames[0].bss[1]) > 0.0 && ratio(&out.frames[0].bss[1]) < 1.0);
    // frame 2: {c,d} ∩ D = 0, ∩ N = full.
    assert!(ratio(&out.frames[1].bss[0]).abs() < 1e-12);
    assert!((ratio(&out.frames[1].bss[1]) - 1.0).abs() < 1e-12);
}

#[test]
fn a_frame_of_one_token_is_restored_with_any_beam() {
    let frame = Frame { id: 1, tokens: vec!["solo".to_string()] };
    for beam in [0, 1, 2, 5] {
        let r = restore_with(&frame, beam);
        assert_eq!(r.ordered, vec!["solo"]);
        assert_eq!(r.set, vec!["solo"]);
        assert_eq!(r.beam2, vec!["solo"]);
    }
    assert_eq!(restore(&frame).beam2, vec!["solo"]);
}
