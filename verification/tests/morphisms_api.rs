use std::collections::BTreeSet;

use ewm_state_machine::hashing::BitAddress;
use ewm_state_machine::morphisms::api::{
    gate, ingest, ingest_key, ingest_with_pad, join2, join3, join4, materialize, materialize_beam, materialize_no_order,
    materialize_with, sketch_contains, Ingested, MaterializeOptions, CHANNEL_NAMES, CHANNEL_SEEDS, PAD,
};
use ewm_state_machine::morphisms::ingest::Ingest;

fn bytes(tokens: &[&str]) -> Vec<Vec<u8>> {
    tokens.iter().map(|t| t.as_bytes().to_vec()).collect()
}

#[test]
fn ingest_sets_three_pointers_per_token() {
    let tokens = bytes(&["a", "b", "c"]);
    let ing = ingest(&tokens);

    assert_eq!(ing.tokens, 3);
    assert_eq!(ing.pad, PAD.to_vec());

    // 1-gram channel: every real token + the pad is present.
    for t in ["a", "b", "c", "<PAD>"] {
        assert!(sketch_contains(&ing, 0, t.as_bytes()), "1-gram {t} missing");
    }

    // 2-gram channel: each real token points via its own bigram; the
    // start pad anchors (PAD, a).
    for (a, b) in [("a", "b"), ("b", "c"), ("c", "<PAD>"), ("<PAD>", "a")] {
        assert!(
            sketch_contains(&ing, 1, &join2(a.as_bytes(), b.as_bytes())),
            "2-gram {a}·{b} missing"
        );
    }

    // 3-gram channel: each real token points via its own trigram; the
    // two end pads make the last token a 3-gram.
    for (a, b, c) in [
        ("a", "b", "c"),
        ("b", "c", "<PAD>"),
        ("c", "<PAD>", "<PAD>"),
        ("<PAD>", "a", "b"),
    ] {
        assert!(
            sketch_contains(&ing, 2, &join3(a.as_bytes(), b.as_bytes(), c.as_bytes())),
            "3-gram {a}·{b}·{c} missing"
        );
    }

    // The LUT fibers hold the pointed-to token, not the n-gram bytes.
    let g2 = BitAddress::of_token_seeded(&join2(b"a", b"b"), CHANNEL_SEEDS[1]);
    assert!(ing.luts[1].fiber(g2.bit()).contains(&b"a".to_vec()));
    assert!(!ing.luts[1].fiber(g2.bit()).contains(&join2(b"a", b"b")));

    let g3 = BitAddress::of_token_seeded(&join3(b"c", &PAD, &PAD), CHANNEL_SEEDS[2]);
    assert!(ing.luts[2].fiber(g3.bit()).contains(&b"c".to_vec()));

    // TF counts observations, not n-grams.
    assert_eq!(ing.tf.count(b"a"), 1);
    assert_eq!(ing.tf.count(b"b"), 1);
    assert_eq!(ing.tf.count(b"c"), 1);
    assert_eq!(ing.tf.count(&PAD), 0);
}

#[test]
fn materialize_roundtrips_in_order() {
    let tokens = bytes(&["the", "cat", "sat", "on", "the", "mat"]);
    let ing = ingest(&tokens);
    let restored = materialize(&ing);
    assert_eq!(restored, tokens, "ordered round-trip");
}

#[test]
fn materialize_no_order_returns_the_set() {
    let tokens = bytes(&["z", "a", "m"]);
    let ing = ingest(&tokens);
    let set = materialize_no_order(&ing);
    let mut expected: BTreeSet<Vec<u8>> = tokens.iter().cloned().collect();
    assert_eq!(set.to_vec(), expected.iter().cloned().collect::<Vec<_>>());

    expected = tokens.clone().into_iter().collect();
    let via_opts = materialize_with(&ing, &MaterializeOptions::no_order());
    assert_eq!(via_opts, expected.into_iter().collect::<Vec<_>>());
}

#[test]
fn duplicate_tokens_roundtrip() {
    let tokens = bytes(&["a", "b", "a", "b"]);
    let ing = ingest(&tokens);
    assert_eq!(materialize(&ing), tokens, "duplicates keep their positions");
}

#[test]
fn single_token_roundtrip_and_two_pads() {
    let tokens = bytes(&["solo"]);
    let ing = ingest(&tokens);
    assert_eq!(materialize(&ing), tokens);

    // The two end pads make the last (only) token a 3-gram.
    assert!(sketch_contains(
        &ing,
        2,
        &join3(b"solo", &PAD, &PAD),
    ));
    // And the start pad anchors the bigram (PAD, solo).
    assert!(sketch_contains(&ing, 1, &join2(&PAD, b"solo")));
}

#[test]
fn two_tokens_roundtrip() {
    let tokens = bytes(&["x", "y"]);
    let ing = ingest(&tokens);
    assert_eq!(materialize(&ing), tokens);
}

#[test]
fn empty_collection_materializes_empty() {
    let ing = ingest(&Vec::new());
    assert_eq!(ing.tokens, 0);
    assert!(materialize(&ing).is_empty());
    assert!(materialize_no_order(&ing).is_empty());
}

#[test]
fn custom_pad_roundtrip() {
    let tokens = bytes(&["a", "b", "c"]);
    let ing = ingest_with_pad(&tokens, b"<S>");
    assert_eq!(ing.pad, b"<S>");
    assert_eq!(materialize(&ing), tokens);
}

#[test]
fn last_token_participates_as_a_3gram() {
    let tokens = bytes(&["a", "b"]);
    let ing = ingest(&tokens);
    // b's 3-gram is (b, &PAD, &PAD) — the two trailing pads.
    assert!(sketch_contains(&ing, 2, &join3(b"b", &PAD, &PAD)));
}

#[test]
fn ingest_returns_sha1_of_the_projection() {
    let tokens = bytes(&["a", "b", "c"]);
    let ing = ingest(&tokens);

    // Default case: the SHA1 of the new HLLSet (scheme-agnostic Gx).
    assert!(ing.key.starts_with("h:"), "key = {}", ing.key);
    assert_eq!(ing.key, ing.projection.content_key());
    assert_eq!(
        ing.projection.popcount(),
        ing.sketches[0].union(&ing.sketches[1]).union(&ing.sketches[2]).popcount(),
        "projection = G1 ∪ G2 ∪ G3"
    );

    // The three channel originals each have their own SHA1.
    for (ch, key) in ing.keys.iter().enumerate() {
        assert!(key.starts_with("h:"));
        assert_eq!(*key, ing.sketches[ch].content_key());
    }
    // The n-gram LUTs are named by scheme + channel.
    assert_eq!(ing.lut_names(), ["ng:G1", "ng:G2", "ng:G3"].map(|n| n.to_string()));

    // Preservation side effect: all three new HLLSets are in the hllsetLUT
    // under their names (G1/G2/G3) with TH = 1 (register + touch).
    assert_eq!(ing.hllset_lut.len(), 3);
    for (ch, key) in ing.keys.iter().enumerate() {
        assert_eq!(
            ing.hllset_lut.th_named(CHANNEL_NAMES[ch], key),
            1,
            "one touch per created named HLLSet"
        );
    }
    assert_eq!(
        ing.hllset_lut.ranked().len(),
        3,
        "ranked() reports (name, key, th) entries"
    );
}

#[test]
fn ingest_key_is_the_default_case() {
    let key = ingest_key(&bytes(&["the", "cat", "sat"]));
    assert!(key.starts_with("h:"));
    assert_eq!(key, ingest(&bytes(&["the", "cat", "sat"])).key);
}

#[test]
fn empty_ingest_has_no_preserved_hllsets() {
    let ing = ingest(&Vec::new());
    assert!(ing.key.starts_with("h:"), "empty projection still has a key");
    assert!(ing.hllset_lut.is_empty(), "nothing created → nothing preserved");
    assert!(ing.keys.iter().all(|k| k.is_empty()));
}

#[test]
fn gn_is_a_gate_over_both_bootstrap_schemes() {
    let ng = ingest(&bytes(&["cat", "sat"]));
    let mut ns = Ingest::new();
    ns.ingest_tokens(&bytes(&["cat", "sat"]));

    // The 1-gram of a token IS the seed-0 hash of the same token: both
    // schemes set the same atom in the shared G1.
    let addr = BitAddress::of_token_seeded(b"cat", 0);
    assert!(ng.sketches[0].has_bit(addr.reg(), addr.tz()));
    assert!(ns.hllset(0).has_bit(addr.reg(), addr.tz()));

    // Gating extracts each scheme's component from the shared channel.
    let g1_shared = ng.sketches[0].union(ns.hllset(0));
    assert_eq!(
        gate(&g1_shared, &ng.sketches[0]).content_key(),
        ng.sketches[0].content_key(),
        "gate(G1, H_ng)"
    );
    assert_eq!(
        gate(&g1_shared, ns.hllset(0)).content_key(),
        ns.hllset(0).content_key(),
        "gate(G1, H_ns)"
    );

    // Same gate property on G2, where the schemes genuinely differ
    // (2-gram "cat|sat" vs seed-1 "cat"/"sat").
    let g2_shared = ng.sketches[1].union(ns.hllset(1));
    assert_eq!(
        gate(&g2_shared, &ng.sketches[1]).content_key(),
        ng.sketches[1].content_key(),
        "gate(G2, H_ng)"
    );
    assert_eq!(
        gate(&g2_shared, ns.hllset(1)).content_key(),
        ns.hllset(1).content_key(),
        "gate(G2, H_ns)"
    );
}

#[test]
fn tf_ranks_de_bruijn_successors_in_order_restoration() {
    // Two valid chains of the same length share the start (x, y) and
    // branch on the next 3-gram: (x,y,a) vs (x,y,b). Bytewise order
    // would pick `a` first; TF ranking picks the observed `b`.
    let x = b"x".to_vec();
    let y = b"y".to_vec();
    let a = b"a".to_vec();
    let b = b"b".to_vec();
    let vocab = [&x, &y, &a, &b];

    let mut ing = Ingested::new();
    ing.tokens = 4;

    // 1-gram channel: the vocabulary, with LUT fibers pointing at it.
    for t in &vocab {
        let addr = BitAddress::of_token_seeded(t, CHANNEL_SEEDS[0]);
        ing.sketches[0].add_bit(addr.bit());
        ing.luts[0].insert_token_at((*t).clone(), addr.bit());
    }

    // 2-gram channel: the start anchor (PAD, x).
    let start_bigram =
        BitAddress::of_token_seeded(&join2(ing.pad.as_slice(), &x), CHANNEL_SEEDS[1]);
    ing.sketches[1].add_bit(start_bigram.bit());

    // 3-gram channel: both full chains.
    // Chain A (bytewise-first): x y a b
    // Chain B (observed):       x y b a
    let pad = ing.pad.clone();
    let grams: Vec<Vec<u8>> = vec![
        join3(&pad, &x, &y),
        join3(&x, &y, &a),
        join3(&y, &a, &b),
        join3(&a, &b, &pad),
        join3(&x, &y, &b),
        join3(&y, &b, &a),
        join3(&b, &a, &pad),
    ];
    for gram in &grams {
        let addr = BitAddress::of_token_seeded(gram, CHANNEL_SEEDS[2]);
        ing.sketches[2].add_bit(addr.bit());
    }

    // 4-gram order channel: the joint-check collisions filter.
    let fours: Vec<Vec<u8>> = vec![
        join4(&pad, &x, &y, &a),
        join4(&x, &y, &a, &b),
        join4(&y, &a, &b, &pad),
        join4(&pad, &x, &y, &b),
        join4(&x, &y, &b, &a),
        join4(&y, &b, &a, &pad),
    ];
    for gram in &fours {
        let addr = BitAddress::of_token_seeded(gram, 3);
        ing.g4.add_bit(addr.bit());
    }

    // 2-gram channel: both chains' transitions and terminations.
    let bigrams: Vec<Vec<u8>> = vec![
        join2(&x, &y),
        join2(&y, &a),
        join2(&a, &b),
        join2(&b, &pad),
        join2(&y, &b),
        join2(&b, &a),
        join2(&a, &pad),
    ];
    for gram in &bigrams {
        let addr = BitAddress::of_token_seeded(gram, CHANNEL_SEEDS[1]);
        ing.sketches[1].add_bit(addr.bit());
    }

    // TF scores the transitions: b >> a at the branch point.
    for t in &vocab {
        ing.tf.increment(t);
    }
    ing.tf.increment(&b);
    ing.tf.increment(&b);

    // Greedy TF-ranked De Bruijn decode restores the observed chain.
    assert_eq!(materialize(&ing), vec![x, y, b, a], "TF picks the observed branch");
}

#[test]
fn beam_search_keeps_hypotheses_and_returns_the_best_completed_path() {
    // Two valid chains branch at (x, y). The greedy walk follows the
    // highest-TF successor `a` and returns [x, y, a, b] (total TF 8);
    // beam width 2 keeps the other hypothesis [x, y, c, d] (total TF 13)
    // and returns it as the best completed path.
    let x = b"x".to_vec();
    let y = b"y".to_vec();
    let a = b"a".to_vec();
    let b = b"b".to_vec();
    let c = b"c".to_vec();
    let d = b"d".to_vec();
    let vocab = [&x, &y, &a, &b, &c, &d];

    let mut ing = Ingested::new();
    ing.tokens = 4;

    // 1-gram channel: the vocabulary, with LUT fibers.
    for t in &vocab {
        let addr = BitAddress::of_token_seeded(t, CHANNEL_SEEDS[0]);
        ing.sketches[0].add_bit(addr.bit());
        ing.luts[0].insert_token_at((*t).clone(), addr.bit());
    }

    // 2-gram channel: the start anchor (PAD, x).
    let start_bigram =
        BitAddress::of_token_seeded(&join2(ing.pad.as_slice(), &x), CHANNEL_SEEDS[1]);
    ing.sketches[1].add_bit(start_bigram.bit());

    // 3-gram channel: both full chains.
    let pad = ing.pad.clone();
    let grams: Vec<Vec<u8>> = vec![
        join3(&pad, &x, &y),
        join3(&x, &y, &a),
        join3(&y, &a, &b),
        join3(&a, &b, &pad),
        join3(&x, &y, &c),
        join3(&y, &c, &d),
        join3(&c, &d, &pad),
    ];
    for gram in &grams {
        let addr = BitAddress::of_token_seeded(gram, CHANNEL_SEEDS[2]);
        ing.sketches[2].add_bit(addr.bit());
    }

    // 4-gram order channel: the joint-check collisions filter.
    let fours: Vec<Vec<u8>> = vec![
        join4(&pad, &x, &y, &a),
        join4(&x, &y, &a, &b),
        join4(&y, &a, &b, &pad),
        join4(&pad, &x, &y, &c),
        join4(&x, &y, &c, &d),
        join4(&y, &c, &d, &pad),
    ];
    for gram in &fours {
        let addr = BitAddress::of_token_seeded(gram, 3);
        ing.g4.add_bit(addr.bit());
    }

    // 2-gram channel: both chains' transitions and terminations.
    let bigrams: Vec<Vec<u8>> = vec![
        join2(&x, &y),
        join2(&y, &a),
        join2(&a, &b),
        join2(&b, &pad),
        join2(&y, &c),
        join2(&c, &d),
        join2(&d, &pad),
    ];
    for gram in &bigrams {
        let addr = BitAddress::of_token_seeded(gram, CHANNEL_SEEDS[1]);
        ing.sketches[1].add_bit(addr.bit());
    }

    // TF: the greedy branch has the higher first step (a=5) but the
    // lower total; the beam branch has the higher total (c=2, d=9).
    ing.tf.increment(&x);
    ing.tf.increment(&y);
    for _ in 0..5 {
        ing.tf.increment(&a);
    }
    ing.tf.increment(&b);
    for _ in 0..2 {
        ing.tf.increment(&c);
    }
    for _ in 0..9 {
        ing.tf.increment(&d);
    }

    // Greedy (beam width 1) follows the highest-TF successor first.
    assert_eq!(materialize(&ing), vec![x.clone(), y.clone(), a, b], "greedy path");

    // Beam width 2 keeps both hypotheses and returns the best complete.
    assert_eq!(
        materialize_beam(&ing, 2),
        vec![x, y, c, d],
        "beam picks the highest-scoring completed path"
    );
}

#[test]
fn count_constraint_prevents_token_overuse() {
    // Vocabulary {a,b,c}, N=3, each observed once. The 3-gram channel
    // additionally carries trap edges (a,b,a) and (b,a,PAD): without the
    // count constraint the bytewise-first walk would return [a,b,a] —
    // reusing `a` twice and never restoring `c`. The constraint forces
    // the true [a,b,c].
    let a = b"a".to_vec();
    let b = b"b".to_vec();
    let c = b"c".to_vec();
    let vocab = [&a, &b, &c];

    let mut ing = Ingested::new();
    ing.tokens = 3;

    for t in &vocab {
        let addr = BitAddress::of_token_seeded(t, CHANNEL_SEEDS[0]);
        ing.sketches[0].add_bit(addr.bit());
        ing.luts[0].insert_token_at((*t).clone(), addr.bit());
        ing.tf.increment(t);
    }
    let start_bigram =
        BitAddress::of_token_seeded(&join2(ing.pad.as_slice(), &a), CHANNEL_SEEDS[1]);
    ing.sketches[1].add_bit(start_bigram.bit());

    let pad = ing.pad.clone();
    // 2-gram channel: true transitions, trap transition, both terminations.
    let bigrams: Vec<Vec<u8>> = vec![
        join2(&a, &b),
        join2(&b, &c),
        join2(&c, &pad),
        join2(&b, &a),
        join2(&a, &pad),
    ];
    for gram in &bigrams {
        let addr = BitAddress::of_token_seeded(gram, CHANNEL_SEEDS[1]);
        ing.sketches[1].add_bit(addr.bit());
    }

    let grams: Vec<Vec<u8>> = vec![
        join3(&pad, &a, &b), // true start
        join3(&a, &b, &c),   // true chain
        join3(&b, &c, &pad), // true end
        join3(&a, &b, &a),   // trap: loops back to a
        join3(&b, &a, &pad), // trap termination for [a,b,a]
    ];
    for gram in &grams {
        let addr = BitAddress::of_token_seeded(gram, CHANNEL_SEEDS[2]);
        ing.sketches[2].add_bit(addr.bit());
    }

    // 4-gram order channel: true transitions, trap transition, and both
    // terminations.
    let fours: Vec<Vec<u8>> = vec![
        join4(&pad, &a, &b, &c),
        join4(&a, &b, &c, &pad),
        join4(&pad, &a, &b, &a),
        join4(&a, &b, &a, &pad),
    ];
    for gram in &fours {
        let addr = BitAddress::of_token_seeded(gram, 3);
        ing.g4.add_bit(addr.bit());
    }

    assert_eq!(
        materialize(&ing),
        vec![a.clone(), b.clone(), c.clone()],
        "count constraint defeats the overuse trap"
    );
    assert_eq!(
        materialize_beam(&ing, 2),
        vec![a, b, c],
        "beam agrees under the constraint"
    );
}

#[test]
fn exact_order_restoration_of_a_long_duplicated_collection() {
    // Deterministic pseudo-frame: 200 tokens over 60 distinct tids, with
    // repeats. The count-constrained De Bruijn walk must restore the
    // exact sequence — this is the image-application objective.
    let collection: Vec<String> = (0..200)
        .map(|i| format!("tid{}", (i * 37 + i / 7) % 60))
        .collect();
    let tokens: Vec<Vec<u8>> = collection.iter().map(|t| t.as_bytes().to_vec()).collect();
    let ing = ingest(&tokens);

    let restored: Vec<String> = materialize(&ing)
        .into_iter()
        .map(|t| String::from_utf8_lossy(&t).into_owned())
        .collect();
    assert_eq!(restored, collection, "greedy restores the exact order");

    let restored_beam: Vec<String> = materialize_beam(&ing, 3)
        .into_iter()
        .map(|t| String::from_utf8_lossy(&t).into_owned())
        .collect();
    assert_eq!(restored_beam, collection, "beam-3 agrees");
}
