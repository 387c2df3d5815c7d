use ewm_state_machine::git::intake::Ingestor;
use ewm_state_machine::git::object::{Gx, ObjectId};
use ewm_state_machine::git::registry::BitTf;
use ewm_state_machine::git::repo::{LatticeState, Repository};
use ewm_state_machine::git::store::{MemoryStore, ObjectStore};
use ewm_state_machine::hllset::HLLSet;

fn hll(tokens: &[&str]) -> HLLSet {
    HLLSet::from_tokens(&bytes(tokens))
}

fn bytes(tokens: &[&str]) -> Vec<Vec<u8>> {
    tokens.iter().map(|t| t.as_bytes().to_vec()).collect()
}

#[test]
fn commit_chain_and_state_roundtrip() {
    let mut repo = Repository::new(MemoryStore::default());
    let a = repo.commit(&LatticeState::single(&hll(&["a", "b"])), &[], "first").unwrap();
    let b = repo
        .commit(&LatticeState::single(&hll(&["b", "c"])), &[a.clone()], "second")
        .unwrap();
    assert_eq!(repo.head(), Some(&b));
    assert_eq!(repo.state(&a).unwrap().popcount(), hll(&["a", "b"]).popcount());
    let log = repo.log().unwrap();
    assert_eq!(log, vec![a, b]);
}

#[test]
fn commit_links_all_three_channels() {
    let mut repo = Repository::new(MemoryStore::default());
    let state = LatticeState {
        g1: hll(&["one"]),
        g2: hll(&["two"]),
        g3: hll(&["three"]),
        tf: BitTf::new(),
    };
    let c = repo.commit(&state, &[], "channels").unwrap();
    assert_eq!(repo.state_channel(&c, Gx::G1).unwrap().popcount(), state.g1.popcount());
    assert_eq!(repo.state_channel(&c, Gx::G2).unwrap().popcount(), state.g2.popcount());
    assert_eq!(repo.state_channel(&c, Gx::G3).unwrap().popcount(), state.g3.popcount());
}

#[test]
fn time_travel_projects_onto_previous_commit() {
    let mut repo = Repository::new(MemoryStore::default());
    let early = repo
        .commit(&LatticeState::single(&hll(&["a", "b"])), &[], "early")
        .unwrap();
    let later = repo
        .commit(&LatticeState::single(&hll(&["a", "b", "c"])), &[early.clone()], "later")
        .unwrap();

    // The query "a, c, d" projected onto the EARLY commit: only "a" existed.
    let query = hll(&["a", "c", "d"]);
    let projected = repo.project(&query, &early, Gx::G1).unwrap();
    assert_eq!(projected.popcount(), hll(&["a"]).popcount());

    // Onto the LATER commit: "a" and "c" existed.
    let projected = repo.project(&query, &later, Gx::G1).unwrap();
    assert_eq!(projected.popcount(), hll(&["a", "c"]).popcount());
}

#[test]
fn merge_is_lattice_join_per_channel() {
    let mut repo = Repository::new(MemoryStore::default());
    let a = repo.commit(&LatticeState::single(&hll(&["x", "y"])), &[], "a").unwrap();
    let b = repo.commit(&LatticeState::single(&hll(&["y", "z"])), &[], "b").unwrap();
    // merge is a derivation — no commit, no HEAD update.
    let joined = repo.merge(&a, &b).unwrap();
    let expected = hll(&["x", "y"]).union(&hll(&["y", "z"]));
    assert_eq!(joined.g1.popcount(), expected.popcount());
    assert_eq!(repo.head(), Some(&b), "merge must not update HEAD");

    // Explicit git-style merge commit records the two-parent topology.
    let m = repo.merge_commit(&a, &b, "join").unwrap();
    let commit = repo.read_commit(&m).unwrap();
    assert_eq!(commit.parents, vec![a, b]);
}

#[test]
fn gc_prunes_unreachable() {
    let mut repo = Repository::new(MemoryStore::default());
    let a = repo.commit(&LatticeState::single(&hll(&["keep"])), &[], "root").unwrap();
    let orphan = repo
        .commit(&LatticeState::single(&hll(&["gone"])), &[], "orphan")
        .unwrap();
    let b = repo
        .commit(&LatticeState::single(&hll(&["keep", "more"])), &[a.clone()], "tip")
        .unwrap();
    let pruned = repo.gc(&[]).unwrap().pruned;
    assert!(pruned >= 1);
    assert!(repo.store().contains(&b));
    assert!(repo.store().contains(&a));
    assert!(!repo.store().contains(&orphan));
}

#[test]
fn content_addressing_is_deterministic() {
    let mut r1 = Repository::new(MemoryStore::default());
    let mut r2 = Repository::new(MemoryStore::default());
    let c1 = r1
        .commit(&LatticeState::single(&hll(&["same", "state"])), &[], "same message")
        .unwrap();
    let c2 = r2
        .commit(&LatticeState::single(&hll(&["same", "state"])), &[], "same message")
        .unwrap();
    assert_eq!(c1, c2, "identical content must yield identical addresses");
}

#[test]
fn hllset_lut_counts_touches_across_operations() {
    let mut repo = Repository::new(MemoryStore::default());
    let state_a = LatticeState {
        g1: hll(&["a1"]),
        g2: hll(&["a2"]),
        g3: hll(&["a3"]),
        tf: BitTf::new(),
    };
    let state_b = LatticeState {
        g1: hll(&["b1"]),
        g2: hll(&["b2"]),
        g3: hll(&["b3"]),
        tf: BitTf::new(),
    };
    let a = repo.commit(&state_a, &[], "a").unwrap();
    let b = repo.commit(&state_b, &[a.clone()], "b").unwrap();

    // Each commit registers its three channel blobs (distinct → 6 total).
    assert_eq!(repo.hllset_lut().len(), 6, "two commits × three channels");

    // Merge touches the parents' six channel HLLSets (content ids).
    let joined = repo.merge(&a, &b).unwrap();
    let cid_a = ObjectId::of_bytes(&repo.state_channel(&a, Gx::G1).unwrap().to_bytes());
    let cid_b = ObjectId::of_bytes(&repo.state_channel(&b, Gx::G1).unwrap().to_bytes());
    assert!(repo.hllset_lut().th(&cid_a) >= 2, "commit + merge touch");
    assert!(repo.hllset_lut().th(&cid_b) >= 2, "commit + merge touch");

    // Explicit merge commit (for the project-touch check).
    let m = repo.merge_commit(&a, &b, "join").unwrap();
    let cid_m = ObjectId::of_bytes(&repo.state_channel(&m, Gx::G1).unwrap().to_bytes());
    assert_eq!(repo.hllset_lut().th(&cid_m), 1, "commit touch only so far");
    let _ = repo.project(&hll(&["a1"]), &m, Gx::G1).unwrap();
    assert_eq!(repo.hllset_lut().th(&cid_m), 2, "project touch");
    assert_eq!(joined.g1.popcount(), repo.state(&m).unwrap().popcount());
}

#[test]
fn commit_carries_bit_tf_snapshot() {
    let mut repo = Repository::new(MemoryStore::default());
    let a = repo
        .commit(&LatticeState::single(&hll(&["a", "b", "c"])), &[], "a")
        .unwrap();
    let tf = repo.state_tf(&a).unwrap();
    assert_eq!(tf.active_bits(), hll(&["a", "b", "c"]).popcount() as usize);
    assert_eq!(tf.total() as f64, hll(&["a", "b", "c"]).popcount() as f64);
}

#[test]
fn ingest_commits_and_updates_hllset_lut() {
    let mut repo = Repository::new(MemoryStore::default());
    let mut ingestor = Ingestor::new(&[0, 1, 2]);

    let commit = repo
        .ingest(&mut ingestor, &bytes(&["alpha", "beta", "alpha"]), "ingest pass")
        .unwrap()
        .expect("first ingest brings new bits");

    // Three channels resolved from the commit.
    let states = repo.states(&commit).unwrap();
    assert_eq!(states.len(), 3);
    assert!(states[0].popcount() > 0);

    // HLLSet-LUT: three originals registered; each touched twice —
    // once by the ingest sink, once by the commit.
    assert_eq!(repo.hllset_lut().len(), 3, "one original per channel");
    for state in &states {
        let cid = ObjectId::of_bytes(&state.to_bytes());
        assert_eq!(repo.hllset_lut().th(&cid), 2, "ingest + commit touch");
    }

    // Per-token TF accumulated in the ingestor.
    assert_eq!(ingestor.token_tf(b"alpha"), 2);
    assert_eq!(ingestor.token_tf(b"beta"), 1);
}

#[test]
fn ingest_without_changes_skips_commit() {
    let mut repo = Repository::new(MemoryStore::default());
    let mut ingestor = Ingestor::new(&[0, 1, 2]);

    let first = repo
        .ingest(&mut ingestor, &bytes(&["a", "b"]), "first")
        .unwrap()
        .expect("new bits");
    assert_eq!(repo.head(), Some(&first));

    // Same tokens again: every bit already covered → no commit.
    let second = repo.ingest(&mut ingestor, &bytes(&["a", "b"]), "repeat").unwrap();
    assert_eq!(second, None, "no new bits → no commit");
    assert_eq!(repo.head(), Some(&first), "HEAD unchanged");
    assert_eq!(repo.log().unwrap().len(), 1, "exactly one commit");

    // A token that brings a new bit still commits.
    let third = repo
        .ingest(&mut ingestor, &bytes(&["c"]), "third")
        .unwrap()
        .expect("new bit");
    assert_ne!(&third, &first);
    assert_eq!(repo.log().unwrap().len(), 2);
}

#[test]
fn context_warning_after_threshold() {
    let mut repo = Repository::new(MemoryStore::default());
    let mut ingestor = Ingestor::new(&[0, 1, 2]);
    repo.ingest(&mut ingestor, &bytes(&["a", "b", "c"]), "seed").unwrap();

    let bits = repo.context_size();
    assert!(bits > 0);

    // No warning below/at threshold.
    assert_eq!(repo.context_warning(bits), None);
    // Warning once the threshold is crossed.
    let warning = repo.context_warning(bits - 1).unwrap();
    assert_eq!(warning.bits, bits);
    assert!(warning.message().contains("consider compression"));
}
