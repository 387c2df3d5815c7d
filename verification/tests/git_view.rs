use ewm_state_machine::git::object::Gx;
use ewm_state_machine::git::registry::BitTf;
use ewm_state_machine::git::repo::{LatticeState, Repository};
use ewm_state_machine::git::store::MemoryStore;
use ewm_state_machine::git::view::{view, views};
use ewm_state_machine::hllset::HLLSet;

fn hll(tokens: &[&str]) -> HLLSet {
    HLLSet::from_tokens(&bytes(tokens))
}

fn bytes(tokens: &[&str]) -> Vec<Vec<u8>> {
    tokens.iter().map(|t| t.as_bytes().to_vec()).collect()
}

#[test]
fn commit_view_decomposition_invariants() {
    let mut repo = Repository::new(MemoryStore::default());
    let root = repo
        .commit(&LatticeState::single(&hll(&["a", "b"])), &[], "root")
        .unwrap();
    let tip = repo
        .commit(&LatticeState::single(&hll(&["b", "c", "d"])), &[root.clone()], "tip")
        .unwrap();

    let v = view(&repo, &tip).unwrap();
    assert_eq!(v.parents, vec![root]);
    assert_eq!(v.channel, Gx::G1);

    // D ∪ R = H(t-1)
    assert_eq!(
        v.departed.union(&v.retained).popcount(),
        v.parent_state.popcount()
    );
    // R ∪ N = S(t)
    assert_eq!(
        v.retained.union(&v.new).popcount(),
        v.state.popcount()
    );
    // D ∩ N = ∅
    assert_eq!(v.departed.intersection(&v.new).popcount(), 0);
    // D = {a}, R = {b}, N = {c, d}
    assert_eq!(v.departed.popcount(), hll(&["a"]).popcount());
    assert_eq!(v.retained.popcount(), hll(&["b"]).popcount());
    assert_eq!(v.new.popcount(), hll(&["c", "d"]).popcount());
}

#[test]
fn root_has_empty_parent_state() {
    let mut repo = Repository::new(MemoryStore::default());
    let root = repo
        .commit(&LatticeState::single(&hll(&["a"])), &[], "root")
        .unwrap();
    let v = view(&repo, &root).unwrap();
    assert_eq!(v.parent_state.popcount(), 0);
    assert_eq!(v.new.popcount(), v.state.popcount());
}

#[test]
fn three_channel_views_are_commit_linked() {
    let mut repo = Repository::new(MemoryStore::default());
    let state = LatticeState {
        g1: hll(&["one"]),
        g2: hll(&["two"]),
        g3: hll(&["three"]),
        tf: BitTf::new(),
    };
    let c = repo.commit(&state, &[], "channels").unwrap();
    let vs = views(&repo, &c).unwrap();
    assert_eq!(vs[0].state.popcount(), state.g1.popcount());
    assert_eq!(vs[1].state.popcount(), state.g2.popcount());
    assert_eq!(vs[2].state.popcount(), state.g3.popcount());
    assert_eq!(vs[0].commit, c);
    assert_eq!(vs[1].commit, c);
    assert_eq!(vs[2].commit, c);
}
