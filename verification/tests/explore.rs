use ewm_state_machine::explore::page::{render_snapshot, render_store};
use ewm_state_machine::explore::summary::summarize_store;
use ewm_state_machine::explore::user::project_user;
use ewm_state_machine::git::loose::LooseStore;
use ewm_state_machine::git::object::{Object, ObjectId};
use ewm_state_machine::git::repo::{LatticeState, Repository};
use ewm_state_machine::git::store::{MemoryStore, ObjectStore, StoreError};
use ewm_state_machine::hllset::HLLSet;
use ewm_state_machine::machine::state::StateCache;
use ewm_state_machine::machine::turn::StateMachine;

fn bytes(tokens: &[&str]) -> Vec<Vec<u8>> {
    tokens.iter().map(|t| t.as_bytes().to_vec()).collect()
}

fn words(list: &[&str]) -> Vec<String> {
    list.iter().map(|s| s.to_string()).collect()
}

#[test]
fn project_user_gates_the_commit_lattice() {
    let mut repo = Repository::new(MemoryStore::default());

    // User A's codebook, and a commit whose shared lattice mixes A and B
    // tokens — the gated projection keeps only the A-component.
    let codebook = words(&["fin_a", "fin_b", "fin_c", "fin_d"]);
    let state_a = LatticeState::single(&HLLSet::from_tokens(&bytes(&["fin_a", "fin_b"])));
    let commit = repo.commit(&state_a, &[], "user A").unwrap();

    let doc = project_user(&repo, "acme-finance", &commit, &codebook).unwrap();
    assert!(doc.gate_pop >= doc.gated_pop, "gated bits are a subset of the codebook");
    assert!(doc.gated_pop > 0, "the commit carries some of the user's bits");
    assert_eq!(doc.restored_tokens, words(&["fin_a", "fin_b"]));

    // The gated key is stable: same projection twice, same address.
    let doc2 = project_user(&repo, "acme-finance", &commit, &codebook).unwrap();
    assert_eq!(doc.gated_key, doc2.gated_key);
}

#[test]
fn project_user_reads_a_loose_store() {
    let mut repo = Repository::new(LooseStore::new("repo"));
    let mixed = LatticeState::single(&HLLSet::from_tokens(&bytes(&["fin_a", "fin_b", "med_x"])));
    let commit = repo.commit(&mixed, &[], "mixed").unwrap();

    let codebook = words(&["fin_a", "fin_b", "fin_c"]);
    let doc = project_user(&repo, "acme-finance", &commit, &codebook).unwrap();
    assert_eq!(doc.user, "acme-finance");
    assert_eq!(doc.commit, commit.as_str());
    assert!(doc.gated_pop > 0);
    // The foreign med_x is outside the codebook and never restored.
    assert_eq!(doc.restored_tokens, words(&["fin_a", "fin_b"]));
}

#[test]
fn project_user_needs_the_commit() {
    let repo = Repository::new(MemoryStore::default());
    let nowhere = ObjectId::of_bytes(b"nowhere");
    let refused = project_user(&repo, "acme-finance", &nowhere, &words(&["fin_a"]));
    assert_eq!(refused, Err(StoreError::NotFound(nowhere)));
}

#[test]
fn store_render_shows_tip_lattice_tops_and_commits() {
    let mut app = StateMachine::new(MemoryStore::default());
    let mut cache = StateCache::empty();
    app.run_turn(&mut cache, &[10u32, 20, 30]).expect("turn 1");
    app.run_turn(&mut cache, &[20u32, 30, 40]).expect("turn 2");

    let repo = app.repo();
    let text = render_store(repo, "test-store");

    assert!(text.contains("persistent layer"), "text = {text}");
    assert!(text.contains("store : test-store"), "text = {text}");
    assert!(text.contains("tip   :"), "text = {text}");
    assert!(text.contains("lattice tops:"), "text = {text}");
    assert!(text.contains("G1 bits"), "text = {text}");
    assert!(text.contains("hllsetLUT (repo registry"), "text = {text}");
    assert!(text.contains("commits (tip-first):"), "text = {text}");
    assert!(text.contains("#0 ") && text.contains("#1 "), "two commits shown: {text}");
    assert!(text.contains("G1=h:"), "Gx keys shown: {text}");
    assert!(text.contains("D="), "D/R/N shown: {text}");

    let doc = summarize_store(repo, "test-store");
    assert_eq!(doc.commits.len(), 2);
    assert!(doc.commits[0].keys[0].starts_with("h:"));
    assert_eq!(doc.commits[0].index, 1, "the tip comes first");
    assert_eq!(doc.commits[0].parents, vec![doc.commits[1].id.clone()]);
}

#[test]
fn an_empty_store_is_rendered_in_full() {
    let repo = Repository::new(MemoryStore::default());
    let text = render_store(&repo, "nothing");
    assert_eq!(
        text,
        "=== ewm-state-machine explorer: persistent layer ===\nstore : nothing\ntip   : <none>\n\
         context bits (G1 lattice top): 0\n\nlattice tops:\n  G1 bits = 0\n  G2 bits = 0\n  G3 bits = 0\n\n\
         hllsetLUT (repo registry, ranked by TH):\n  (empty)\n\ncommits (tip-first):\n  (no commits)\n"
    );
}

#[test]
fn a_lost_object_is_shown_as_unreadable() {
    let mut repo = Repository::new(MemoryStore::default());
    let state = LatticeState::single(&HLLSet::from_tokens(&bytes(&["a"])));
    let tip = repo.commit(&state, &[], "only").unwrap();
    assert!(matches!(repo.store().get(&tip), Ok(Object::Commit(_))));
    repo.store_mut().delete(&tip).unwrap();
    let text = render_store(&repo, "holes");
    assert!(text.contains("  (log unreadable)"), "text = {text}");
}

#[test]
fn snapshot_render_shows_st_area_and_cache_stubs() {
    let mut app = StateMachine::new(MemoryStore::default());
    let mut cache = StateCache::empty();
    app.run_turn(&mut cache, &[1u32, 2, 3]).expect("turn 1");

    let snap = app.snapshot(&cache);
    let text = render_snapshot(&snap);
    assert!(text.contains("S(t) run-time"), "text = {text}");
    assert!(text.contains("working     : G1="), "text = {text}");
    assert!(text.contains("tree        : root="), "text = {text}");
    assert!(text.contains("#0 ids=[1, 2, 3]"), "turn shown: {text}");
    assert!(text.contains("cache: designed (Arrow)"), "cache stub: {text}");
    assert!(text.contains("MANIFEST"), "batch names: {text}");
}
