use ewm_state_machine::git::store::MemoryStore;
use ewm_state_machine::machine::state::{
    ids_message, ids_message_structural, parse_ids_message, StateCache, RING_CAPACITY,
};
use ewm_state_machine::machine::turn::StateMachine;

#[test]
fn no_change_pass_inside_window_is_skipped() {
    let mut um = StateMachine::new(MemoryStore::default());
    let mut cache = StateCache::empty();

    let first = um.run_turn(&mut cache, &[1, 2, 3]).unwrap();
    assert!(first.commit.is_some(), "new bits commit");
    let second = um.run_turn(&mut cache, &[1, 2, 3]).unwrap();
    assert!(
        second.commit.is_none(),
        "same ids inside the window: no new bits, no basis change"
    );
}

#[test]
fn basis_change_commits_even_without_new_bits() {
    let mut um = StateMachine::new(MemoryStore::default());
    let mut cache = StateCache::empty();

    // Fill the ring window (64 originals) with distinct turns.
    for i in 0..RING_CAPACITY as u32 {
        let out = um.run_turn(&mut cache, &[i]).unwrap();
        assert!(out.commit.is_some(), "turn {i} brings new bits");
    }

    // Turn 64 repeats tid0. No new bits (the cumulative working set
    // already contains tid0), but the window has evicted turn 0, so the
    // basis is recomputed → structural commit.
    let out = um.run_turn(&mut cache, &[0]).unwrap();
    let commit = out
        .commit
        .as_ref()
        .expect("a basis change alone must still commit");
    let msg = um.repo().read_commit(commit).unwrap().message;
    assert!(
        msg.contains("basis-change"),
        "structural commit carries the basis-change suffix: {msg}"
    );
    assert_eq!(
        msg.split(';').next().unwrap(),
        "ids=0",
        "ids stay parseable for recovery"
    );
}

#[test]
fn structural_message_parses_like_a_normal_one() {
    let ids = vec![7u32, 9];
    let structural = ids_message_structural(&ids);
    assert_eq!(
        parse_ids_message(&structural),
        Some(ids.clone()),
        "recovery ignores the ;basis-change suffix"
    );
    assert_eq!(parse_ids_message(&ids_message(&ids)), Some(ids));
}

#[test]
fn a_cache_starts_with_nothing_counted() {
    let fresh = StateCache::empty();
    assert_eq!(fresh.ingestor.total_tokens(), 0);
    assert_eq!(fresh.ingestor.total_new_entries(), 0);

    let mut um = StateMachine::new(MemoryStore::default());
    let mut cache = StateCache::empty();
    um.run_turn(&mut cache, &[1, 2, 3]).unwrap();
    assert_eq!(cache.ingestor.token_tf(b"tid2"), 1);
    assert!(cache.ingestor.total_new_entries() > 0);

    // What was counted stays with the tip, not with the passes of a restored cache.
    let mut restored = StateCache::restore(um.repo());
    assert_eq!(restored.ingestor.total_tokens(), 0);
    assert_eq!(restored.ingestor.total_new_entries(), 0);
    assert_eq!(restored.ingestor.token_tf(b"tid2"), 0);
    um.run_turn(&mut restored, &[2, 9]).unwrap();
    assert_eq!(restored.ingestor.token_tf(b"tid2"), 1);
}
