use ewm_state_machine::git::loose::LooseStore;
use ewm_state_machine::git::object::{Gx, Object, ObjectId};
use ewm_state_machine::git::repo::{LatticeState, Repository};
use ewm_state_machine::git::store::{MemoryStore, ObjectStore};
use ewm_state_machine::git::view::view;
use ewm_state_machine::hllset::HLLSet;

fn hll(tokens: &[&str]) -> HLLSet {
    HLLSet::from_tokens(&bytes(tokens))
}

fn bytes(tokens: &[&str]) -> Vec<Vec<u8>> {
    tokens.iter().map(|t| t.as_bytes().to_vec()).collect()
}

fn gs(tokens: &[&str]) -> LatticeState {
    LatticeState::single(&hll(tokens))
}

#[test]
fn full_lifecycle_over_memory_store() {
    let mut repo = Repository::new(MemoryStore::default());

    // Linear history: S0 ⊂ S1 ⊂ S2 … (monotone union)
    let c0 = repo.commit(&gs(&["a"]), &[], "start").unwrap();
    let c1 = repo.commit(&gs(&["a", "b"]), &[c0.clone()], "add b").unwrap();
    let c2 = repo.commit(&gs(&["a", "b", "c"]), &[c1.clone()], "add c").unwrap();

    let v2 = view(&repo, &c2).unwrap();
    assert_eq!(v2.departed.popcount(), 0, "monotone: nothing departs");
    assert_eq!(v2.retained.popcount(), hll(&["a", "b"]).popcount());
    assert_eq!(v2.new.popcount(), hll(&["c"]).popcount());

    // Branch + merge: the join is a derivation (no commit); record it
    // explicitly when topology matters.
    let side = repo.commit(&gs(&["a", "d"]), &[c0.clone()], "side").unwrap();
    let joined = repo.merge(&c2, &side).unwrap();
    let merged = repo.merge_commit(&c2, &side, "merge").unwrap();
    assert_eq!(joined.g1.popcount(), repo.state(&merged).unwrap().popcount());
    let mv = view(&repo, &merged).unwrap();
    assert_eq!(
        mv.state.popcount(),
        hll(&["a", "b", "c"]).union(&hll(&["a", "d"])).popcount()
    );
    assert_eq!(mv.parents, vec![c2, side]);

    // The H(t) view of the merge: D ∪ R = H(t-1), R ∪ N = S(t).
    assert_eq!(
        mv.departed.union(&mv.retained).popcount(),
        mv.parent_state.popcount()
    );
    assert_eq!(
        mv.retained.union(&mv.new).popcount(),
        mv.state.popcount()
    );
}

#[test]
fn gc_keeps_history_and_prunes_orphans() {
    let mut repo = Repository::new(MemoryStore::default());
    let a = repo.commit(&gs(&["keep"]), &[], "root").unwrap();
    let orphan = repo.commit(&gs(&["gone"]), &[], "orphan").unwrap();
    let b = repo.commit(&gs(&["keep", "more"]), &[a.clone()], "tip").unwrap();

    let pruned = repo.gc(&[]).unwrap().pruned;
    assert!(pruned >= 1, "the orphan's objects must be pruned");
    assert!(repo.store().contains(&a));
    assert!(repo.store().contains(&b));
    assert!(!repo.store().contains(&orphan));
    assert_eq!(repo.log().unwrap().len(), 2);
}

#[test]
fn gc_to_archives_pruned_branches() {
    let mut repo = Repository::new(MemoryStore::default());
    let a = repo.commit(&gs(&["keep"]), &[], "root").unwrap();
    let orphan = repo.commit(&gs(&["pruned", "branch"]), &[], "orphan").unwrap();
    let b = repo.commit(&gs(&["keep", "more"]), &[a.clone()], "tip").unwrap();

    // Archive-before-prune: the orphan's objects move to the archive.
    let mut archive = MemoryStore::default();
    let report = repo.gc_to(&mut archive, &[]).unwrap();
    assert_eq!(report.pruned, report.archived);
    assert!(report.archived >= 1, "orphan objects must be archived");

    // Working store: pruned. Archive: the branch is still addressable.
    assert!(!repo.store().contains(&orphan));
    assert!(repo.store().contains(&b));
    assert!(archive.contains(&orphan), "pruned branch must live on in the archive");

    // And its G1 state is still resolvable from the archive.
    let commit = match archive.get(&orphan).unwrap() {
        Object::Commit(c) => c,
        _ => panic!("expected commit"),
    };
    let state_blob = archive.get(&commit.trees[0]).unwrap();
    match state_blob {
        Object::Blob(bytes) => {
            let restored = HLLSet::from_bytes(&bytes).unwrap();
            assert_eq!(restored.popcount(), hll(&["pruned", "branch"]).popcount());
        }
        _ => panic!("expected state blob"),
    }
}

#[test]
fn time_travel_project_any_hllset_onto_any_commit() {
    let mut repo = Repository::new(MemoryStore::default());
    let c0 = repo.commit(&gs(&["a", "b"]), &[], "t0").unwrap();
    let c1 = repo.commit(&gs(&["a", "b", "c"]), &[c0.clone()], "t1").unwrap();

    let query = hll(&["a", "c", "z"]);
    // At t0 only "a" existed; at t1 "a" and "c" existed.
    assert_eq!(repo.project(&query, &c0, Gx::G1).unwrap().popcount(), hll(&["a"]).popcount());
    assert_eq!(
        repo.project(&query, &c1, Gx::G1).unwrap().popcount(),
        hll(&["a", "c"]).popcount()
    );
    // All three channels project consistently (single-seed in this test).
    let all = repo.project_all(&query, &c0).unwrap();
    assert_eq!(all[0].popcount(), all[1].popcount());
    assert_eq!(all[1].popcount(), all[2].popcount());
}

#[test]
fn content_addressing_is_iica() {
    let mut r1 = Repository::new(MemoryStore::default());
    let mut r2 = Repository::new(MemoryStore::default());
    let a1 = r1.commit(&gs(&["same"]), &[], "m").unwrap();
    let a2 = r2.commit(&gs(&["same"]), &[], "m").unwrap();
    assert_eq!(a1, a2);
    let b1 = r1.commit(&gs(&["same", "next"]), &[a1.clone()], "m2").unwrap();
    let b2 = r2.commit(&gs(&["same", "next"]), &[a2.clone()], "m2").unwrap();
    assert_eq!(b1, b2, "identical DAGs must be bit-for-bit identical");
}

/// The store that is read from the files of another.
fn reopened(store: &LooseStore) -> LooseStore {
    let mut fresh = LooseStore::new(&store.root);
    for id in store.ids() {
        let (_, bytes) = store.file(&id).expect("a file for each id");
        fresh.load_file(id.as_str(), &bytes);
    }
    if let Some(id) = store.read_head() {
        fresh.load_head(id.as_str());
    }
    fresh
}

#[test]
fn loose_store_full_lifecycle() {
    let files = {
        let mut repo = Repository::new(LooseStore::new("repo"));
        let a = repo.commit(&gs(&["x", "y"]), &[], "a").unwrap();
        let b = repo.commit(&gs(&["y", "z"]), &[a.clone()], "b").unwrap();
        assert_eq!(repo.state(&b).unwrap().popcount(), hll(&["y", "z"]).popcount());
        let v = view(&repo, &b).unwrap();
        assert_eq!(v.departed.popcount(), hll(&["x"]).popcount());
        reopened(repo.store())
    };
    // The store is read again: its objects and its head are in the files.
    {
        let mut repo = Repository::open(files);
        assert_eq!(repo.log().unwrap().len(), 2);
        let pruned = repo.gc(&[]).unwrap().pruned;
        assert_eq!(pruned, 0, "already minimal after reopen");
    }
}

#[test]
fn the_log_puts_every_commit_behind_its_parents() {
    let mut repo = Repository::new(MemoryStore::default());
    let s = gs(&["s"]);
    let r = repo.commit(&s, &[], "r").unwrap();
    let a = repo.commit(&s, &[r.clone()], "a").unwrap();
    let b = repo.commit(&s, &[a.clone()], "b").unwrap();
    let m = repo.commit(&s, &[r.clone(), b.clone()], "m").unwrap();
    assert_eq!(repo.log(), Ok(vec![r.clone(), a.clone(), b.clone(), m.clone()]));

    // Two branches of one root, joined: the later reached come first.
    let x = repo.commit(&s, &[m.clone()], "x").unwrap();
    let y = repo.commit(&s, &[m.clone()], "y").unwrap();
    let j = repo.commit(&s, &[x.clone(), y.clone()], "j").unwrap();
    assert_eq!(repo.log(), Ok(vec![r, a, b, m, y, x, j]));
}

#[test]
fn what_cannot_be_archived_is_not_pruned() {
    let mut repo = Repository::new(LooseStore::default());
    let lost = repo.commit(&gs(&["lost"]), &[], "lost").unwrap();
    let tip = repo.commit(&gs(&["tip"]), &[], "tip").unwrap();
    let spoiled = "ab".repeat(20);
    repo.store_mut().load_file(&spoiled, b"no object");
    let spoiled = ewm_state_machine::git::object::ObjectId(spoiled);

    let mut archive = MemoryStore::default();
    let report = repo.gc_to(&mut archive, &[]).unwrap();
    // The commit, its set and its frequencies; one set serves all three channels.
    assert_eq!((report.pruned, report.archived, report.delete_failed), (3, 3, 0));
    assert!(!repo.store().contains(&lost));
    assert!(archive.contains(&lost));
    assert!(repo.store().contains(&tip));
    assert!(repo.store().contains(&spoiled), "an unreadable file stays");
    assert!(!archive.contains(&spoiled));
}

/// A history of two commits whose tip cannot be read.
fn with_unreadable_tip() -> (Repository<LooseStore>, ObjectId, ObjectId) {
    let mut repo = Repository::new(LooseStore::default());
    let root = repo.commit(&gs(&["root"]), &[], "root").unwrap();
    let tip = repo.commit(&gs(&["tip"]), &[root.clone()], "tip").unwrap();
    repo.store_mut().load_file(tip.as_str(), b"no object");
    (repo, root, tip)
}

#[test]
fn a_mark_passes_over_what_cannot_be_read() {
    // Two commits with a set and frequencies each: only the tip itself is reached.
    let (mut repo, root, tip) = with_unreadable_tip();
    let report = repo.gc(&[]).unwrap();
    assert_eq!((report.pruned, report.archived, report.delete_failed), (5, 0, 0));
    assert!(!repo.store().contains(&root));
    assert_eq!(repo.store().ids(), vec![tip]);

    let (mut repo, root, tip) = with_unreadable_tip();
    let mut archive = MemoryStore::default();
    let report = repo.gc_to(&mut archive, &[]).unwrap();
    assert_eq!((report.pruned, report.archived, report.delete_failed), (5, 5, 0));
    assert!(archive.contains(&root));
    assert_eq!(repo.store().ids(), vec![tip]);

    // An extra root keeps its history.
    let (mut repo, root, _) = with_unreadable_tip();
    assert_eq!(repo.gc(&[root.clone()]).unwrap().pruned, 2);
    assert_eq!(repo.state(&root).unwrap().popcount(), hll(&["root"]).popcount());
}

#[test]
fn one_spoiled_file_leaves_the_others_readable() {
    let mut repo = Repository::new(LooseStore::default());
    let root = repo.commit(&gs(&["root"]), &[], "root").unwrap();
    let tip = repo.commit(&gs(&["root", "tip"]), &[root.clone()], "tip").unwrap();
    let side = repo.commit(&gs(&["side"]), &[root.clone()], "side").unwrap();
    repo.store_mut().load_file(side.as_str(), b"no object");

    assert_eq!(repo.state(&tip).unwrap().popcount(), hll(&["root", "tip"]).popcount());
    assert_eq!(view(&repo, &tip).unwrap().parents, vec![root.clone()]);
    assert_eq!(repo.merge(&root, &tip).unwrap().g1.popcount(), hll(&["root", "tip"]).popcount());
    assert!(repo.state(&side).is_err());
    assert!(view(&repo, &side).is_err());
    assert!(repo.log().is_err());

    // A later commit over what can be read has a history again.
    let last = repo.commit(&gs(&["last"]), &[tip.clone()], "last").unwrap();
    assert_eq!(repo.log(), Ok(vec![root, tip, last]));
}
