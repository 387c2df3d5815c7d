use ewm_state_machine::context_tree::{ContextTree, Leaf};
use ewm_state_machine::digest::sha1_hex;

fn leaf(h: &str) -> Leaf {
    Leaf { h: h.to_string(), views: Vec::new() }
}

fn tree(hs: &[&str]) -> ContextTree {
    ContextTree::build(hs.iter().map(|h| leaf(h)).collect())
}

#[test]
fn build_is_canonical_and_deduplicates() {
    let a = ContextTree::build(vec![leaf("h:b"), leaf("h:a"), leaf("h:b")]);
    let b = ContextTree::build(vec![leaf("h:a"), leaf("h:b")]);
    assert_eq!(a, b, "same leaf set ⇒ same root");
    assert_eq!(a.leaves().len(), 2, "duplicate h deduplicated");
    assert_eq!(a.root(), b.root());
}

#[test]
fn insert_and_remove_are_reversible() {
    let base = tree(&["h:a", "h:b"]);
    let with_c = base.insert(leaf("h:c"));
    assert!(with_c.contains("h:c"));
    assert_eq!(with_c.remove("h:c"), base, "insert∘remove = id");

    let removed = base.remove("h:b");
    assert!(!removed.contains("h:b"));
    assert_eq!(removed.insert(leaf("h:b")), base, "remove∘insert = id");
}

#[test]
fn merge_is_a_lattice_join() {
    let a = tree(&["h:a", "h:b"]);
    let b = tree(&["h:b", "h:c"]);
    let c = tree(&["h:c", "h:d"]);

    // Idempotent / commutative / associative on canonical roots.
    assert_eq!(a.merge(&a), a, "idempotent");
    assert_eq!(a.merge(&b), b.merge(&a), "commutative");
    assert_eq!(
        a.merge(&b).merge(&c),
        a.merge(&b.merge(&c)),
        "associative"
    );
    assert_eq!(a.merge(&b).leaves().len(), 3, "union");
}

#[test]
fn meet_join_and_difference_form_a_lattice() {
    let a = tree(&["h:a", "h:b"]);
    let b = tree(&["h:b", "h:c"]);

    assert_eq!(a.intersection(&b).leaves().len(), 1, "meet");
    assert_eq!(a.difference(&b).leaves().len(), 1, "A \\ B");
    assert_eq!(b.difference(&a).leaves().len(), 1, "B \\ A");
    // A = (A ∩ B) ∪ (A \ B)
    assert_eq!(
        a.intersection(&b).merge(&a.difference(&b)),
        a,
        "meet ∪ difference = self"
    );
}

#[test]
fn diff_reports_leaf_level_drn() {
    let prev = tree(&["h:a", "h:b"]);
    let now = tree(&["h:a", "h:c"]);
    let diff = prev.diff(&now);

    assert_eq!(diff.added, vec!["h:c".to_string()]);
    assert_eq!(diff.removed, vec!["h:b".to_string()]);
    assert_eq!(diff.retained, vec!["h:a".to_string()]);
    // D ∩ N = ∅ by construction.
    assert!(diff.added.iter().all(|h| !diff.removed.contains(h)));
}

#[test]
fn views_are_hashed_into_the_root() {
    let mut with_view = leaf("h:a");
    with_view.views = vec![("main".to_string(), "v:aaaa".to_string())];
    let plain = tree(&["h:a"]);
    let viewed = ContextTree::build(vec![with_view]);
    assert_ne!(plain.root(), viewed.root(), "views change the root");
}

#[test]
fn empty_tree_has_a_stable_root() {
    assert_eq!(ContextTree::empty(), ContextTree::build(Vec::new()));
    assert_eq!(ContextTree::empty().root(), sha1_hex(b"empty-context"));
}

fn viewed(h: &str, views: &[(&str, &str)]) -> Leaf {
    Leaf { h: h.to_string(), views: views.iter().map(|(a, b)| (a.to_string(), b.to_string())).collect() }
}

#[test]
fn texts_of_views_do_not_run_into_each_other() {
    let a = ContextTree::build(vec![viewed("h:a", &[("ab", "c")])]);
    let b = ContextTree::build(vec![viewed("h:a", &[("a", "bc")])]);
    assert_ne!(a.root(), b.root());
    // Nor does a key run into the views behind it.
    let c = ContextTree::build(vec![viewed("h:aab", &[("", "c")])]);
    assert_ne!(a.root(), c.root());
    // One view of two texts is not two views.
    let d = ContextTree::build(vec![viewed("h", &[("a", "b"), ("c", "d")])]);
    let e = ContextTree::build(vec![viewed("h", &[("a", "b\u{0}c"), ("", "d")])]);
    assert_ne!(d.root(), e.root());
}

#[test]
fn a_leaf_is_hashed_part_by_part() {
    let plain = ContextTree::build(vec![leaf("h:a")]);
    assert_eq!(plain.root(), sha1_hex(b"\x00h:a"));
    let with_view = ContextTree::build(vec![viewed("h:a", &[("main", "v:1")])]);
    assert_eq!(with_view.root(), sha1_hex(b"\x00h:a\xffmain\xffv:1"));
}

#[test]
fn views_of_shared_keys_are_joined() {
    let a = ContextTree::build(vec![viewed("h:a", &[("a", "c"), ("a", "b")])]);
    let b = ContextTree::build(vec![viewed("h:a", &[("a", "d"), ("a", "c")]), leaf("h:b")]);
    let c = ContextTree::build(vec![viewed("h:a", &[("0", "z"), ("0", "z")])]);
    assert_eq!(a.merge(&b), b.merge(&a));
    assert_eq!(a.merge(&b).leaves()[0], viewed("h:a", &[("a", "b"), ("a", "c"), ("a", "d")]));
    assert_eq!(a.merge(&b).merge(&c), a.merge(&b.merge(&c)));
    assert_eq!(c.merge(&c), c, "a view that a leaf has twice stays twice");
    assert_eq!(c.merge(&a).leaves()[0], viewed("h:a", &[("0", "z"), ("0", "z"), ("a", "b"), ("a", "c")]));
    assert_eq!(a.intersection(&b).merge(&a.difference(&b)), a);
    assert_eq!(a.merge(&a.intersection(&b)), a);
    assert_eq!(a.intersection(&a.merge(&b)), a);
}

#[test]
fn leaves_may_come_in_any_order() {
    let x = viewed("h:a", &[("a", "b")]);
    let y = viewed("h:a", &[("a", "c")]);
    let z = viewed("h:b", &[("q", "r"), ("a", "b")]);
    let one = ContextTree::build(vec![x.copy(), y.copy(), z.copy()]);
    let other = ContextTree::build(vec![z.copy(), y.copy(), x.copy(), y.copy()]);
    assert_eq!(one, other);
    assert_eq!(one.root(), other.root());
    assert_eq!(one.leaves()[0], viewed("h:a", &[("a", "b"), ("a", "c")]));
    assert_eq!(one.leaves()[1], viewed("h:b", &[("a", "b"), ("q", "r")]));
}
