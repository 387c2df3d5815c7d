//! A content-addressed Merkle tree over the leaves of a context.
//!
//! A tree is determined by what it maps each leaf's key to: the bag of its views.
//! Leaves stand in ascending key order, their views in order; the levels and the
//! root follow from them.

use vstd::multiset::Multiset;
use vstd::prelude::*;

use crate::order::Keyed;
use crate::order::Side;
use crate::digest;
use crate::lut;
use crate::order;
use crate::text;
use crate::search;

verus! {

/// A leaf: a content key and the views recorded for it.
#[derive(Clone, Debug, PartialEq, Eq)]
pub struct Leaf {
    pub h: String,
    pub views: Vec<(String, String)>,
}

/// The leaf-level differences between two trees.
#[derive(Clone, Debug, PartialEq, Eq)]
pub struct TreeDiff {
    pub added: Vec<String>,
    pub removed: Vec<String>,
    pub retained: Vec<String>,
}

/// The model of a list of views.
pub open spec fn view_list(v: Seq<(String, String)>) -> Seq<(Seq<char>, Seq<char>)> {
    v.map_values(pair_view())
}

pub open spec fn pair_view() -> spec_fn((String, String)) -> (Seq<char>, Seq<char>) {
    |p: (String, String)| (p.0@, p.1@)
}

/// The rank of a pair of texts: the first text, then the second, in byte order.
pub open spec fn pair_rank() -> spec_fn((Seq<char>, Seq<char>)) -> Seq<Seq<int>> {
    |p: (Seq<char>, Seq<char>)| seq![order::ints(text::utf8(p.0)), order::ints(text::utf8(p.1))]
}

/// Views in order.
pub open spec fn sorted_views(v: Seq<(Seq<char>, Seq<char>)>) -> Seq<(Seq<char>, Seq<char>)> {
    order::ranked(v, pair_rank())
}

pub proof fn pair_rank_faithful()
    ensures
        order::faithful(pair_rank()),
{
    let r = pair_rank();
    assert forall|a: (Seq<char>, Seq<char>), b: (Seq<char>, Seq<char>)| #[trigger] r(a) == #[trigger] r(b) implies a
        == b by {
        assert(r(a)[0] == r(b)[0] && r(a)[1] == r(b)[1]);
        order::ints_injective(text::utf8(a.0), text::utf8(b.0));
        order::ints_injective(text::utf8(a.1), text::utf8(b.1));
        text::utf8_injective(a.0, b.0);
        text::utf8_injective(a.1, b.1);
    }
}

impl Keyed for (String, String) {
    open spec fn rank(&self) -> Seq<Seq<int>> {
        seq![order::ints(text::utf8(self.0@)), order::ints(text::utf8(self.1@))]
    }

    fn before(&self, other: &Self) -> (first: bool) {
        let a = order::compare_bytes(self.0.as_str().as_bytes(), other.0.as_str().as_bytes());
        let b = order::compare_bytes(self.1.as_str().as_bytes(), other.1.as_str().as_bytes());
        proof {
            two_column_order(text::utf8(self.0@), text::utf8(self.1@), text::utf8(other.0@), text::utf8(other.1@));
        }
        match a {
            Side::Less => true,
            Side::Greater => false,
            Side::Same => match b {
                Side::Less => true,
                _ => false,
            },
        }
    }
}

/// The order of keys with two byte columns.
pub proof fn two_column_order(a: Seq<u8>, x: Seq<u8>, b: Seq<u8>, y: Seq<u8>)
    ensures
        order::key_less(seq![order::ints(a), order::ints(x)], seq![order::ints(b), order::ints(y)]) == (order::bytes_less(a, b) || (a == b && order::bytes_less(x, y))),
        order::bytes_less(a, b) ==> !order::bytes_less(b, a) && a != b,
{
    let k = seq![order::ints(a), order::ints(x)];
    let l = seq![order::ints(b), order::ints(y)];
    order::bytes_total(a, b);
    order::bytes_irreflexive(a);
    order::bytes_irreflexive(x);
    if order::bytes_less(a, b) && order::bytes_less(b, a) {
        order::bytes_transitive(a, b, a);
    }
    if order::ints(a) == order::ints(b) {
        order::ints_injective(a, b);
    }
    if order::ints(x) == order::ints(y) {
        order::ints_injective(x, y);
    }
    reveal_with_fuel(order::key_less, 4);
    assert(k.drop_first() =~= seq![order::ints(x)]);
    assert(l.drop_first() =~= seq![order::ints(y)]);
    assert(seq![order::ints(x)].drop_first() =~= Seq::<Seq<int>>::empty());
    assert(seq![order::ints(y)].drop_first() =~= Seq::<Seq<int>>::empty());
}

/// The byte between the parts of what is hashed for a leaf. No text holds it.
pub const PART: u8 = 0xff;

/// The bytes hashed for the views of a leaf: each text behind a byte that no text
/// holds.
pub open spec fn views_data(views: Seq<(Seq<char>, Seq<char>)>) -> Seq<u8>
    decreases views.len(),
{
    if views.len() == 0 {
        Seq::empty()
    } else {
        views_data(views.drop_last()) + seq![PART] + text::utf8(views.last().0) + seq![PART] + text::utf8(views.last().1)
    }
}

/// The bytes hashed for a leaf.
pub open spec fn leaf_data(h: Seq<char>, views: Seq<(Seq<char>, Seq<char>)>) -> Seq<u8> {
    seq![0u8] + text::utf8(h) + views_data(views)
}

/// The digest of a leaf.
pub open spec fn leaf_digest(h: Seq<char>, views: Seq<(Seq<char>, Seq<char>)>) -> Seq<char> {
    digest::sha1_text(leaf_data(h, views))
}

/// The bytes hashed for an inner node.
pub open spec fn node_data(left: Seq<char>, right: Seq<char>) -> Seq<u8> {
    seq![1u8] + text::utf8(left) + text::utf8(right)
}

/// What stands in front of the last part and the last part are determined.
proof fn last_part(x: Seq<u8>, a: Seq<char>, y: Seq<u8>, b: Seq<char>)
    requires
        x + seq![PART] + text::utf8(a) == y + seq![PART] + text::utf8(b),
    ensures
        x == y,
        a == b,
{
    let p = x + seq![PART];
    let q = y + seq![PART];
    let s = p + text::utf8(a);
    let t = q + text::utf8(b);
    text::utf8_without_ff(a);
    text::utf8_without_ff(b);
    assert(p.len() == x.len() + 1 && q.len() == y.len() + 1);
    assert(p[x.len() as int] == PART && q[y.len() as int] == PART);
    assert(s[x.len() as int] == PART);
    assert(t[y.len() as int] == PART);
    assert(s.len() == p.len() + text::utf8(a).len());
    assert(t.len() == q.len() + text::utf8(b).len());
    if x.len() < y.len() {
        let k = y.len() - p.len();
        assert(0 <= k < text::utf8(a).len());
        assert(s[p.len() + k] == text::utf8(a)[k]);
    }
    if y.len() < x.len() {
        let k = x.len() - q.len();
        assert(0 <= k < text::utf8(b).len());
        assert(t[q.len() + k] == text::utf8(b)[k]);
    }
    assert(x =~= s.take(x.len() as int));
    assert(y =~= t.take(y.len() as int));
    assert(text::utf8(a) =~= s.skip(x.len() as int + 1));
    assert(text::utf8(b) =~= t.skip(y.len() as int + 1));
    text::utf8_injective(a, b);
}

/// A leaf is determined by the bytes that are hashed for it.
pub proof fn leaf_data_injective(
    h: Seq<char>,
    v: Seq<(Seq<char>, Seq<char>)>,
    k: Seq<char>,
    w: Seq<(Seq<char>, Seq<char>)>,
)
    requires
        leaf_data(h, v) == leaf_data(k, w),
    ensures
        h == k,
        v == w,
    decreases v.len(),
{
    text::utf8_without_ff(h);
    text::utf8_without_ff(k);
    let s = leaf_data(h, v);
    if v.len() > 0 && w.len() > 0 {
        let x = leaf_data(h, v.drop_last());
        let y = leaf_data(k, w.drop_last());
        assert(s =~= x + seq![PART] + text::utf8(v.last().0) + seq![PART] + text::utf8(v.last().1));
        assert(s =~= y + seq![PART] + text::utf8(w.last().0) + seq![PART] + text::utf8(w.last().1));
        last_part(
            x + seq![PART] + text::utf8(v.last().0),
            v.last().1,
            y + seq![PART] + text::utf8(w.last().0),
            w.last().1,
        );
        last_part(x, v.last().0, y, w.last().0);
        leaf_data_injective(h, v.drop_last(), k, w.drop_last());
        assert(v =~= v.drop_last().push(v.last()));
        assert(w =~= w.drop_last().push(w.last()));
    } else if v.len() == 0 && w.len() == 0 {
        assert(text::utf8(h) =~= leaf_data(h, v).skip(1));
        assert(text::utf8(k) =~= leaf_data(k, w).skip(1));
        text::utf8_injective(h, k);
        assert(v =~= w);
    } else if v.len() == 0 {
        let at = leaf_data(k, w.drop_last()).len() as int;
        assert(s =~= leaf_data(k, w.drop_last()) + seq![PART] + text::utf8(w.last().0) + seq![PART] + text::utf8(w.last().1));
        assert(s[at] == PART);
        assert(s =~= seq![0u8] + text::utf8(h));
    } else {
        let at = leaf_data(h, v.drop_last()).len() as int;
        assert(s =~= leaf_data(h, v.drop_last()) + seq![PART] + text::utf8(v.last().0) + seq![PART] + text::utf8(v.last().1));
        assert(s[at] == PART);
        assert(s =~= seq![0u8] + text::utf8(k));
    }
}

/// The digest of an inner node.
pub open spec fn node_digest(left: Seq<char>, right: Seq<char>) -> Seq<char> {
    digest::sha1_text(node_data(left, right))
}

/// The level above a level: neighbours paired, an odd last one with itself.
pub open spec fn level_above(level: Seq<Seq<char>>) -> Seq<Seq<char>> {
    Seq::new(
        (level.len() + 1) / 2,
        |i: int| node_digest(level[2 * i], if 2 * i + 1 < level.len() { level[2 * i + 1] } else { level[2 * i] }),
    )
}

/// The levels from the leaves up to the root.
pub open spec fn levels_from(level: Seq<Seq<char>>) -> Seq<Seq<Seq<char>>>
    decreases level.len(),
{
    if level.len() <= 1 {
        seq![level]
    } else {
        seq![level] + levels_from(level_above(level))
    }
}

/// Digests have forty bytes.
pub open spec fn forty(level: Seq<Seq<char>>) -> bool {
    forall|i: int| 0 <= i < level.len() ==> text::utf8(#[trigger] level[i]).len() == 40
}

/// The digests of all levels have forty bytes.
pub open spec fn forties(levels: Seq<Seq<Seq<char>>>) -> bool {
    forall|i: int| 0 <= i < levels.len() ==> forty(#[trigger] levels[i])
}

/// A leaf as a pair of its key and its views.
pub open spec fn leaf_view() -> spec_fn(Leaf) -> (Seq<char>, Seq<(Seq<char>, Seq<char>)>) {
    |l: Leaf| (l.h@, view_list(l.views@))
}

pub open spec fn leaf_views(leaves: Seq<Leaf>) -> Seq<(Seq<char>, Seq<(Seq<char>, Seq<char>)>)> {
    leaves.map_values(leaf_view())
}

/// The levels of a tree with the given leaves.
pub open spec fn tree_levels(leaves: Seq<(Seq<char>, Seq<(Seq<char>, Seq<char>)>)>) -> Seq<Seq<Seq<char>>> {
    if leaves.len() == 0 {
        seq![seq![digest::sha1_text(text::utf8("empty-context"@))]]
    } else {
        levels_from(leaves.map_values(|l: (Seq<char>, Seq<(Seq<char>, Seq<char>)>)| leaf_digest(l.0, l.1)))
    }
}

/// Whether some leaf has the key.
pub open spec fn has_leaf(leaves: Seq<Leaf>, h: Seq<char>) -> bool {
    exists|i: int| 0 <= i < leaves.len() && #[trigger] leaves[i].h@ == h
}

/// The views of a leaf as a bag.
pub open spec fn view_bag(views: Seq<(String, String)>) -> Multiset<(Seq<char>, Seq<char>)> {
    view_list(views).to_multiset()
}

/// The join of two bags: each view as often as in the bag that has it more often.
pub open spec fn joined(
    a: Multiset<(Seq<char>, Seq<char>)>,
    b: Multiset<(Seq<char>, Seq<char>)>,
) -> Multiset<(Seq<char>, Seq<char>)> {
    a.add(b.sub(a))
}

/// Views joined to those of a key.
pub open spec fn put(
    m: Map<Seq<char>, Multiset<(Seq<char>, Seq<char>)>>,
    h: Seq<char>,
    views: Multiset<(Seq<char>, Seq<char>)>,
) -> Map<Seq<char>, Multiset<(Seq<char>, Seq<char>)>> {
    m.insert(h, if m.dom().contains(h) { joined(m[h], views) } else { views })
}

/// The join of two maps, key by key.
pub open spec fn merged(
    m: Map<Seq<char>, Multiset<(Seq<char>, Seq<char>)>>,
    n: Map<Seq<char>, Multiset<(Seq<char>, Seq<char>)>>,
) -> Map<Seq<char>, Multiset<(Seq<char>, Seq<char>)>> {
    Map::new(
        |h: Seq<char>| m.dom().contains(h) || n.dom().contains(h),
        |h: Seq<char>|
            if m.dom().contains(h) && n.dom().contains(h) {
                joined(m[h], n[h])
            } else if m.dom().contains(h) {
                m[h]
            } else {
                n[h]
            },
    )
}

/// What a list of leaves says of each key: the join of the views of all leaves
/// that have it.
pub open spec fn leaf_map(leaves: Seq<Leaf>) -> Map<Seq<char>, Multiset<(Seq<char>, Seq<char>)>>
    decreases leaves.len(),
{
    if leaves.len() == 0 {
        Map::empty()
    } else {
        put(leaf_map(leaves.drop_last()), leaves.last().h@, view_bag(leaves.last().views@))
    }
}

/// The join of bags is idempotent, commutative and associative.
pub proof fn joined_laws(
    a: Multiset<(Seq<char>, Seq<char>)>,
    b: Multiset<(Seq<char>, Seq<char>)>,
    c: Multiset<(Seq<char>, Seq<char>)>,
)
    ensures
        joined(a, a) == a,
        joined(a, b) == joined(b, a),
        joined(joined(a, b), c) == joined(a, joined(b, c)),
{
    assert(joined(a, a) =~= a);
    assert(joined(a, b) =~= joined(b, a));
    assert(joined(joined(a, b), c) =~= joined(a, joined(b, c)));
}

/// The map of a list of leaves has their keys. A view occurs as often as in the
/// leaf of the key that has it most often.
pub proof fn leaf_map_facts(leaves: Seq<Leaf>, h: Seq<char>, view: (Seq<char>, Seq<char>))
    ensures
        leaf_map(leaves).dom().contains(h) == has_leaf(leaves, h),
        forall|i: int|
            0 <= i < leaves.len() && (#[trigger] leaves[i]).h@ == h ==> view_bag(leaves[i].views@).count(view) <= leaf_map(
                leaves,
            )[h].count(view),
        has_leaf(leaves, h) ==> exists|i: int|
            0 <= i < leaves.len() && (#[trigger] leaves[i]).h@ == h && view_bag(leaves[i].views@).count(view) == leaf_map(
                leaves,
            )[h].count(view),
    decreases leaves.len(),
{
    if leaves.len() > 0 {
        let shorter = leaves.drop_last();
        let last = leaves.len() - 1;
        leaf_map_facts(shorter, h, view);
        if has_leaf(shorter, h) {
            let i = choose|i: int|
                0 <= i < shorter.len() && (#[trigger] shorter[i]).h@ == h && view_bag(shorter[i].views@).count(view)
                    == leaf_map(shorter)[h].count(view);
            assert(leaves[i] == shorter[i]);
            assert(leaves[last].h@ == leaves.last().h@);
        }
        if has_leaf(leaves, h) {
            let i = choose|i: int| 0 <= i < leaves.len() && #[trigger] leaves[i].h@ == h;
            if i < last {
                assert(shorter[i].h@ == h);
            }
            assert(leaves[last] == leaves.last());
        }
        if leaves.last().h@ == h {
            assert(leaves[last].h@ == h);
        }
        assert forall|i: int| 0 <= i < leaves.len() && (#[trigger] leaves[i]).h@ == h implies view_bag(
            leaves[i].views@,
        ).count(view) <= leaf_map(leaves)[h].count(view) by {
            if i < last {
                assert(shorter[i] == leaves[i]);
                assert(shorter[i].h@ == h);
            }
        }
    }
}

/// A leaf as a pair of its key and the bag of its views.
pub open spec fn leaf_bags(leaves: Seq<Leaf>) -> Seq<(Seq<char>, Multiset<(Seq<char>, Seq<char>)>)> {
    leaves.map_values(|l: Leaf| (l.h@, view_bag(l.views@)))
}

/// Lists of the same leaves say the same, in whatever order and however often the
/// leaves occur, and in whatever order their views stand.
pub proof fn order_independent(a: Seq<Leaf>, b: Seq<Leaf>)
    requires
        leaf_bags(a).to_set() == leaf_bags(b).to_set(),
    ensures
        leaf_map(a) == leaf_map(b),
{
    let m = leaf_map(a);
    let n = leaf_map(b);
    assert forall|h: Seq<char>| #![trigger m.dom().contains(h)] #![trigger n.dom().contains(h)] m.dom().contains(h)
        == n.dom().contains(h) && (m.dom().contains(h) ==> m[h] == n[h]) by {
        let none = (Seq::<char>::empty(), Seq::<char>::empty());
        leaf_map_facts(a, h, none);
        leaf_map_facts(b, h, none);
        if has_leaf(a, h) {
            let i = choose|i: int| 0 <= i < a.len() && #[trigger] a[i].h@ == h;
            let j = found_in(a, b, i);
            assert(b[j].h@ == h);
        }
        if has_leaf(b, h) {
            let i = choose|i: int| 0 <= i < b.len() && #[trigger] b[i].h@ == h;
            let j = found_in(b, a, i);
            assert(a[j].h@ == h);
        }
        if has_leaf(a, h) {
            assert forall|v: (Seq<char>, Seq<char>)| #[trigger] m[h].count(v) == n[h].count(v) by {
                leaf_map_facts(a, h, v);
                leaf_map_facts(b, h, v);
                let i = choose|i: int|
                    0 <= i < a.len() && (#[trigger] a[i]).h@ == h && view_bag(a[i].views@).count(v) == m[h].count(v);
                let j = found_in(a, b, i);
                assert(b[j].h@ == h);
                let k = choose|k: int|
                    0 <= k < b.len() && (#[trigger] b[k]).h@ == h && view_bag(b[k].views@).count(v) == n[h].count(v);
                let l = found_in(b, a, k);
                assert(a[l].h@ == h);
            }
            assert(m[h] =~= n[h]);
        }
    }
    assert(m.dom() =~= n.dom());
    assert(m =~= n);
}

/// A leaf of one list is found in a list of the same leaves.
proof fn found_in(a: Seq<Leaf>, b: Seq<Leaf>, i: int) -> (j: int)
    requires
        leaf_bags(a).to_set() == leaf_bags(b).to_set(),
        0 <= i < a.len(),
    ensures
        0 <= j < b.len(),
        b[j].h@ == a[i].h@,
        view_bag(b[j].views@) == view_bag(a[i].views@),
{
    let x = leaf_bags(a)[i];
    assert(leaf_bags(a).to_set().contains(x));
    assert(leaf_bags(b).to_set().contains(x));
    assert(leaf_bags(b).contains(x));
    let j = choose|j: int| 0 <= j < leaf_bags(b).len() && leaf_bags(b)[j] == x;
    assert(leaf_bags(b)[j] == (b[j].h@, view_bag(b[j].views@)));
    j
}

/// Leaves in strictly ascending key order.
pub open spec fn ascending_leaves(leaves: Seq<Leaf>) -> bool {
    forall|i: int, j: int| 0 <= i < j < leaves.len() ==> order::bytes_less(text::utf8(#[trigger] leaves[i].h@), text::utf8(#[trigger] leaves[j].h@))
}

/// Every leaf's views stand in order.
pub open spec fn views_in_order(leaves: Seq<Leaf>) -> bool {
    forall|i: int| 0 <= i < leaves.len() ==> sorted_views(view_list((#[trigger] leaves[i]).views@)) == view_list(leaves[i].views@)
}

/// What an ascending list of leaves maps a key to.
proof fn canonical_map(leaves: Seq<Leaf>)
    requires
        ascending_leaves(leaves),
    ensures
        forall|h: Seq<char>| #[trigger] leaf_map(leaves).dom().contains(h) == has_leaf(leaves, h),
        forall|i: int|
            0 <= i < leaves.len() ==> leaf_map(leaves).dom().contains(#[trigger] leaves[i].h@) && leaf_map(
                leaves,
            )[leaves[i].h@] == view_bag(leaves[i].views@),
    decreases leaves.len(),
{
    assert forall|h: Seq<char>| #[trigger] leaf_map(leaves).dom().contains(h) == has_leaf(leaves, h) by {
        leaf_map_facts(leaves, h, (Seq::empty(), Seq::empty()));
    }
    if leaves.len() > 0 {
        let shorter = leaves.drop_last();
        let last = leaves.len() - 1;
        assert forall|i: int, j: int| 0 <= i < j < shorter.len() implies order::bytes_less(
            text::utf8(#[trigger] shorter[i].h@),
            text::utf8(#[trigger] shorter[j].h@),
        ) by {
            assert(shorter[i] == leaves[i] && shorter[j] == leaves[j]);
        }
        canonical_map(shorter);
        assert forall|i: int| 0 <= i < leaves.len() implies leaf_map(leaves).dom().contains(#[trigger] leaves[i].h@)
            && leaf_map(leaves)[leaves[i].h@] == view_bag(leaves[i].views@) by {
            order::bytes_irreflexive(text::utf8(leaves[last].h@));
            if i < last {
                assert(shorter[i] == leaves[i]);
                assert(leaf_map(shorter).dom().contains(shorter[i].h@));
                assert(order::bytes_less(text::utf8(leaves[i].h@), text::utf8(leaves[last].h@)));
            } else {
                assert(leaves.last() == leaves[last]);
                if has_leaf(shorter, leaves[last].h@) {
                    let k = choose|k: int| 0 <= k < shorter.len() && #[trigger] shorter[k].h@ == leaves[last].h@;
                    assert(shorter[k] == leaves[k]);
                    assert(order::bytes_less(text::utf8(leaves[k].h@), text::utf8(leaves[last].h@)));
                }
                assert(!leaf_map(shorter).dom().contains(leaves[last].h@));
            }
        }
    }
}

/// Views in order are determined by their bag.
proof fn ordered_views_determined(v: Seq<(Seq<char>, Seq<char>)>, w: Seq<(Seq<char>, Seq<char>)>)
    requires
        v.to_multiset() == w.to_multiset(),
    ensures
        sorted_views(v) == sorted_views(w),
{
    pair_rank_faithful();
    let r = pair_rank();
    order::rank_total(r);
    let leq = order::rank_leq(r);
    v.lemma_sort_by_ensures(leq);
    w.lemma_sort_by_ensures(leq);
    vstd::seq_lib::lemma_sorted_unique(sorted_views(v), sorted_views(w), leq);
}

/// The leaves of a canonical list are determined by its map.
pub proof fn leaves_determined(a: Seq<Leaf>, b: Seq<Leaf>)
    requires
        ascending_leaves(a),
        ascending_leaves(b),
        views_in_order(a),
        views_in_order(b),
        leaf_map(a) == leaf_map(b),
    ensures
        leaf_views(a) == leaf_views(b),
{
    canonical_map(a);
    canonical_map(b);
    let x = a.map_values(|l: Leaf| text::utf8(l.h@));
    let y = b.map_values(|l: Leaf| text::utf8(l.h@));
    assert(lut::ascending_tokens(x));
    assert(lut::ascending_tokens(y));
    assert forall|t: Seq<u8>| x.to_set().contains(t) == y.to_set().contains(t) by {
        if x.contains(t) {
            let i = choose|i: int| 0 <= i < x.len() && x[i] == t;
            assert(leaf_map(b).dom().contains(a[i].h@));
            assert(has_leaf(b, a[i].h@));
            let j = choose|j: int| 0 <= j < b.len() && #[trigger] b[j].h@ == a[i].h@;
            assert(y[j] == t);
        }
        if y.contains(t) {
            let i = choose|i: int| 0 <= i < y.len() && y[i] == t;
            assert(leaf_map(a).dom().contains(b[i].h@));
            assert(has_leaf(a, b[i].h@));
            let j = choose|j: int| 0 <= j < a.len() && #[trigger] a[j].h@ == b[i].h@;
            assert(x[j] == t);
        }
    }
    assert(x.to_set() =~= y.to_set());
    lut::ascending_tokens_unique(x, y);
    assert(a.len() == b.len());
    assert forall|i: int| 0 <= i < a.len() implies leaf_views(a)[i] == leaf_views(b)[i] by {
        assert(x[i] == y[i]);
        text::utf8_injective(a[i].h@, b[i].h@);
        assert(leaf_map(a)[a[i].h@] == view_bag(a[i].views@));
        assert(leaf_map(b)[b[i].h@] == view_bag(b[i].views@));
        ordered_views_determined(view_list(a[i].views@), view_list(b[i].views@));
    }
    assert(leaf_views(a) =~= leaf_views(b));
}

/// Copies a list of views.
fn copy_views(views: &Vec<(String, String)>) -> (copy: Vec<(String, String)>)
    ensures
        copy@ == views@,
{
    let mut copy: Vec<(String, String)> = Vec::new();
    let mut i: usize = 0;
    while i < views.len()
        invariant
            i <= views.len(),
            copy@ == views@.take(i as int),
        decreases views.len() - i,
    {
        copy.push((views[i].0.clone(), views[i].1.clone()));
        i = i + 1;
        proof {
            assert(copy@ =~= views@.take(i as int));
        }
    }
    proof {
        assert(views@.take(i as int) =~= views@);
    }
    copy
}

impl Leaf {
    /// Copies a leaf.
    pub fn copy(&self) -> (copy: Leaf)
        ensures
            copy.h@ == self.h@,
            copy.views@ == self.views@,
    {
        Leaf { h: self.h.clone(), views: copy_views(&self.views) }
    }
}

/// Views joined to others: each as often as in the list that has it more often,
/// in order.
fn join_views(a: &Vec<(String, String)>, b: &Vec<(String, String)>) -> (views: Vec<(String, String)>)
    ensures
        view_bag(views@) == joined(view_bag(a@), view_bag(b@)),
        sorted_views(view_list(views@)) == view_list(views@),
{
    let mut out = copy_views(a);
    let mut spare = copy_views(a);
    let ghost x = view_list(a@);
    let ghost y = view_list(b@);
    let mut j: usize = 0;
    proof {
        y.take(0).to_multiset_ensures();
        assert(y.take(0) =~= Seq::<(Seq<char>, Seq<char>)>::empty());
        Seq::<(Seq<char>, Seq<char>)>::empty().to_multiset_ensures();
        assert(view_bag(spare@) =~= x.to_multiset().sub(y.take(0).to_multiset()));
        assert(view_bag(out@) =~= joined(x.to_multiset(), y.take(0).to_multiset()));
    }
    while j < b.len()
        invariant
            j <= b.len(),
            x == view_list(a@),
            y == view_list(b@),
            view_bag(spare@) == x.to_multiset().sub(y.take(j as int).to_multiset()),
            view_bag(out@) == joined(x.to_multiset(), y.take(j as int).to_multiset()),
        decreases b.len() - j,
    {
        let mut k: usize = 0;
        while k < spare.len() && !(text::same_text(spare[k].0.as_str(), b[j].0.as_str()) && text::same_text(
            spare[k].1.as_str(),
            b[j].1.as_str(),
        ))
            invariant
                k <= spare.len(),
                j < b.len(),
                y == view_list(b@),
                forall|i: int| 0 <= i < k ==> #[trigger] view_list(spare@)[i] != y[j as int],
            decreases spare.len() - k,
        {
            k = k + 1;
        }
        let ghost one = y[j as int];
        let ghost pool = view_list(spare@);
        let ghost had = view_list(out@);
        proof {
            assert(y.take(j as int + 1) =~= y.take(j as int).push(one));
            y.take(j as int).to_multiset_ensures();
            pool.to_multiset_ensures();
            had.to_multiset_ensures();
        }
        if k < spare.len() {
            spare.remove(k);
            proof {
                assert(pool[k as int] == one);
                assert(pool.contains(one));
                assert(view_list(spare@) =~= pool.remove(k as int));
            }
        } else {
            out.push((b[j].0.clone(), b[j].1.clone()));
            proof {
                assert(!pool.contains(one));
                assert(view_list(out@) =~= had.push(one));
            }
        }
        proof {
            let z = y.take(j as int + 1).to_multiset();
            assert(z =~= y.take(j as int).to_multiset().insert(one));
            assert(view_bag(spare@) =~= x.to_multiset().sub(z));
            assert forall|v: (Seq<char>, Seq<char>)| #[trigger] view_bag(out@).count(v) == joined(x.to_multiset(), z).count(
                v,
            ) by {
                assert(z.count(v) == y.take(j as int).to_multiset().count(v) + if v == one { 1nat } else { 0nat });
                assert(pool.to_multiset().count(one) > 0 <==> pool.contains(one));
            }
            assert(view_bag(out@) =~= joined(x.to_multiset(), z));
        }
        j = j + 1;
    }
    proof {
        assert(y.take(j as int) =~= y);
    }
    let ghost unsorted = out@;
    let views = order::sort_items(out);
    proof {
        pair_rank_faithful();
        order::ranked_images(views@, unsorted, pair_view(), pair_rank());
        order::ranked_facts(view_list(unsorted), pair_rank());
        ranked_idempotent(view_list(unsorted));
    }
    views
}

/// The digest of a leaf: a zero byte, the key, and the texts of its views, each
/// behind a byte that no text holds.
pub fn leaf_hash(leaf: &Leaf) -> (digest: String)
    ensures
        digest@ == leaf_digest(leaf.h@, view_list(leaf.views@)),
        text::utf8(digest@).len() == 40,
{
    let mut data: Vec<u8> = Vec::new();
    data.push(0u8);
    let mut h = vstd::slice::slice_to_vec(leaf.h.as_str().as_bytes());
    data.append(&mut h);
    let ghost v = view_list(leaf.views@);
    let ghost head = seq![0u8] + text::utf8(leaf.h@);
    let part: u8 = PART;
    let mut i: usize = 0;
    proof {
        assert(v.take(0) =~= Seq::<(Seq<char>, Seq<char>)>::empty());
        assert(data@ =~= head + views_data(v.take(0)));
    }
    while i < leaf.views.len()
        invariant
            i <= leaf.views.len(),
            v == view_list(leaf.views@),
            part == PART,
            data@ == head + views_data(v.take(i as int)),
        decreases leaf.views.len() - i,
    {
        data.push(part);
        let mut l = vstd::slice::slice_to_vec(leaf.views[i].0.as_str().as_bytes());
        data.append(&mut l);
        data.push(part);
        let mut t = vstd::slice::slice_to_vec(leaf.views[i].1.as_str().as_bytes());
        data.append(&mut t);
        proof {
            assert(v.take(i as int + 1).drop_last() =~= v.take(i as int));
            assert(v.take(i as int + 1).last() == (leaf.views@[i as int].0@, leaf.views@[i as int].1@));
            assert(data@ =~= head + views_data(v.take(i as int + 1)));
        }
        i = i + 1;
    }
    proof {
        assert(v.take(i as int) =~= v);
    }
    let digest = digest::sha1_hex(data.as_slice());
    proof {
        digest::hex_bytes(digest@);
    }
    digest
}

/// The digest of an inner node: a one byte and the two digests below.
pub fn internal_hash(left: &str, right: &str) -> (digest: String)
    ensures
        digest@ == node_digest(left@, right@),
        text::utf8(digest@).len() == 40,
{
    let mut data: Vec<u8> = Vec::new();
    data.push(1u8);
    let mut l = vstd::slice::slice_to_vec(left.as_bytes());
    data.append(&mut l);
    let mut r = vstd::slice::slice_to_vec(right.as_bytes());
    data.append(&mut r);
    proof {
        assert(data@ =~= seq![1u8] + text::utf8(left@) + text::utf8(right@));
    }
    let digest = digest::sha1_hex(data.as_slice());
    proof {
        digest::hex_bytes(digest@);
    }
    digest
}

/// The views of the levels of a tree.
pub open spec fn level_views(levels: Seq<Vec<String>>) -> Seq<Seq<Seq<char>>> {
    levels.map_values(|l: Vec<String>| text::texts(l@))
}

fn next_level(level: &Vec<String>) -> (next: Vec<String>)
    ensures
        text::texts(next@) == level_above(text::texts(level@)),
        forty(text::texts(next@)),
{
    let mut next: Vec<String> = Vec::new();
    let mut i: usize = 0;
    let n: usize = level.len() / 2 + level.len() % 2;
    while i < n
        invariant
            i <= n,
            n == (level.len() + 1) / 2,
            text::texts(next@) == level_above(text::texts(level@)).take(i as int),
            forty(text::texts(next@)),
        decreases n - i,
    {
        let right = if 2 * i + 1 < level.len() {
            level[2 * i + 1].as_str()
        } else {
            level[2 * i].as_str()
        };
        let ghost before = next@;
        let digest = internal_hash(level[2 * i].as_str(), right);
        next.push(digest);
        proof {
            let low = text::texts(level@);
            text::texts_push(before, digest);
            assert(low.len() == level@.len());
            assert(low[2 * i] == level@[2 * i as int]@);
            if 2 * i + 1 < level.len() {
                assert(low[2 * i + 1] == level@[2 * i + 1]@);
            }
            assert(level_above(low)[i as int] == digest@);
            assert(level_above(low).take(i as int + 1) =~= level_above(low).take(i as int).push(digest@));
        }
        i = i + 1;
    }
    proof {
        assert(level_above(text::texts(level@)).take(i as int) =~= level_above(text::texts(level@)));
    }
    next
}

/// A tree in canonical form.
#[derive(Clone, Debug, PartialEq, Eq)]
pub struct ContextTree {
    root: String,
    leaves: Vec<Leaf>,
    levels: Vec<Vec<String>>,
}

impl View for ContextTree {
    type V = Map<Seq<char>, Multiset<(Seq<char>, Seq<char>)>>;

    /// What the tree says of each leaf's key.
    closed spec fn view(&self) -> Map<Seq<char>, Multiset<(Seq<char>, Seq<char>)>> {
        leaf_map(self.leaves@)
    }
}

impl TreeDiff {
    /// The keys that only the second tree has, those that only the first has, and
    /// those of both, each in order.
    pub open spec fn compares(&self, a: &ContextTree, b: &ContextTree) -> bool {
        &&& text::texts(self.added@) == key_list(b.spec_leaves()).filter(|h: Seq<char>| !a@.dom().contains(h))
        &&& text::texts(self.removed@) == key_list(a.spec_leaves()).filter(|h: Seq<char>| !b@.dom().contains(h))
        &&& text::texts(self.retained@) == key_list(a.spec_leaves()).filter(|h: Seq<char>| b@.dom().contains(h))
    }
}

impl ContextTree {
    pub closed spec fn spec_leaves(&self) -> Seq<Leaf> {
        self.leaves@
    }

    pub closed spec fn spec_levels(&self) -> Seq<Seq<Seq<char>>> {
        level_views(self.levels@)
    }

    pub closed spec fn spec_root(&self) -> Seq<char> {
        self.root@
    }

    /// Leaves ascend, their views stand in order, and levels and root follow
    /// from them.
    pub open spec fn wf(&self) -> bool {
        &&& self@ == leaf_map(self.spec_leaves())
        &&& ascending_leaves(self.spec_leaves())
        &&& views_in_order(self.spec_leaves())
        &&& self.spec_levels() == tree_levels(leaf_views(self.spec_leaves()))
        &&& self.spec_root() == self.spec_levels().last()[0]
        &&& forties(self.spec_levels())
    }

    /// Trees that say the same have the same leaves, the same levels and the same
    /// root.
    pub proof fn canonical(a: &ContextTree, b: &ContextTree)
        requires
            a.wf(),
            b.wf(),
            a@ == b@,
        ensures
            leaf_views(a.spec_leaves()) == leaf_views(b.spec_leaves()),
            a.spec_levels() == b.spec_levels(),
            a.spec_root() == b.spec_root(),
    {
        leaves_determined(a.spec_leaves(), b.spec_leaves());
    }

    fn locate(leaves: &Vec<Leaf>, h: &str) -> (at: (bool, usize))
        requires
            ascending_leaves(leaves@),
        ensures
            at.0 == has_leaf(leaves@, h@),
            at.1 <= leaves@.len(),
            at.0 ==> at.1 < leaves@.len() && leaves@[at.1 as int].h@ == h@,
            forall|i: int| 0 <= i < at.1 ==> order::bytes_less(text::utf8(#[trigger] leaves@[i].h@), text::utf8(h@)),
            !at.0 ==> forall|i: int| at.1 <= i < leaves@.len() ==> order::bytes_less(text::utf8(h@), text::utf8(#[trigger] leaves@[i].h@)),
    {
        let mut lo: usize = 0;
        let mut hi: usize = leaves.len();
        while lo < hi
            invariant
                lo <= hi <= leaves@.len(),
                ascending_leaves(leaves@),
                forall|i: int| 0 <= i < lo ==> order::bytes_less(text::utf8(#[trigger] leaves@[i].h@), text::utf8(h@)),
                forall|i: int| hi <= i < leaves@.len() ==> order::bytes_less(text::utf8(h@), text::utf8(#[trigger] leaves@[i].h@)),
            decreases hi - lo,
        {
            let mid: usize = lo + (hi - lo) / 2;
            let side = order::compare_bytes(leaves[mid].h.as_str().as_bytes(), h.as_bytes());
            match side {
                Side::Less => {
                    proof {
                        assert forall|i: int| 0 <= i < mid + 1 implies order::bytes_less(
                            text::utf8(#[trigger] leaves@[i].h@),
                            text::utf8(h@),
                        ) by {
                            if i < mid {
                                order::bytes_transitive(text::utf8(leaves@[i].h@), text::utf8(leaves@[mid as int].h@), text::utf8(h@));
                            }
                        }
                    }
                    lo = mid + 1;
                },
                Side::Greater => {
                    proof {
                        assert forall|i: int| mid <= i < leaves@.len() implies order::bytes_less(
                            text::utf8(h@),
                            text::utf8(#[trigger] leaves@[i].h@),
                        ) by {
                            if i > mid {
                                order::bytes_transitive(text::utf8(h@), text::utf8(leaves@[mid as int].h@), text::utf8(leaves@[i].h@));
                            }
                        }
                    }
                    hi = mid;
                },
                Side::Same => {
                    proof {
                        text::utf8_injective(leaves@[mid as int].h@, h@);
                    }
                    return (true, mid);
                },
            }
        }
        proof {
            assert forall|i: int| 0 <= i < leaves@.len() implies #[trigger] leaves@[i].h@ != h@ by {
                order::bytes_irreflexive(text::utf8(h@));
            }
        }
        (false, lo)
    }

    /// Builds the canonical tree of a list of leaves: leaves by key, views in
    /// order, and those of leaves with the same key joined.
    pub fn build(leaves: Vec<Leaf>) -> (t: ContextTree)
        ensures
            t.wf(),
            t@ == leaf_map(leaves@),
    {
        let mut sorted: Vec<Leaf> = Vec::new();
        let mut i: usize = 0;
        proof {
            assert(leaf_map(sorted@) =~= leaf_map(leaves@.take(0)));
        }
        while i < leaves.len()
            invariant
                i <= leaves.len(),
                ascending_leaves(sorted@),
                views_in_order(sorted@),
                leaf_map(sorted@) == leaf_map(leaves@.take(i as int)),
            decreases leaves.len() - i,
        {
            let at = ContextTree::locate(&sorted, leaves[i].h.as_str());
            let ghost before = sorted@;
            proof {
                assert(leaves@.take(i as int + 1).drop_last() =~= leaves@.take(i as int));
                canonical_map(before);
            }
            if !at.0 {
                let views = order::sort_items(copy_views(&leaves[i].views));
                proof {
                    pair_rank_faithful();
                    order::ranked_images(views@, leaves@[i as int].views@, pair_view(), pair_rank());
                    order::ranked_facts(view_list(leaves@[i as int].views@), pair_rank());
                    ranked_idempotent(view_list(leaves@[i as int].views@));
                }
                let leaf = Leaf { h: leaves[i].h.clone(), views };
                sorted.insert(at.1, leaf);
                proof {
                    placed(before, at.1 as int, leaf, sorted@);
                }
            } else {
                let views = join_views(&sorted[at.1].views, &leaves[i].views);
                let leaf = Leaf { h: leaves[i].h.clone(), views };
                sorted.set(at.1, leaf);
                proof {
                    replaced(before, at.1 as int, leaf, sorted@);
                }
            }
            proof {
                assert(leaf_map(sorted@) =~= leaf_map(leaves@.take(i as int + 1)));
            }
            i = i + 1;
        }
        proof {
            assert(leaves@.take(i as int) =~= leaves@);
        }
        ContextTree::assemble(sorted)
    }

    /// Computes levels and root for leaves in canonical form.
    fn assemble(leaves: Vec<Leaf>) -> (t: ContextTree)
        requires
            ascending_leaves(leaves@),
            views_in_order(leaves@),
        ensures
            t.wf(),
            t@ == leaf_map(leaves@),
            t.spec_leaves() == leaves@,
    {
        if leaves.len() == 0 {
            let mark: &str = "empty-context";
            let root = digest::sha1_hex(mark.as_bytes());
            proof {
                assert(leaf_views(leaves@) =~= Seq::<(Seq<char>, Seq<(Seq<char>, Seq<char>)>)>::empty());
            }
            let mut level: Vec<String> = Vec::new();
            level.push(root.clone());
            let mut levels: Vec<Vec<String>> = Vec::new();
            levels.push(level);
            let t = ContextTree { root, leaves, levels };
            proof {
                assert(text::texts(level@) =~= seq![root@]);
                assert(t.spec_levels() =~= seq![seq![root@]]);
                digest::hex_bytes(root@);
            }
            return t;
        }
        let mut level: Vec<String> = Vec::new();
        let mut i: usize = 0;
        let ghost bottom = leaf_views(leaves@).map_values(
            |l: (Seq<char>, Seq<(Seq<char>, Seq<char>)>)| leaf_digest(l.0, l.1),
        );
        while i < leaves.len()
            invariant
                i <= leaves.len(),
                bottom == leaf_views(leaves@).map_values(
                    |l: (Seq<char>, Seq<(Seq<char>, Seq<char>)>)| leaf_digest(l.0, l.1),
                ),
                text::texts(level@) == bottom.take(i as int),
                forty(text::texts(level@)),
            decreases leaves.len() - i,
        {
            let ghost before = level@;
            let digest = leaf_hash(&leaves[i]);
            level.push(digest);
            proof {
                text::texts_push(before, digest);
                assert(bottom[i as int] == digest@) by {
                    assert(leaf_views(leaves@)[i as int] == (leaves@[i as int].h@, view_list(leaves@[i as int].views@)));
                }
                assert(bottom.take(i as int + 1) =~= bottom.take(i as int).push(digest@));
            }
            i = i + 1;
        }
        let mut levels: Vec<Vec<String>> = Vec::new();
        levels.push(text::copy_texts(&level));
        proof {
            assert(bottom.take(i as int) =~= bottom);
            assert(level_views(levels@) =~= seq![bottom]);
            assert(level_views(levels@).drop_last() + levels_from(text::texts(level@)) =~= levels_from(bottom));
        }
        while level.len() > 1
            invariant
                level@.len() >= 1,
                levels@.len() > 0,
                level_views(levels@).last() == text::texts(level@),
                level_views(levels@).drop_last() + levels_from(text::texts(level@)) == levels_from(bottom),
                forties(level_views(levels@)),
            decreases level.len(),
        {
            let next = next_level(&level);
            let ghost was = level_views(levels@);
            levels.push(text::copy_texts(&next));
            proof {
                let now = level_views(levels@);
                assert(now =~= was.push(text::texts(next@)));
                assert(text::texts(level@).len() == level@.len());
                assert(text::texts(next@).len() == next@.len());
                assert(now.drop_last() + levels_from(text::texts(next@)) =~= was.drop_last() + levels_from(text::texts(level@)));
            }
            level = next;
        }
        let root = level[0].clone();
        let t = ContextTree { root, leaves, levels };
        proof {
            assert(text::texts(level@).len() == level@.len());
            assert(level_views(levels@) =~= level_views(levels@).drop_last() + seq![text::texts(level@)]);
            assert(t.spec_levels() == levels_from(bottom));
            assert(text::texts(level@)[0] == root@);
        }
        t
    }

    /// The tree without leaves.
    pub fn empty() -> (t: ContextTree)
        ensures
            t.wf(),
            t@ == Map::<Seq<char>, Multiset<(Seq<char>, Seq<char>)>>::empty(),
    {
        let t = ContextTree::build(Vec::new());
        proof {
            assert(t@ =~= Map::<Seq<char>, Multiset<(Seq<char>, Seq<char>)>>::empty());
        }
        t
    }

    /// Copies the tree.
    pub fn copy(&self) -> (t: ContextTree)
        requires
            self.wf(),
        ensures
            t.wf(),
            t@ == self@,
            t.spec_root() == self.spec_root(),
    {
        let t = self.keep_if(self, true);
        proof {
            assert(t@ =~= self@);
            ContextTree::canonical(&t, self);
        }
        t
    }

    pub fn root(&self) -> (r: &str)
        ensures
            r@ == self.spec_root(),
    {
        self.root.as_str()
    }

    /// The leaves in ascending key order.
    pub fn leaves(&self) -> (l: &Vec<Leaf>)
        ensures
            l@ == self.spec_leaves(),
    {
        &self.leaves
    }

    /// The levels, from the leaves up.
    pub fn levels(&self) -> (l: &Vec<Vec<String>>)
        ensures
            level_views(l@) == self.spec_levels(),
    {
        &self.levels
    }

    /// Whether the tree has a leaf with the key.
    pub fn contains(&self, h: &str) -> (yes: bool)
        requires
            self.wf(),
        ensures
            yes == self@.dom().contains(h@),
    {
        proof {
            leaf_map_facts(self.leaves@, h@, (Seq::empty(), Seq::empty()));
        }
        ContextTree::locate(&self.leaves, h).0
    }

    /// The tree with a leaf put in; it replaces one with the same key.
    pub fn insert(&self, leaf: Leaf) -> (t: ContextTree)
        requires
            self.wf(),
        ensures
            t.wf(),
            t@ == self@.insert(leaf.h@, view_bag(leaf.views@)),
    {
        let mut leaves = self.kept_without(leaf.h.as_str());
        let ghost kept = leaves@;
        leaves.push(leaf);
        proof {
            assert(leaves@.drop_last() =~= kept);
            assert(!leaf_map(kept).dom().contains(leaf.h@));
        }
        let t = ContextTree::build(leaves);
        proof {
            assert(t@ =~= self@.insert(leaf.h@, view_bag(leaf.views@)));
        }
        t
    }

    fn kept_without(&self, h: &str) -> (leaves: Vec<Leaf>)
        requires
            self.wf(),
        ensures
            leaf_map(leaves@) == self@.remove(h@),
    {
        let mut leaves: Vec<Leaf> = Vec::new();
        let mut i: usize = 0;
        proof {
            assert(leaf_map(leaves@) =~= leaf_map(self.leaves@.take(0)).remove(h@));
        }
        while i < self.leaves.len()
            invariant
                i <= self.leaves.len(),
                leaf_map(leaves@) == leaf_map(self.leaves@.take(i as int)).remove(h@),
            decreases self.leaves.len() - i,
        {
            let ghost before = leaves@;
            let ghost shorter = self.leaves@.take(i as int);
            let ghost longer = self.leaves@.take(i as int + 1);
            proof {
                assert(longer.drop_last() =~= shorter);
            }
            if !text::same_text(self.leaves[i].h.as_str(), h) {
                let leaf = self.leaves[i].copy();
                leaves.push(leaf);
                proof {
                    assert(leaves@.drop_last() =~= before);
                }
            }
            proof {
                assert(leaf_map(leaves@) =~= leaf_map(longer).remove(h@));
            }
            i = i + 1;
        }
        proof {
            assert(self.leaves@.take(i as int) =~= self.leaves@);
        }
        leaves
    }

    /// The tree without the leaf of a key.
    pub fn remove(&self, h: &str) -> (t: ContextTree)
        requires
            self.wf(),
        ensures
            t.wf(),
            t@ == self@.remove(h@),
    {
        let leaves = self.kept_without(h);
        ContextTree::build(leaves)
    }

    /// The join: all leaves of both, with the views of a key that both have joined.
    pub fn merge(&self, other: &ContextTree) -> (t: ContextTree)
        requires
            self.wf(),
            other.wf(),
        ensures
            t.wf(),
            t@ == merged(self@, other@),
    {
        let mut leaves: Vec<Leaf> = Vec::new();
        let mut i: usize = 0;
        proof {
            assert(leaf_map(leaves@) =~= leaf_map(self.leaves@.take(0)));
        }
        while i < self.leaves.len()
            invariant
                i <= self.leaves.len(),
                leaf_map(leaves@) == leaf_map(self.leaves@.take(i as int)),
            decreases self.leaves.len() - i,
        {
            let ghost before = leaves@;
            let ghost shorter = self.leaves@.take(i as int);
            let ghost longer = self.leaves@.take(i as int + 1);
            let leaf = self.leaves[i].copy();
            leaves.push(leaf);
            proof {
                assert(longer.drop_last() =~= shorter);
                assert(leaves@.drop_last() =~= before);
                assert(leaf_map(leaves@) =~= leaf_map(longer));
            }
            i = i + 1;
        }
        let mut j: usize = 0;
        proof {
            assert(self.leaves@.take(i as int) =~= self.leaves@);
            assert(leaf_map(other.leaves@.take(0)) =~= Map::<Seq<char>, Multiset<(Seq<char>, Seq<char>)>>::empty());
            assert(leaf_map(leaves@) =~= merged(self@, leaf_map(other.leaves@.take(0))));
        }
        while j < other.leaves.len()
            invariant
                j <= other.leaves.len(),
                leaf_map(leaves@) == merged(self@, leaf_map(other.leaves@.take(j as int))),
            decreases other.leaves.len() - j,
        {
            let ghost before = leaves@;
            let ghost shorter = other.leaves@.take(j as int);
            let ghost longer = other.leaves@.take(j as int + 1);
            let leaf = other.leaves[j].copy();
            leaves.push(leaf);
            proof {
                assert(longer.drop_last() =~= shorter);
                assert(leaves@.drop_last() =~= before);
                put_merged(self@, leaf_map(shorter), leaf.h@, view_bag(leaf.views@));
                assert(leaf_map(leaves@) =~= merged(self@, leaf_map(longer)));
            }
            j = j + 1;
        }
        proof {
            assert(other.leaves@.take(j as int) =~= other.leaves@);
        }
        ContextTree::build(leaves)
    }

    /// The leaves of `self` whose key the other tree has (`want`) or lacks.
    fn keep_if(&self, other: &ContextTree, want: bool) -> (t: ContextTree)
        requires
            self.wf(),
            other.wf(),
        ensures
            t.wf(),
            t@ == self@.restrict(self@.dom().filter(|h: Seq<char>| other@.dom().contains(h) == want)),
    {
        let ghost pick = |h: Seq<char>| other@.dom().contains(h) == want;
        let mut leaves: Vec<Leaf> = Vec::new();
        let mut i: usize = 0;
        proof {
            let m = leaf_map(self.leaves@.take(0));
            assert(leaf_map(leaves@) =~= m.restrict(m.dom().filter(pick)));
        }
        while i < self.leaves.len()
            invariant
                i <= self.leaves.len(),
                other.wf(),
                pick == (|h: Seq<char>| other@.dom().contains(h) == want),
                leaf_map(leaves@) == leaf_map(self.leaves@.take(i as int)).restrict(
                    leaf_map(self.leaves@.take(i as int)).dom().filter(pick),
                ),
            decreases self.leaves.len() - i,
        {
            let ghost before = leaves@;
            let ghost shorter = self.leaves@.take(i as int);
            let ghost longer = self.leaves@.take(i as int + 1);
            proof {
                assert(longer.drop_last() =~= shorter);
            }
            if other.contains(self.leaves[i].h.as_str()) == want {
                let leaf = self.leaves[i].copy();
                leaves.push(leaf);
                proof {
                    assert(leaves@.drop_last() =~= before);
                }
            }
            proof {
                let m = leaf_map(longer);
                assert(leaf_map(leaves@) =~= m.restrict(m.dom().filter(pick)));
            }
            i = i + 1;
        }
        proof {
            assert(self.leaves@.take(i as int) =~= self.leaves@);
        }
        ContextTree::build(leaves)
    }

    /// The meet: the leaves of `self` whose key the other tree has.
    pub fn intersection(&self, other: &ContextTree) -> (t: ContextTree)
        requires
            self.wf(),
            other.wf(),
        ensures
            t.wf(),
            t@ == self@.restrict(other@.dom()),
    {
        let t = self.keep_if(other, true);
        proof {
            assert(t@ =~= self@.restrict(other@.dom()));
        }
        t
    }

    /// The leaves of `self` whose key the other tree lacks.
    pub fn difference(&self, other: &ContextTree) -> (t: ContextTree)
        requires
            self.wf(),
            other.wf(),
        ensures
            t.wf(),
            t@ == self@.remove_keys(other@.dom()),
    {
        let t = self.keep_if(other, false);
        proof {
            assert(t@ =~= self@.remove_keys(other@.dom()));
        }
        t
    }

    /// The keys of `self` that the other tree has (`want`) or lacks, ascending.
    fn keys_if(&self, other: &ContextTree, want: bool) -> (keys: Vec<String>)
        requires
            self.wf(),
            other.wf(),
        ensures
            text::texts(keys@) == key_list(self.spec_leaves()).filter(
                |h: Seq<char>| other@.dom().contains(h) == want,
            ),
    {
        let ghost pick = |h: Seq<char>| other@.dom().contains(h) == want;
        let mut keys: Vec<String> = Vec::new();
        let mut i: usize = 0;
        let ghost all = key_list(self.leaves@);
        proof {
            reveal(Seq::filter);
            assert(text::texts(keys@) =~= all.take(0).filter(pick));
        }
        while i < self.leaves.len()
            invariant
                i <= self.leaves.len(),
                other.wf(),
                pick == (|h: Seq<char>| other@.dom().contains(h) == want),
                all == key_list(self.leaves@),
                text::texts(keys@) == all.take(i as int).filter(pick),
            decreases self.leaves.len() - i,
        {
            let ghost before = keys@;
            if other.contains(self.leaves[i].h.as_str()) == want {
                keys.push(self.leaves[i].h.clone());
            }
            proof {
                reveal(Seq::filter);
                let longer = all.take(i as int + 1);
                assert(longer.drop_last() =~= all.take(i as int));
                assert(longer.last() == self.leaves@[i as int].h@);
                assert(text::texts(keys@) =~= longer.filter(pick));
            }
            i = i + 1;
        }
        proof {
            assert(all.take(i as int) =~= all);
        }
        keys
    }

    /// The keys that came, went and stayed between `self` and the other tree.
    pub fn diff(&self, other: &ContextTree) -> (d: TreeDiff)
        requires
            self.wf(),
            other.wf(),
        ensures
            d.compares(self, other),
    {
        let d = TreeDiff {
            added: other.keys_if(self, false),
            removed: self.keys_if(other, false),
            retained: self.keys_if(other, true),
        };
        proof {
            assert((|h: Seq<char>| self@.dom().contains(h) == false) =~= (|h: Seq<char>| !self@.dom().contains(h)));
            assert((|h: Seq<char>| other@.dom().contains(h) == false) =~= (|h: Seq<char>| !other@.dom().contains(h)));
            assert((|h: Seq<char>| other@.dom().contains(h) == true) =~= (|h: Seq<char>| other@.dom().contains(h)));
        }
        d
    }
}

/// The keys of a list of leaves.
pub open spec fn key_list(leaves: Seq<Leaf>) -> Seq<Seq<char>> {
    leaves.map_values(|l: Leaf| l.h@)
}

/// Sorting sorted views changes nothing.
proof fn ranked_idempotent(v: Seq<(Seq<char>, Seq<char>)>)
    ensures
        sorted_views(sorted_views(v)) == sorted_views(v),
{
    pair_rank_faithful();
    let r = pair_rank();
    order::rank_total(r);
    let leq = order::rank_leq(r);
    v.lemma_sort_by_ensures(leq);
    sorted_views(v).lemma_sort_by_ensures(leq);
    vstd::seq_lib::lemma_sorted_unique(sorted_views(sorted_views(v)), sorted_views(v), leq);
}

/// Views put into a map before or after a join.
proof fn put_merged(
    m: Map<Seq<char>, Multiset<(Seq<char>, Seq<char>)>>,
    n: Map<Seq<char>, Multiset<(Seq<char>, Seq<char>)>>,
    h: Seq<char>,
    views: Multiset<(Seq<char>, Seq<char>)>,
)
    ensures
        merged(m, put(n, h, views)) == put(merged(m, n), h, views),
{
    if m.dom().contains(h) && n.dom().contains(h) {
        joined_laws(m[h], n[h], views);
    }
    assert(merged(m, put(n, h, views)) =~= put(merged(m, n), h, views));
}

/// Replacing a leaf by one with the same key keeps a list canonical.
proof fn replaced(before: Seq<Leaf>, at: int, leaf: Leaf, after: Seq<Leaf>)
    requires
        ascending_leaves(before),
        views_in_order(before),
        0 <= at < before.len(),
        after == before.update(at, leaf),
        before[at].h@ == leaf.h@,
        sorted_views(view_list(leaf.views@)) == view_list(leaf.views@),
    ensures
        ascending_leaves(after),
        views_in_order(after),
        leaf_map(after) == leaf_map(before).insert(leaf.h@, view_bag(leaf.views@)),
{
    assert(forall|i: int| 0 <= i < before.len() ==> #[trigger] after[i].h@ == before[i].h@);
    canonical_map(before);
    canonical_map(after);
    let m = leaf_map(after);
    let n = leaf_map(before).insert(leaf.h@, view_bag(leaf.views@));
    assert forall|h: Seq<char>| #![trigger m.dom().contains(h)] #![trigger n.dom().contains(h)] m.dom().contains(h)
        == n.dom().contains(h) && (m.dom().contains(h) ==> m[h] == n[h]) by {
        if has_leaf(before, h) {
            let i = choose|i: int| 0 <= i < before.len() && #[trigger] before[i].h@ == h;
            assert(after[i].h@ == h);
            if i != at {
                assert(after[i] == before[i]);
                order::bytes_irreflexive(text::utf8(h));
                assert(i < at ==> order::bytes_less(text::utf8(before[i].h@), text::utf8(before[at].h@)));
                assert(at < i ==> order::bytes_less(text::utf8(before[at].h@), text::utf8(before[i].h@)));
            }
        }
        if has_leaf(after, h) {
            let i = choose|i: int| 0 <= i < after.len() && #[trigger] after[i].h@ == h;
            assert(before[i].h@ == h);
        }
        assert(after[at].h@ == leaf.h@);
    }
    assert(m.dom() =~= n.dom());
    assert(m =~= n);
}

/// Placing a new leaf where it belongs keeps a list canonical.
proof fn placed(before: Seq<Leaf>, at: int, leaf: Leaf, after: Seq<Leaf>)
    requires
        ascending_leaves(before),
        views_in_order(before),
        0 <= at <= before.len(),
        after == before.insert(at, leaf),
        forall|i: int| 0 <= i < at ==> order::bytes_less(text::utf8(#[trigger] before[i].h@), text::utf8(leaf.h@)),
        forall|i: int| at <= i < before.len() ==> order::bytes_less(text::utf8(leaf.h@), text::utf8(#[trigger] before[i].h@)),
        sorted_views(view_list(leaf.views@)) == view_list(leaf.views@),
    ensures
        ascending_leaves(after),
        views_in_order(after),
        leaf_map(after) == leaf_map(before).insert(leaf.h@, view_bag(leaf.views@)),
{
    assert forall|i: int, j: int| 0 <= i < j < after.len() implies order::bytes_less(
        text::utf8(#[trigger] after[i].h@),
        text::utf8(#[trigger] after[j].h@),
    ) by {
        let oi = if i < at { i } else { i - 1 };
        let oj = if j < at { j } else { j - 1 };
        if i != at {
            assert(after[i] == before[oi]);
        }
        if j != at {
            assert(after[j] == before[oj]);
        }
        if i != at && j != at {
            assert(order::bytes_less(text::utf8(before[oi].h@), text::utf8(before[oj].h@)));
        }
    }
    assert forall|i: int| 0 <= i < after.len() implies sorted_views(view_list((#[trigger] after[i]).views@))
        == view_list(after[i].views@) by {
        let oi = if i < at { i } else { i - 1 };
        if i != at {
            assert(after[i] == before[oi]);
        }
    }
    canonical_map(before);
    canonical_map(after);
    let m = leaf_map(after);
    let n = leaf_map(before).insert(leaf.h@, view_bag(leaf.views@));
    assert forall|h: Seq<char>| #![trigger m.dom().contains(h)] #![trigger n.dom().contains(h)] m.dom().contains(h)
        == n.dom().contains(h) && (m.dom().contains(h) ==> m[h] == n[h]) by {
        if has_leaf(before, h) {
            let i = choose|i: int| 0 <= i < before.len() && #[trigger] before[i].h@ == h;
            let ni = if i < at { i } else { i + 1 };
            assert(after[ni] == before[i]);
            assert(after[ni].h@ == h);
            order::bytes_irreflexive(text::utf8(h));
        }
        if h == leaf.h@ {
            assert(after[at].h@ == h);
        }
        if has_leaf(after, h) {
            let i = choose|i: int| 0 <= i < after.len() && #[trigger] after[i].h@ == h;
            let oi = if i < at { i } else { i - 1 };
            if i != at {
                assert(after[i] == before[oi]);
                assert(before[oi].h@ == h);
            }
        }
    }
    assert(m.dom() =~= n.dom());
    assert(m =~= n);
}

/// What is put in can be taken out again, and what is taken out can be put back;
/// taking out a key that is not there changes nothing.
pub proof fn insert_remove_law(t: &ContextTree, h: Seq<char>, views: Multiset<(Seq<char>, Seq<char>)>)
    requires
        t.wf(),
    ensures
        !t@.dom().contains(h) ==> t@.insert(h, views).remove(h) == t@,
        !t@.dom().contains(h) ==> t@.remove(h) == t@,
        t@.dom().contains(h) ==> t@.remove(h).insert(h, t@[h]) == t@,
{
    if t@.dom().contains(h) {
        assert(t@.remove(h).insert(h, t@[h]) =~= t@);
    } else {
        assert(t@.insert(h, views).remove(h) =~= t@);
        assert(t@.remove(h) =~= t@);
    }
}

/// The join is idempotent, commutative and associative, and holds exactly the keys
/// of both trees; it absorbs the meet, and the meet absorbs it. The keys of a meet
/// are those that both trees have. Meet and difference make up the whole.
pub proof fn lattice_law(a: &ContextTree, b: &ContextTree, c: &ContextTree)
    requires
        a.wf(),
        b.wf(),
        c.wf(),
    ensures
        merged(a@, a@) == a@,
        merged(a@, b@) == merged(b@, a@),
        merged(merged(a@, b@), c@) == merged(a@, merged(b@, c@)),
        merged(a@, b@).dom() == a@.dom().union(b@.dom()),
        merged(a@, a@.restrict(b@.dom())) == a@,
        a@.restrict(merged(a@, b@).dom()) == a@,
        a@.restrict(b@.dom()).dom() == a@.dom().intersect(b@.dom()),
        a@.restrict(a@.dom()) == a@,
        merged(a@.restrict(b@.dom()), a@.remove_keys(b@.dom())) == a@,
        a@.remove_keys(b@.dom()).dom().disjoint(b@.dom()),
{
    assert forall|h: Seq<char>| #![trigger a@[h]] #![trigger b@[h]] true implies joined(a@[h], a@[h]) == a@[h] && joined(
        a@[h],
        b@[h],
    ) == joined(b@[h], a@[h]) && joined(joined(a@[h], b@[h]), c@[h]) == joined(a@[h], joined(b@[h], c@[h])) by {
        joined_laws(a@[h], b@[h], c@[h]);
    }
    assert(merged(a@, a@) =~= a@);
    assert(merged(a@, b@) =~= merged(b@, a@));
    assert(merged(merged(a@, b@), c@) =~= merged(a@, merged(b@, c@)));
    assert(merged(a@, b@).dom() =~= a@.dom().union(b@.dom()));
    assert(merged(a@, a@.restrict(b@.dom())) =~= a@);
    assert(a@.restrict(merged(a@, b@).dom()) =~= a@);
    assert(a@.restrict(b@.dom()).dom() =~= a@.dom().intersect(b@.dom()));
    assert(a@.restrict(a@.dom()) =~= a@);
    assert(merged(a@.restrict(b@.dom()), a@.remove_keys(b@.dom())) =~= a@);
}

/// A meet has the views of its first tree: meets commute where the trees agree on
/// the views of the keys they share.
pub proof fn meets_commute(a: &ContextTree, b: &ContextTree)
    requires
        a.wf(),
        b.wf(),
        a@.agrees(b@),
    ensures
        a@.restrict(b@.dom()) == b@.restrict(a@.dom()),
{
    assert(a@.restrict(b@.dom()) =~= b@.restrict(a@.dom()));
}

/// The bytes hashed for the node above a pair of neighbours.
pub open spec fn pair_data(level: Seq<Seq<char>>, i: int) -> Seq<u8> {
    node_data(level[2 * i], if 2 * i + 1 < level.len() { level[2 * i + 1] } else { level[2 * i] })
}

/// The byte strings hashed for the nodes above a level.
pub open spec fn hashed_nodes(level: Seq<Seq<char>>) -> Set<Seq<u8>>
    decreases level.len(),
{
    if level.len() <= 1 {
        Set::empty()
    } else {
        Set::new(|d: Seq<u8>| exists|i: int| 0 <= i < (level.len() + 1) / 2 && d == #[trigger] pair_data(level, i)).union(
            hashed_nodes(level_above(level)),
        )
    }
}

/// The digests of leaves.
pub open spec fn leaf_level(leaves: Seq<(Seq<char>, Seq<(Seq<char>, Seq<char>)>)>) -> Seq<Seq<char>> {
    leaves.map_values(|l: (Seq<char>, Seq<(Seq<char>, Seq<char>)>)| leaf_digest(l.0, l.1))
}

/// The byte strings hashed for a tree with the given leaves.
pub open spec fn hashed(leaves: Seq<(Seq<char>, Seq<(Seq<char>, Seq<char>)>)>) -> Set<Seq<u8>> {
    if leaves.len() == 0 {
        set![text::utf8("empty-context"@)]
    } else {
        Set::new(
            |d: Seq<u8>| exists|i: int| 0 <= i < leaves.len() && d == leaf_data((#[trigger] leaves[i]).0, leaves[i].1),
        ).union(hashed_nodes(leaf_level(leaves)))
    }
}

/// No two different byte strings of a set share a digest.
pub open spec fn clash_free(s: Set<Seq<u8>>) -> bool {
    forall|x: Seq<u8>, y: Seq<u8>|
        s.contains(x) && s.contains(y) && #[trigger] digest::sha1_text(x) == #[trigger] digest::sha1_text(y) ==> x == y
}

/// The digest at the top of the levels above a level.
spec fn top(level: Seq<Seq<char>>) -> Seq<char> {
    levels_from(level).last()[0]
}

/// How many levels stand above a level.
spec fn height(level: Seq<Seq<char>>) -> nat
    decreases level.len(),
{
    if level.len() <= 1 {
        0
    } else {
        1 + height(level_above(level))
    }
}

/// Whether a digest is that of something hashed which stands so high above leaves.
spec fn stands_at(s: Set<Seq<u8>>, d: Seq<char>, k: nat) -> bool
    decreases k,
{
    if k == 0 {
        exists|x: Seq<u8>| s.contains(x) && x.len() > 0 && x[0] == 0 && #[trigger] digest::sha1_text(x) == d
    } else {
        exists|l: Seq<char>, r: Seq<char>|
            s.contains(#[trigger] node_data(l, r)) && node_digest(l, r) == d && text::utf8(l).len() == 40 && stands_at(
                s,
                l,
                (k - 1) as nat,
            )
    }
}

/// A digest stands at one height.
proof fn one_height(s: Set<Seq<u8>>, d: Seq<char>, j: nat, k: nat)
    requires
        clash_free(s),
        stands_at(s, d, j),
        stands_at(s, d, k),
    ensures
        j == k,
    decreases j,
{
    if j == 0 && k > 0 {
        low_or_high(s, d, k);
    } else if k == 0 && j > 0 {
        low_or_high(s, d, j);
    } else if j > 0 && k > 0 {
        let (l, r) = choose|l: Seq<char>, r: Seq<char>|
            s.contains(#[trigger] node_data(l, r)) && node_digest(l, r) == d && text::utf8(l).len() == 40 && stands_at(
                s,
                l,
                (j - 1) as nat,
            );
        let (m, q) = choose|m: Seq<char>, q: Seq<char>|
            s.contains(#[trigger] node_data(m, q)) && node_digest(m, q) == d && text::utf8(m).len() == 40 && stands_at(
                s,
                m,
                (k - 1) as nat,
            );
        assert(node_data(l, r) == node_data(m, q));
        halves(l, r, m, q);
        one_height(s, l, (j - 1) as nat, (k - 1) as nat);
    }
}

/// The digest of a leaf is not that of a node.
proof fn low_or_high(s: Set<Seq<u8>>, d: Seq<char>, k: nat)
    requires
        clash_free(s),
        stands_at(s, d, 0),
        stands_at(s, d, k),
    ensures
        k == 0,
{
    if k > 0 {
        let x = choose|x: Seq<u8>| s.contains(x) && x.len() > 0 && x[0] == 0 && #[trigger] digest::sha1_text(x) == d;
        let (l, r) = choose|l: Seq<char>, r: Seq<char>|
            s.contains(#[trigger] node_data(l, r)) && node_digest(l, r) == d && text::utf8(l).len() == 40 && stands_at(
                s,
                l,
                (k - 1) as nat,
            );
        assert(digest::sha1_text(node_data(l, r)) == d);
        assert(x == node_data(l, r));
        assert(node_data(l, r)[0] == 1);
    }
}

/// The two digests below a node are determined by the bytes hashed for it.
proof fn halves(l: Seq<char>, r: Seq<char>, m: Seq<char>, q: Seq<char>)
    requires
        node_data(l, r) == node_data(m, q),
        text::utf8(l).len() == text::utf8(m).len(),
    ensures
        l == m,
        r == q,
{
    let n = text::utf8(l).len() as int;
    assert(text::utf8(l) =~= node_data(l, r).subrange(1, 1 + n));
    assert(text::utf8(m) =~= node_data(m, q).subrange(1, 1 + n));
    assert(text::utf8(r) =~= node_data(l, r).skip(1 + n));
    assert(text::utf8(q) =~= node_data(m, q).skip(1 + n));
    text::utf8_injective(l, m);
    text::utf8_injective(r, q);
}

/// What stands above a level.
proof fn step_up(level: Seq<Seq<char>>)
    requires
        level.len() > 1,
    ensures
        top(level) == top(level_above(level)),
        level_above(level).len() == (level.len() + 1) / 2,
        0 < level_above(level).len() < level.len(),
        forties(levels_from(level)) ==> forty(level) && forties(levels_from(level_above(level))),
        forall|i: int|
            0 <= i < level_above(level).len() ==> #[trigger] level_above(level)[i] == digest::sha1_text(pair_data(level, i))
                && hashed_nodes(level).contains(pair_data(level, i)),
        hashed_nodes(level_above(level)).subset_of(hashed_nodes(level)),
{
    let above = level_above(level);
    let rest = levels_from(above);
    let all = levels_from(level);
    assert(rest.len() > 0);
    assert(all =~= seq![level] + rest);
    assert(all.last() == rest.last());
    if forties(all) {
        assert(all[0] == level);
        assert forall|i: int| 0 <= i < rest.len() implies forty(#[trigger] rest[i]) by {
            assert(all[i + 1] == rest[i]);
        }
    }
}

/// The height of the top.
proof fn top_stands(s: Set<Seq<u8>>, level: Seq<Seq<char>>, k: nat)
    requires
        level.len() > 0,
        forties(levels_from(level)),
        hashed_nodes(level).subset_of(s),
        forall|i: int| 0 <= i < level.len() ==> stands_at(s, #[trigger] level[i], k),
    ensures
        stands_at(s, top(level), k + height(level)),
    decreases level.len(),
{
    if level.len() > 1 {
        step_up(level);
        let above = level_above(level);
        assert forall|i: int| 0 <= i < above.len() implies stands_at(s, #[trigger] above[i], k + 1) by {
            let l = level[2 * i];
            let r = if 2 * i + 1 < level.len() { level[2 * i + 1] } else { level[2 * i] };
            assert(above[i] == digest::sha1_text(pair_data(level, i)));
            assert(s.contains(node_data(l, r)));
            assert(node_digest(l, r) == above[i]);
        }
        top_stands(s, above, k + 1);
        assert(k + 1 + height(above) == k + height(level));
    }
}

/// Levels of one height without repetitions under the same top are the same.
proof fn same_level(s: Set<Seq<u8>>, x: Seq<Seq<char>>, y: Seq<Seq<char>>)
    requires
        clash_free(s),
        x.len() > 0,
        y.len() > 0,
        x.no_duplicates(),
        y.no_duplicates(),
        forties(levels_from(x)),
        forties(levels_from(y)),
        hashed_nodes(x).subset_of(s),
        hashed_nodes(y).subset_of(s),
        height(x) == height(y),
        top(x) == top(y),
    ensures
        x == y,
    decreases x.len(),
{
    if x.len() <= 1 {
        assert(y.len() == 1);
        assert(levels_from(x).last() == x);
        assert(levels_from(y).last() == y);
        assert(x =~= y);
    } else {
        assert(y.len() > 1);
        step_up(x);
        step_up(y);
        above_distinct(s, x);
        above_distinct(s, y);
        let u = level_above(x);
        let w = level_above(y);
        same_level(s, u, w);
        assert forall|i: int| 0 <= i < u.len() implies #[trigger] u[i] == w[i] && x[2 * i] == y[2 * i] && (if 2 * i + 1 < x.len() {
            x[2 * i + 1]
        } else {
            x[2 * i]
        }) == (if 2 * i + 1 < y.len() { y[2 * i + 1] } else { y[2 * i] }) by {
            assert(u[i] == w[i]);
            assert(digest::sha1_text(pair_data(x, i)) == digest::sha1_text(pair_data(y, i)));
            assert(s.contains(pair_data(x, i)) && s.contains(pair_data(y, i)));
            halves(
                x[2 * i],
                if 2 * i + 1 < x.len() { x[2 * i + 1] } else { x[2 * i] },
                y[2 * i],
                if 2 * i + 1 < y.len() { y[2 * i + 1] } else { y[2 * i] },
            );
        }
        let last = u.len() - 1;
        assert(u[last] == w[last]);
        assert(x[2 * last] == y[2 * last]);
        assert(x.len() == y.len());
        assert forall|i: int| 0 <= i < x.len() implies x[i] == y[i] by {
            let k = i / 2;
            assert(0 <= k < u.len());
            assert(u[k] == w[k]);
            assert(x[2 * k] == y[2 * k]);
            assert(i == 2 * k || i == 2 * k + 1);
        }
        assert(x =~= y);
    }
}

/// A level without repetitions has one above it.
proof fn above_distinct(s: Set<Seq<u8>>, x: Seq<Seq<char>>)
    requires
        clash_free(s),
        x.len() > 1,
        x.no_duplicates(),
        forties(levels_from(x)),
        hashed_nodes(x).subset_of(s),
    ensures
        level_above(x).no_duplicates(),
{
    step_up(x);
    let u = level_above(x);
    assert forall|i: int, j: int| 0 <= i < u.len() && 0 <= j < u.len() && i != j implies u[i] != u[j] by {
        if u[i] == u[j] {
            assert(digest::sha1_text(pair_data(x, i)) == digest::sha1_text(pair_data(x, j)));
            assert(s.contains(pair_data(x, i)) && s.contains(pair_data(x, j)));
            halves(
                x[2 * i],
                if 2 * i + 1 < x.len() { x[2 * i + 1] } else { x[2 * i] },
                x[2 * j],
                if 2 * j + 1 < x.len() { x[2 * j + 1] } else { x[2 * j] },
            );
        }
    }
}

/// The digests of the leaves of a tree: one for each, and none twice.
proof fn leaf_level_facts(s: Set<Seq<u8>>, t: &ContextTree)
    requires
        t.wf(),
        t.spec_leaves().len() > 0,
        clash_free(s),
        hashed(leaf_views(t.spec_leaves())).subset_of(s),
    ensures
        ({
            let level = leaf_level(leaf_views(t.spec_leaves()));
            &&& level.len() == t.spec_leaves().len()
            &&& level.no_duplicates()
            &&& forties(levels_from(level))
            &&& hashed_nodes(level).subset_of(s)
            &&& t.spec_root() == top(level)
            &&& stands_at(s, top(level), height(level))
            &&& forall|i: int|
                0 <= i < level.len() ==> s.contains(
                    leaf_data((#[trigger] t.spec_leaves()[i]).h@, view_list(t.spec_leaves()[i].views@)),
                )
        }),
{
    let leaves = t.spec_leaves();
    let views = leaf_views(leaves);
    let level = leaf_level(views);
    assert(tree_levels(views) == levels_from(level));
    assert forall|i: int| 0 <= i < level.len() implies s.contains(
        leaf_data((#[trigger] leaves[i]).h@, view_list(leaves[i].views@)),
    ) && level[i] == digest::sha1_text(leaf_data(leaves[i].h@, view_list(leaves[i].views@))) by {
        assert(views[i] == (leaves[i].h@, view_list(leaves[i].views@)));
        assert(hashed(views).contains(leaf_data(views[i].0, views[i].1)));
    }
    assert forall|i: int, j: int| 0 <= i < level.len() && 0 <= j < level.len() && i != j implies level[i] != level[j] by {
        let a = leaf_data(leaves[i].h@, view_list(leaves[i].views@));
        let b = leaf_data(leaves[j].h@, view_list(leaves[j].views@));
        assert(s.contains(a) && s.contains(b));
        if level[i] == level[j] {
            assert(digest::sha1_text(a) == digest::sha1_text(b));
            leaf_data_injective(
                leaves[i].h@,
                view_list(leaves[i].views@),
                leaves[j].h@,
                view_list(leaves[j].views@),
            );
            order::bytes_irreflexive(text::utf8(leaves[i].h@));
            assert(i < j ==> order::bytes_less(text::utf8(leaves[i].h@), text::utf8(leaves[j].h@)));
            assert(j < i ==> order::bytes_less(text::utf8(leaves[j].h@), text::utf8(leaves[i].h@)));
        }
    }
    assert forall|i: int| 0 <= i < level.len() implies stands_at(s, #[trigger] level[i], 0) by {
        let a = leaf_data(leaves[i].h@, view_list(leaves[i].views@));
        assert(s.contains(a));
        assert(a[0] == 0);
        assert(digest::sha1_text(a) == level[i]);
    }
    top_stands(s, level, 0);
}

/// A tree without leaves does not have the root of one with leaves.
proof fn empty_root_apart(s: Set<Seq<u8>>, a: &ContextTree, b: &ContextTree)
    requires
        a.wf(),
        b.wf(),
        a.spec_leaves().len() == 0,
        b.spec_leaves().len() > 0,
        clash_free(s),
        hashed(leaf_views(a.spec_leaves())).subset_of(s),
        hashed(leaf_views(b.spec_leaves())).subset_of(s),
    ensures
        a.spec_root() != b.spec_root(),
{
    leaf_level_facts(s, b);
    let mark = text::utf8("empty-context"@);
    let level = leaf_level(leaf_views(b.spec_leaves()));
    let d = top(level);
    assert(hashed(leaf_views(a.spec_leaves())).contains(mark));
    assert(a.spec_root() == digest::sha1_text(mark));
    reveal_strlit("empty-context");
    vstd::utf8::is_ascii_chars_encode_utf8("empty-context"@);
    assert(mark[0] == 101) by {
        assert("empty-context"@[0] == 'e');
    }
    if a.spec_root() == b.spec_root() {
        let k = height(level);
        if k == 0 {
            let x = choose|x: Seq<u8>| s.contains(x) && x.len() > 0 && x[0] == 0 && #[trigger] digest::sha1_text(x) == d;
            assert(x == mark);
        } else {
            let (l, r) = choose|l: Seq<char>, r: Seq<char>|
                s.contains(#[trigger] node_data(l, r)) && node_digest(l, r) == d && text::utf8(l).len() == 40 && stands_at(
                    s,
                    l,
                    (k - 1) as nat,
                );
            assert(digest::sha1_text(node_data(l, r)) == digest::sha1_text(mark));
            assert(node_data(l, r)[0] == 1);
        }
    }
}

/// The root changes exactly where the leaves or their views change, as far as
/// different byte strings hashed for the two trees have different digests.
pub proof fn root_law(a: &ContextTree, b: &ContextTree)
    requires
        a.wf(),
        b.wf(),
        clash_free(hashed(leaf_views(a.spec_leaves())).union(hashed(leaf_views(b.spec_leaves())))),
    ensures
        a.spec_root() == b.spec_root() <==> a@ == b@,
{
    let x = a.spec_leaves();
    let y = b.spec_leaves();
    let s = hashed(leaf_views(x)).union(hashed(leaf_views(y)));
    if a@ == b@ {
        ContextTree::canonical(a, b);
    }
    if a.spec_root() == b.spec_root() {
        if x.len() == 0 && y.len() > 0 {
            empty_root_apart(s, a, b);
        } else if y.len() == 0 && x.len() > 0 {
            empty_root_apart(s, b, a);
        } else if x.len() > 0 {
            leaf_level_facts(s, a);
            leaf_level_facts(s, b);
            let u = leaf_level(leaf_views(x));
            let w = leaf_level(leaf_views(y));
            one_height(s, top(u), height(u), height(w));
            same_level(s, u, w);
            assert forall|i: int| 0 <= i < x.len() implies leaf_bags(x)[i] == leaf_bags(y)[i] by {
                let p = leaf_data(x[i].h@, view_list(x[i].views@));
                let q = leaf_data(y[i].h@, view_list(y[i].views@));
                assert(leaf_views(x)[i] == (x[i].h@, view_list(x[i].views@)));
                assert(leaf_views(y)[i] == (y[i].h@, view_list(y[i].views@)));
                assert(u[i] == digest::sha1_text(p));
                assert(w[i] == digest::sha1_text(q));
                assert(s.contains(p) && s.contains(q));
                leaf_data_injective(x[i].h@, view_list(x[i].views@), y[i].h@, view_list(y[i].views@));
            }
            assert(leaf_bags(x) =~= leaf_bags(y));
            order_independent(x, y);
        } else {
            assert(x =~= y);
        }
    }
}

/// Between two trees every key came, went or stayed, and did only one of these.
pub proof fn diff_law(a: &ContextTree, b: &ContextTree, d: TreeDiff, h: Seq<char>)
    requires
        a.wf(),
        b.wf(),
        d.compares(a, b),
    ensures
        text::texts(d.added@).contains(h) == (b@.dom().contains(h) && !a@.dom().contains(h)),
        text::texts(d.removed@).contains(h) == (a@.dom().contains(h) && !b@.dom().contains(h)),
        text::texts(d.retained@).contains(h) == (a@.dom().contains(h) && b@.dom().contains(h)),
{
    search::filter_members(key_list(b.spec_leaves()), |x: Seq<char>| !a@.dom().contains(x), h);
    search::filter_members(key_list(a.spec_leaves()), |x: Seq<char>| !b@.dom().contains(x), h);
    search::filter_members(key_list(a.spec_leaves()), |x: Seq<char>| b@.dom().contains(x), h);
    leaf_map_facts(a.spec_leaves(), h, (Seq::empty(), Seq::empty()));
    leaf_map_facts(b.spec_leaves(), h, (Seq::empty(), Seq::empty()));
    key_list_members(a.spec_leaves(), h);
    key_list_members(b.spec_leaves(), h);
}

proof fn key_list_members(leaves: Seq<Leaf>, h: Seq<char>)
    ensures
        key_list(leaves).contains(h) == has_leaf(leaves, h),
{
    let k = key_list(leaves);
    if k.contains(h) {
        let i = choose|i: int| 0 <= i < k.len() && k[i] == h;
        assert(leaves[i].h@ == h);
    }
    if has_leaf(leaves, h) {
        let i = choose|i: int| 0 <= i < leaves.len() && #[trigger] leaves[i].h@ == h;
        assert(k[i] == h);
    }
}

/// Joined views are there as often as on the side that has them more often; a merge of
/// two trees has each leaf that either has, with its views joined.
pub proof fn merge_counts(
    m: Map<Seq<char>, Multiset<(Seq<char>, Seq<char>)>>,
    n: Map<Seq<char>, Multiset<(Seq<char>, Seq<char>)>>,
    h: Seq<char>,
    v: (Seq<char>, Seq<char>),
)
    ensures
        merged(m, n).dom().contains(h) <==> m.dom().contains(h) || n.dom().contains(h),
        m.dom().contains(h) && !n.dom().contains(h) ==> merged(m, n)[h] == m[h],
        !m.dom().contains(h) && n.dom().contains(h) ==> merged(m, n)[h] == n[h],
        m.dom().contains(h) && n.dom().contains(h) ==> merged(m, n)[h].count(v) == (if m[h].count(v) >= n[h].count(v) {
            m[h].count(v)
        } else {
            n[h].count(v)
        }),
        put(m, h, n[h]).dom() == m.dom().insert(h),
        m.dom().contains(h) ==> put(m, h, n[h])[h].count(v) == (if m[h].count(v) >= n[h].count(v) {
            m[h].count(v)
        } else {
            n[h].count(v)
        }),
        !m.dom().contains(h) ==> put(m, h, n[h])[h] == n[h],
{
}

/// A level above another has half as many nodes, rounded up. Each hashes the two nodes
/// below it, the left before the right; an odd last node stands on both sides. A single
/// leaf is its own root.
pub proof fn level_law(level: Seq<Seq<char>>, i: int)
    requires
        0 <= i < level_above(level).len(),
    ensures
        2 * level_above(level).len() == level.len() || 2 * level_above(level).len() == level.len() + 1,
        2 * i + 1 < level.len() ==> level_above(level)[i] == node_digest(level[2 * i], level[2 * i + 1]),
        2 * i + 1 == level.len() ==> level_above(level)[i] == node_digest(level[2 * i], level[2 * i]),
        levels_from(level)[0] == level,
        level.len() == 1 ==> levels_from(level).len() == 1,
        level.len() > 1 ==> levels_from(level).len() == levels_from(level_above(level)).len() + 1 && levels_from(level).last()
            == levels_from(level_above(level)).last(),
{
}

/// A node hashes its mark, then the text of its left part, then that of its right one.
pub proof fn node_layout(l: Seq<char>, r: Seq<char>)
    ensures
        node_digest(l, r) == digest::sha1_text(node_data(l, r)),
        node_data(l, r).len() == 1 + text::utf8(l).len() + text::utf8(r).len(),
        node_data(l, r)[0] == 1,
        node_data(l, r).subrange(1, 1 + text::utf8(l).len() as int) == text::utf8(l),
        node_data(l, r).skip(1 + text::utf8(l).len() as int) == text::utf8(r),
{
    assert(node_data(l, r).subrange(1, 1 + text::utf8(l).len() as int) =~= text::utf8(l));
    assert(node_data(l, r).skip(1 + text::utf8(l).len() as int) =~= text::utf8(r));
}

/// A leaf hashes its mark, then its own text, then its views one after the other, the
/// name of each before its value.
pub proof fn leaf_layout(h: Seq<char>, views: Seq<(Seq<char>, Seq<char>)>, v: (Seq<char>, Seq<char>))
    ensures
        leaf_digest(h, views) == digest::sha1_text(leaf_data(h, views)),
        leaf_data(h, Seq::empty()) == seq![0u8] + text::utf8(h),
        leaf_data(h, views.push(v)) == leaf_data(h, views) + seq![PART] + text::utf8(v.0) + seq![PART] + text::utf8(v.1),
{
    assert(views.push(v).drop_last() =~= views);
    assert(leaf_data(h, Seq::empty()) =~= seq![0u8] + text::utf8(h));
    assert(leaf_data(h, views.push(v)) =~= leaf_data(h, views) + seq![PART] + text::utf8(v.0) + seq![PART] + text::utf8(v.1));
}

} // verus!
