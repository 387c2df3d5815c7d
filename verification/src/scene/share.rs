//! Shares in counts: how much of one set another covers.

use vstd::prelude::*;

use crate::hllset::HLLSet;
use crate::boolring;

verus! {

/// A part of a whole, in counts.
#[derive(Clone, Copy, Debug, PartialEq, Eq, Structural)]
pub struct Share {
    pub part: u64,
    pub whole: u64,
}

/// How much of the second set the first covers.
pub open spec fn covered(a: Set<u32>, b: Set<u32>) -> Share {
    Share { part: a.intersect(b).len() as u64, whole: b.len() as u64 }
}

/// How much of two sets is common to both.
pub open spec fn shared(a: Set<u32>, b: Set<u32>) -> Share {
    Share { part: a.intersect(b).len() as u64, whole: a.union(b).len() as u64 }
}

/// How much of each row a set covers.
pub open spec fn weights(set: Set<u32>, rows: Seq<Set<u32>>) -> Seq<Share> {
    rows.map_values(|r: Set<u32>| covered(set, r))
}

/// The counts of a list of sets.
pub open spec fn sizes(rows: Seq<Set<u32>>) -> Seq<u64> {
    rows.map_values(|r: Set<u32>| r.len() as u64)
}

/// The union of a list of sets.
pub open spec fn cover(rows: Seq<Set<u32>>) -> Set<u32>
    decreases rows.len(),
{
    if rows.len() == 0 {
        Set::empty()
    } else {
        cover(rows.drop_last()).union(rows.last())
    }
}

/// How much of the second set the first covers: `|A n B|` of `|B|`.
pub fn bss(a: &HLLSet, b: &HLLSet) -> (s: Share)
    ensures
        s == covered(a@, b@),
{
    Share { part: a.intersection(b).popcount(), whole: b.popcount() }
}

/// How much of two sets is common to both: `|A n B|` of `|A u B|`.
pub fn jaccard(a: &HLLSet, b: &HLLSet) -> (s: Share)
    ensures
        s == shared(a@, b@),
{
    Share { part: a.intersection(b).popcount(), whole: a.union(b).popcount() }
}

/// How much of each row a set covers.
pub fn weigh(set: &HLLSet, rows: &Vec<HLLSet>) -> (w: Vec<Share>)
    ensures
        w@ == weights(set@, boolring::set_views(rows@)),
{
    let mut w: Vec<Share> = Vec::new();
    let mut i: usize = 0;
    while i < rows.len()
        invariant
            i <= rows@.len(),
            w@.len() == i,
            forall|j: int| 0 <= j < i ==> #[trigger] w@[j] == covered(set@, rows@[j]@),
        decreases rows.len() - i,
    {
        w.push(bss(set, &rows[i]));
        i = i + 1;
    }
    proof {
        assert(w@ =~= weights(set@, boolring::set_views(rows@)));
    }
    w
}

/// The counts of a list of sets.
pub fn count_each(rows: &Vec<HLLSet>) -> (n: Vec<u64>)
    ensures
        n@ == sizes(boolring::set_views(rows@)),
{
    let mut n: Vec<u64> = Vec::new();
    let mut i: usize = 0;
    while i < rows.len()
        invariant
            i <= rows@.len(),
            n@.len() == i,
            forall|j: int| 0 <= j < i ==> #[trigger] n@[j] == rows@[j]@.len(),
        decreases rows.len() - i,
    {
        n.push(rows[i].popcount());
        i = i + 1;
    }
    proof {
        assert(n@ =~= sizes(boolring::set_views(rows@)));
    }
    n
}

/// The union of a list of sets.
pub fn unite(rows: &[HLLSet]) -> (s: HLLSet)
    ensures
        s@ == cover(boolring::set_views(rows@)),
{
    let ghost all = boolring::set_views(rows@);
    let mut s = HLLSet::new();
    let mut i: usize = 0;
    while i < rows.len()
        invariant
            i <= rows@.len(),
            all == boolring::set_views(rows@),
            s@ == cover(all.take(i as int)),
        decreases rows.len() - i,
    {
        proof {
            assert(all.take(i as int + 1).drop_last() =~= all.take(i as int));
            assert(all.take(i as int + 1).last() == rows@[i as int]@);
        }
        s = s.union(&rows[i]);
        i = i + 1;
    }
    proof {
        assert(all.take(i as int) =~= all);
    }
    s
}

/// What left, what stayed and what came between two sets: left and stayed make up
/// the first, stayed and came the second, and no bit both left and came.
pub proof fn transition_law(a: Set<u32>, b: Set<u32>)
    requires
        a.finite(),
        b.finite(),
    ensures
        a.difference(b).union(a.intersect(b)) == a,
        a.intersect(b).union(b.difference(a)) == b,
        a.difference(b).disjoint(b.difference(a)),
        a.difference(b).len() + a.intersect(b).len() == a.len(),
        a.intersect(b).len() + b.difference(a).len() == b.len(),
{
    assert(a.difference(b).union(a.intersect(b)) =~= a);
    assert(a.intersect(b).union(b.difference(a)) =~= b);
    vstd::set_lib::lemma_set_disjoint_lens(a.difference(b), a.intersect(b));
    vstd::set_lib::lemma_set_disjoint_lens(a.intersect(b), b.difference(a));
}

/// A set covers all of itself and of what it holds; a share is never more than
/// the whole.
pub proof fn share_law(a: Set<u32>, b: Set<u32>)
    requires
        a.finite(),
        b.finite(),
        b.len() <= u64::MAX,
    ensures
        b.subset_of(a) ==> covered(a, b).part == covered(a, b).whole,
        covered(a, b).part <= covered(a, b).whole,
        a.disjoint(b) ==> covered(a, b).part == 0,
{
    vstd::set_lib::lemma_len_intersect(b, a);
    assert(a.intersect(b) =~= b.intersect(a));
    if b.subset_of(a) {
        assert(a.intersect(b) =~= b);
    }
    if a.disjoint(b) {
        assert(a.intersect(b) =~= Set::empty());
    }
}

/// A bit is in the union of a list exactly where some set of the list has it.
pub proof fn cover_law(rows: Seq<Set<u32>>)
    ensures
        forall|b: u32| #[trigger] cover(rows).contains(b) <==> exists|i: int| 0 <= i < rows.len() && (#[trigger] rows[i]).contains(b),
    decreases rows.len(),
{
    if rows.len() > 0 {
        let front = rows.drop_last();
        cover_law(front);
        assert forall|b: u32| #[trigger] cover(rows).contains(b) <==> exists|i: int|
            0 <= i < rows.len() && (#[trigger] rows[i]).contains(b) by {
            if cover(front).contains(b) {
                let i = choose|i: int| 0 <= i < front.len() && (#[trigger] front[i]).contains(b);
                assert(rows[i].contains(b));
            }
            if exists|i: int| 0 <= i < rows.len() && (#[trigger] rows[i]).contains(b) {
                let i = choose|i: int| 0 <= i < rows.len() && (#[trigger] rows[i]).contains(b);
                if i < front.len() {
                    assert(front[i].contains(b));
                }
            }
        }
    }
}

/// How much of `b` the set `a` covers is counted in bits of `b`: the whole is all of
/// them, the part those that `a` has too, so that the rest is what `b` has of its own.
/// What two sets share is counted in bits of either.
pub proof fn share_counts(a: Set<u32>, b: Set<u32>)
    requires
        a.finite(),
        b.finite(),
        a.len() + b.len() <= u64::MAX,
    ensures
        covered(a, b).whole == b.len(),
        covered(a, b).part == b.filter(|x: u32| a.contains(x)).len(),
        covered(a, b).part + b.filter(|x: u32| !a.contains(x)).len() == b.len(),
        shared(a, b).part == covered(a, b).part,
        shared(a, b) == shared(b, a),
        shared(a, b).whole + shared(a, b).part == a.len() + b.len(),
        covered(a, a).part == a.len(),
        shared(a, a).part == shared(a, a).whole,
{
    let both = b.filter(|x: u32| a.contains(x));
    let own = b.filter(|x: u32| !a.contains(x));
    assert(a.intersect(b) =~= both);
    assert(b.intersect(a) =~= both);
    assert(both.union(own) =~= b);
    vstd::set_lib::lemma_set_disjoint_lens(both, own);
    vstd::set_lib::lemma_len_subset(both, b);
    assert(a.union(own) =~= a.union(b));
    assert(b.union(a) =~= a.union(b));
    vstd::set_lib::lemma_set_disjoint_lens(a, own);
    assert(a.intersect(a) =~= a);
    assert(a.union(a) =~= a);
}

} // verus!
