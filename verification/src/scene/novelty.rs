//! What each set of a series adds to the span of those before it.

use vstd::prelude::*;

use crate::boolring::BoolBasis;
use crate::boolring::InsertResult;
use crate::hashing::PLANE;
use crate::hllset::HLLSet;
use crate::boolring;
use crate::hllset;
use crate::search;

verus! {

/// A series of sets against a growing basis.
#[derive(Clone, Debug, PartialEq, Eq)]
pub struct NoveltyOut {
    /// How many bits of each set were left by the rows before it.
    pub novelty: Vec<u64>,
    /// The rows after each set.
    pub dim: Vec<usize>,
    /// How many rows add up to each set, where they do.
    pub coords_len: Vec<usize>,
}

/// The bits of a set that the rows before it leave.
pub open spec fn left_at(sets: Seq<Set<u32>>, i: int) -> Set<u32> {
    let before = boolring::folded(sets.take(i));
    boolring::residual_of(before.0, before.1, sets[i])
}

/// How many rows add up to a set, where they do.
pub open spec fn coords_at(sets: Seq<Set<u32>>, i: int) -> nat {
    let before = boolring::folded(sets.take(i));
    if boolring::in_span(before.0, sets[i]) {
        boolring::used_rows(before.1, sets[i], PLANE as nat).len()
    } else {
        0
    }
}

/// Follows a series of sets through a growing basis.
pub fn novelty_series(hllsets: &Vec<HLLSet>) -> (out: NoveltyOut)
    ensures
        out.novelty@.len() == hllsets@.len(),
        out.dim@.len() == hllsets@.len(),
        out.coords_len@.len() == hllsets@.len(),
        forall|i: int|
            0 <= i < hllsets@.len() ==> #[trigger] out.novelty@[i] == left_at(boolring::set_views(hllsets@), i).len(),
        forall|i: int|
            0 <= i < hllsets@.len() ==> #[trigger] out.dim@[i] == boolring::folded(
                boolring::set_views(hllsets@).take(i + 1),
            ).0.len(),
        forall|i: int|
            0 <= i < hllsets@.len() ==> #[trigger] out.coords_len@[i] == coords_at(boolring::set_views(hllsets@), i),
{
    let ghost sets = boolring::set_views(hllsets@);
    let mut basis = BoolBasis::new();
    let mut novelty: Vec<u64> = Vec::new();
    let mut dim: Vec<usize> = Vec::new();
    let mut coords_len: Vec<usize> = Vec::new();
    proof {
        assert(sets.take(0) =~= Seq::empty());
    }
    let mut i: usize = 0;
    while i < hllsets.len()
        invariant
            i <= hllsets@.len(),
            sets == boolring::set_views(hllsets@),
            basis.wf(),
            boolring::folded(sets.take(i as int)) == (basis.rows(), basis.pivots@),
            novelty@.len() == i,
            dim@.len() == i,
            coords_len@.len() == i,
            forall|j: int| 0 <= j < i ==> #[trigger] novelty@[j] == left_at(sets, j).len(),
            forall|j: int| 0 <= j < i ==> #[trigger] dim@[j] == boolring::folded(sets.take(j + 1)).0.len(),
            forall|j: int| 0 <= j < i ==> #[trigger] coords_len@[j] == coords_at(sets, j),
        decreases hllsets.len() - i,
    {
        let ghost before = basis;
        let result = basis.insert(&hllsets[i]);
        proof {
            assert(sets[i as int] == hllsets@[i as int]@);
            boolring::basis_step(before, basis, result, sets[i as int]);
            boolring::residual_law(before.rows(), before.pivots@, sets[i as int]);
            assert(sets.take(i as int + 1).drop_last() =~= sets.take(i as int));
            assert(sets.take(i as int + 1).last() == sets[i as int]);
            assert(boolring::folded(sets.take(i as int + 1)) == (basis.rows(), basis.pivots@));
        }
        match result {
            InsertResult::InSpan { coords } => {
                novelty.push(0);
                coords_len.push(coords.len());
            },
            InsertResult::Added { residual, .. } => {
                novelty.push(residual.popcount());
                coords_len.push(0);
            },
        }
        dim.push(basis.dimension());
        i = i + 1;
    }
    NoveltyOut { novelty, dim, coords_len }
}

/// What is new of a member of a series is what is left of it once earlier members are
/// summed away: nothing exactly where it is a sum of earlier ones. Its coordinates then
/// are as many as the rows that make it up, and it brings no dimension; otherwise it
/// brings one.
pub proof fn novelty_law(sets: Seq<Set<u32>>, i: int)
    requires
        0 <= i < sets.len(),
        forall|j: int| 0 <= j < sets.len() ==> hllset::on_plane(#[trigger] sets[j]),
    ensures
        left_at(sets, i) == Set::<u32>::empty() <==> boolring::in_span(sets.take(i), sets[i]),
        boolring::in_span(sets.take(i), boolring::xor(sets[i], left_at(sets, i))),
        boolring::folded(sets.take(i + 1)).0.len() == boolring::folded(sets.take(i)).0.len() + (if boolring::in_span(
            sets.take(i),
            sets[i],
        ) {
            0int
        } else {
            1
        }),
        !boolring::in_span(sets.take(i), sets[i]) ==> coords_at(sets, i) == 0,
        boolring::in_span(sets.take(i), sets[i]) ==> coords_at(sets, i) == boolring::folded(sets.take(i)).1.filter(
            |p: u32| sets[i].contains(p),
        ).len(),
{
    let before = sets.take(i);
    assert forall|j: int| 0 <= j < before.len() implies hllset::on_plane(#[trigger] before[j]) by {
        assert(before[j] == sets[j]);
    }
    boolring::basis_law(before, sets[i]);
    assert(before.push(sets[i]) =~= sets.take(i + 1));
    let (rows, pivots) = boolring::folded(before);
    boolring::residual_law(rows, pivots, sets[i]);
    assert(boolring::in_span(rows, sets[i]) == boolring::in_span(before, sets[i]));
    assert(boolring::in_span(rows, boolring::xor(sets[i], left_at(sets, i))) == boolring::in_span(
        before,
        boolring::xor(sets[i], left_at(sets, i)),
    ));
    boolring::rows_bound(rows, pivots);
    assert(pivots.no_duplicates()) by {
        assert forall|a: int, b: int| 0 <= a < pivots.len() && 0 <= b < pivots.len() && a != b implies pivots[a] != pivots[b] by {
            assert(rows[a].contains(pivots[a]));
            assert(!rows[a].contains(pivots[b]));
        }
    }
    boolring::used_rows_law(pivots, sets[i], PLANE as nat);
    used_count(pivots, sets[i]);
}

/// As many rows are used as pivots are in the set.
proof fn used_count(pivots: Seq<u32>, s: Set<u32>)
    requires
        pivots.len() <= PLANE,
        pivots.no_duplicates(),
        forall|j: int| 0 <= j < pivots.len() ==> #[trigger] pivots[j] < PLANE,
    ensures
        boolring::used_rows(pivots, s, PLANE as nat).len() == pivots.filter(|p: u32| s.contains(p)).len(),
{
    boolring::used_rows_law(pivots, s, PLANE as nat);
    let used = boolring::used_rows(pivots, s, PLANE as nat);
    let f = |p: u32| s.contains(p);
    let kept = pivots.filter(f);
    let named = used.map_values(|j: usize| pivots[j as int]);
    search::filter_distinct(pivots, f);
    assert(named.no_duplicates()) by {
        assert forall|a: int, b: int| 0 <= a < named.len() && 0 <= b < named.len() && a != b implies named[a] != named[b] by {
            assert(used[a] != used[b]);
            assert(used[a] < pivots.len() && used[b] < pivots.len());
        }
    }
    assert forall|p: u32| named.to_set().contains(p) == kept.to_set().contains(p) by {
        search::filter_members(pivots, f, p);
        if named.contains(p) {
            let a = choose|a: int| 0 <= a < named.len() && named[a] == p;
            let j = used[a] as int;
            assert(used[a] < pivots.len());
            assert(used.contains(j as usize));
            assert(pivots[j] == p);
            assert(pivots.contains(p));
        }
        if kept.contains(p) {
            let j = choose|j: int| 0 <= j < pivots.len() && pivots[j] == p;
            assert(s.contains(pivots[j]) && pivots[j] < PLANE);
            assert(used.contains(j as usize));
            let a = choose|a: int| 0 <= a < used.len() && used[a] == j as usize;
            assert(named[a] == p);
        }
    }
    assert(named.to_set() =~= kept.to_set());
    named.unique_seq_to_set();
    kept.unique_seq_to_set();
}

} // verus!
