//! What each step of a series takes, keeps and brings.

use vstd::prelude::*;

use crate::hllset::HLLSet;
use crate::boolring;
use crate::hllset;
use crate::scene::share;

verus! {

/// The bits that a step takes, keeps and brings.
#[derive(Clone, Copy, Debug, PartialEq, Eq, Structural)]
pub struct DrnRecord {
    pub d: u64,
    pub r: u64,
    pub n: u64,
}

impl Default for DrnRecord {
    fn default() -> (r: DrnRecord)
        ensures
            r.d == 0 && r.r == 0 && r.n == 0,
    {
        DrnRecord { d: 0, r: 0, n: 0 }
    }
}

/// What one step of a series takes, keeps and brings; before the first there was
/// nothing.
pub open spec fn drn_at(sets: Seq<Set<u32>>, i: int) -> DrnRecord {
    let before = if i > 0 {
        sets[i - 1]
    } else {
        Set::empty()
    };
    DrnRecord {
        d: before.difference(sets[i]).len() as u64,
        r: before.intersect(sets[i]).len() as u64,
        n: sets[i].difference(before).len() as u64,
    }
}

/// What each step of a series takes, keeps and brings.
pub fn drn_series(hllsets: &[HLLSet]) -> (out: Vec<DrnRecord>)
    ensures
        out@ == Seq::new(hllsets@.len(), |i: int| drn_at(boolring::set_views(hllsets@), i)),
{
    let ghost sets = boolring::set_views(hllsets@);
    let mut out: Vec<DrnRecord> = Vec::new();
    let mut i: usize = 0;
    while i < hllsets.len()
        invariant
            i <= hllsets@.len(),
            sets == boolring::set_views(hllsets@),
            out@.len() == i,
            forall|j: int| 0 <= j < i ==> #[trigger] out@[j] == drn_at(sets, j),
        decreases hllsets.len() - i,
    {
        if i == 0 {
            proof {
                let none = Set::<u32>::empty();
                assert(none.difference(sets[0]) =~= none);
                assert(none.intersect(sets[0]) =~= none);
                assert(sets[0].difference(none) =~= sets[0]);
            }
            out.push(DrnRecord { d: 0, r: 0, n: hllsets[0].popcount() });
        } else {
            let before = &hllsets[i - 1];
            let set = &hllsets[i];
            out.push(
                DrnRecord {
                    d: before.difference(set).popcount(),
                    r: before.intersection(set).popcount(),
                    n: set.difference(before).popcount(),
                },
            );
        }
        i = i + 1;
    }
    proof {
        assert(out@ =~= Seq::new(hllsets@.len(), |i: int| drn_at(sets, i)));
    }
    out
}

/// What a step keeps and brings makes it up; what it takes and keeps makes up the
/// step before.
pub proof fn drn_law(sets: Seq<Set<u32>>, i: int)
    requires
        0 <= i < sets.len(),
        hllset::on_plane(sets[i]),
        i > 0 ==> hllset::on_plane(sets[i - 1]),
    ensures
        drn_at(sets, i).r + drn_at(sets, i).n == sets[i].len(),
        drn_at(sets, i).d + drn_at(sets, i).r == (if i > 0 {
            sets[i - 1].len()
        } else {
            0
        }),
{
    let before = if i > 0 {
        sets[i - 1]
    } else {
        Set::empty()
    };
    hllset::bit_list_facts(sets[i]);
    hllset::bit_list_facts(before);
    share::transition_law(before, sets[i]);
    vstd::set_lib::lemma_len_intersect(before, sets[i]);
}

/// A transition, bit by bit: departed is what only the earlier member has, retained what
/// both have, new what only the later has; before the first member there is nothing.
pub proof fn drn_bits(sets: Seq<Set<u32>>, i: int)
    requires
        0 <= i < sets.len(),
        hllset::on_plane(sets[i]),
        i > 0 ==> hllset::on_plane(sets[i - 1]),
    ensures
        i > 0 ==> drn_at(sets, i).d == sets[i - 1].filter(|b: u32| !sets[i].contains(b)).len(),
        i > 0 ==> drn_at(sets, i).r == sets[i - 1].filter(|b: u32| sets[i].contains(b)).len(),
        i > 0 ==> drn_at(sets, i).n == sets[i].filter(|b: u32| !sets[i - 1].contains(b)).len(),
        i == 0 ==> drn_at(sets, i).d == 0 && drn_at(sets, i).r == 0 && drn_at(sets, i).n == sets[0].len(),
{
    drn_law(sets, i);
    hllset::bit_list_facts(sets[i]);
    if i > 0 {
        let a = sets[i - 1];
        let b = sets[i];
        hllset::bit_list_facts(a);
        assert(a.difference(b) =~= a.filter(|x: u32| !b.contains(x)));
        assert(a.intersect(b) =~= a.filter(|x: u32| b.contains(x)));
        assert(b.difference(a) =~= b.filter(|x: u32| !a.contains(x)));
        vstd::set_lib::lemma_len_subset(a.difference(b), a);
        vstd::set_lib::lemma_len_subset(a.intersect(b), a);
        vstd::set_lib::lemma_len_subset(b.difference(a), b);
    } else {
        let none = Set::<u32>::empty();
        assert(none.difference(sets[0]) =~= none);
        assert(none.intersect(sets[0]) =~= none);
        assert(sets[0].difference(none) =~= sets[0]);
    }
}

} // verus!
