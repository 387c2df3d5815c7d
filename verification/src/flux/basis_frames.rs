//! Bases kept as frames of reference, and sets read in them.

use vstd::prelude::*;

use crate::boolring::BoolBasis;
use crate::boolring::BoolWindow;
use crate::hllset::HLLSet;
use crate::scene::share::Share;
use crate::boolring;
use crate::scene::share;

verus! {

/// A set read in a basis.
#[derive(Clone, Debug, PartialEq, Eq)]
pub struct Projection {
    /// How much of each row the set covers.
    pub soft: Vec<Share>,
    /// The bits of the set that no row holds.
    pub spill: u64,
    /// The coordinates, where the set lies in the span.
    pub hard: Option<Vec<bool>>,
}

impl Projection {
    /// Whether this is how a set reads in a basis.
    pub open spec fn reads(&self, set: Set<u32>, rows: Seq<Set<u32>>, pivots: Seq<u32>) -> bool {
        &&& self.soft@ == share::weights(set, rows)
        &&& self.spill == set.difference(share::cover(rows)).len()
        &&& self.hard is Some <==> boolring::in_span(rows, set)
        &&& self.hard is Some ==> self.hard->0@ == boolring::coords_of(pivots, set)
    }
}

/// A basis with the union of its rows.
#[derive(Clone, Debug, PartialEq, Eq)]
pub struct BasisSnapshot {
    pub generation: u64,
    pub basis: BoolBasis,
    pub cover: HLLSet,
}

impl BasisSnapshot {
    pub open spec fn wf(&self) -> bool {
        self.basis.wf() && self.cover@ == share::cover(self.basis.rows())
    }

    /// Whether the snapshot is that of a basis at a generation.
    pub open spec fn is_of(&self, generation: nat, rows: Seq<Set<u32>>, pivots: Seq<u32>) -> bool {
        &&& self.wf()
        &&& self.generation == generation
        &&& self.basis.rows() == rows
        &&& self.basis.pivots@ == pivots
    }

    pub fn new(generation: u64, basis: &BoolBasis) -> (s: BasisSnapshot)
        requires
            basis.wf(),
        ensures
            s.is_of(generation as nat, basis.rows(), basis.pivots@),
    {
        let cover = share::unite(basis.basis.as_slice());
        BasisSnapshot { generation, basis: basis.copy(), cover }
    }

    pub fn dimension(&self) -> (n: usize)
        ensures
            n == self.basis.rows().len(),
    {
        self.basis.dimension()
    }

    /// The bits of the rows.
    pub fn pops(&self) -> (n: Vec<u64>)
        ensures
            n@ == share::sizes(self.basis.rows()),
    {
        share::count_each(&self.basis.basis)
    }

    /// Reads a set in the basis.
    pub fn project(&self, set: &HLLSet) -> (p: Projection)
        requires
            self.wf(),
        ensures
            p.reads(set@, self.basis.rows(), self.basis.pivots@),
    {
        Projection {
            soft: share::weigh(set, &self.basis.basis),
            spill: set.difference(&self.cover).popcount(),
            hard: self.basis.coordinates(set),
        }
    }
}

/// The bases of a window over time, one for each change.
#[derive(Clone, Debug, PartialEq, Eq)]
pub struct BasisHistory {
    pub snapshots: Vec<BasisSnapshot>,
}

impl Default for BasisHistory {
    fn default() -> (h: BasisHistory)
        ensures
            h.snapshots@.len() == 0,
    {
        BasisHistory { snapshots: Vec::new() }
    }
}

impl BasisHistory {
    pub open spec fn wf(&self) -> bool {
        forall|i: int| 0 <= i < self.snapshots@.len() ==> (#[trigger] self.snapshots@[i]).wf()
    }

    pub fn new() -> (h: BasisHistory)
        ensures
            h.wf(),
            h.snapshots@.len() == 0,
    {
        BasisHistory { snapshots: Vec::new() }
    }

    /// Whether the last snapshot is of another generation, or there is none.
    pub open spec fn lacks_generation(&self, generation: nat) -> bool {
        self.snapshots@.len() == 0 || self.snapshots@.last().generation != generation
    }

    /// Records the basis of a window, where it changed since the last record.
    pub fn push_if_changed(&mut self, window: &BoolWindow)
        requires
            old(self).wf(),
            window.wf(),
        ensures
            final(self).wf(),
            !old(self).lacks_generation(window.changes()) ==> *final(self) == *old(self),
            old(self).lacks_generation(window.changes()) ==> {
                &&& final(self).snapshots@.len() == old(self).snapshots@.len() + 1
                &&& final(self).snapshots@.drop_last() == old(self).snapshots@
                &&& final(self).snapshots@.last().is_of(
                    window.changes(),
                    window.spec_basis().rows(),
                    window.spec_basis().pivots@,
                )
            },
    {
        let generation = window.generation();
        let n = self.snapshots.len();
        if n == 0 || self.snapshots[n - 1].generation != generation {
            let ghost before = self.snapshots@;
            self.snapshots.push(BasisSnapshot::new(generation, window.basis()));
            proof {
                assert(self.snapshots@.drop_last() =~= before);
            }
        }
    }

    /// The last recorded basis.
    pub fn last(&self) -> (s: Option<&BasisSnapshot>)
        ensures
            s is Some <==> self.snapshots@.len() > 0,
            s is Some ==> *s->0 == self.snapshots@.last(),
    {
        let n = self.snapshots.len();
        if n == 0 {
            None
        } else {
            Some(&self.snapshots[n - 1])
        }
    }

    /// The number of recorded bases.
    pub fn change_count(&self) -> (n: usize)
        ensures
            n == self.snapshots@.len(),
    {
        self.snapshots.len()
    }

    /// Reads a set in a recorded basis.
    pub fn project_into(&self, i: usize, set: &HLLSet) -> (p: Projection)
        requires
            self.wf(),
            i < self.snapshots@.len(),
        ensures
            p.reads(set@, self.snapshots@[i as int].basis.rows(), self.snapshots@[i as int].basis.pivots@),
    {
        self.snapshots[i].project(set)
    }
}

/// A set within the rows' union spills nothing; one outside spills all of itself.
pub proof fn spill_law(p: Projection, set: Set<u32>, rows: Seq<Set<u32>>, pivots: Seq<u32>)
    requires
        p.reads(set, rows, pivots),
        set.finite(),
    ensures
        p.spill == 0 <==> set.subset_of(share::cover(rows)),
        set.disjoint(share::cover(rows)) ==> p.spill == set.len(),
{
    let out = set.difference(share::cover(rows));
    if set.subset_of(share::cover(rows)) {
        assert(out =~= Set::empty());
    }
    if p.spill == 0 {
        assert(out =~= Set::empty());
        assert forall|b: u32| set.contains(b) implies share::cover(rows).contains(b) by {
            assert(!out.contains(b));
        }
    }
    if set.disjoint(share::cover(rows)) {
        assert(out =~= set);
    }
}

/// A set read through a basis: of each row the part that the set has, the bits that no
/// row has, and the coordinates of the set where it is a combination of the rows.
pub proof fn reading_law(p: Projection, set: Set<u32>, rows: Seq<Set<u32>>, pivots: Seq<u32>, j: int)
    requires
        p.reads(set, rows, pivots),
        0 <= j < rows.len(),
        rows[j].finite(),
        rows[j].len() <= u64::MAX,
    ensures
        p.soft@.len() == rows.len(),
        p.soft@[j].whole == rows[j].len(),
        p.soft@[j].part == rows[j].filter(|b: u32| set.contains(b)).len(),
        p.spill == set.filter(|b: u32| forall|i: int| 0 <= i < rows.len() ==> !(#[trigger] rows[i]).contains(b)).len(),
        p.hard is Some <==> boolring::in_span(rows, set),
{
    share::cover_law(rows);
    assert(set.difference(share::cover(rows)) =~= set.filter(
        |b: u32| forall|i: int| 0 <= i < rows.len() ==> !(#[trigger] rows[i]).contains(b),
    ));
    assert(set.intersect(rows[j]) =~= rows[j].filter(|b: u32| set.contains(b)));
    vstd::set_lib::lemma_len_subset(set.intersect(rows[j]), rows[j]);
}

} // verus!
