//! A series of steps against the ring of those before them, with every basis on
//! the way.

use vstd::prelude::*;

use crate::boolring::BoolWindow;
use crate::flux::basis_frames::BasisHistory;
use crate::hllset::HLLSet;
use crate::machine::state::RING_CAPACITY;
use crate::scene::share::Share;
use crate::boolring;
use crate::hllset;
use crate::scene::ring_series;
use crate::scene::share;

verus! {

/// What the ring says of one step.
#[derive(Clone, Copy, Debug, PartialEq, Eq, Structural)]
pub struct RingRecord {
    /// The bits of what the window leaves of the step.
    pub residual: u64,
    /// Whether the step is a sum of members of the window.
    pub in_span: bool,
    /// The dimension after the step entered.
    pub dimension: usize,
    /// The older rows that the step turned.
    pub rotation_count: u64,
    /// `rotation_count * residual`.
    pub rotation_mass: u64,
}

/// One step, measured before it enters the window.
#[derive(Clone, Debug, PartialEq, Eq)]
pub struct SidecarFrame {
    pub step: usize,
    /// The generation of the basis that the keys refer to.
    pub basis_generation: u64,
    /// Whether the step changed the basis.
    pub basis_change: bool,
    /// How much of each basis row the step covers.
    pub soft: Vec<Share>,
    /// The same of the step before, in the same basis; nothing for the first.
    pub from: Vec<Share>,
    /// The coordinates in the basis, where the step lies in its span.
    pub hard: Option<Vec<bool>>,
    /// The bits of the basis rows.
    pub basis_pop: Vec<u64>,
    pub ring: RingRecord,
}

/// A series of steps, the window after them, and the bases on the way.
#[derive(Clone, Debug, PartialEq, Eq)]
pub struct SidecarSeries {
    pub frames: Vec<SidecarFrame>,
    pub window: BoolWindow,
    pub history: BasisHistory,
}

/// The moments at which the basis was recorded: the first step, and each change.
pub open spec fn recordings(sets: Seq<Set<u32>>, k: int, cap: nat) -> Seq<int>
    decreases k,
{
    if k <= 0 {
        Seq::empty()
    } else {
        let earlier = recordings(sets, k - 1, cap);
        if k == 1 || ring_series::changes_at(sets, k, cap) != ring_series::changes_at(sets, k - 1, cap) {
            earlier.push(k)
        } else {
            earlier
        }
    }
}

impl SidecarFrame {
    /// Whether the frame measures a step of a series.
    pub open spec fn measures(&self, sets: Seq<Set<u32>>, i: int, cap: nat) -> bool {
        let rows = ring_series::rows_at(sets, i, cap);
        let pivots = ring_series::pivots_at(sets, i, cap);
        let set = sets[i];
        &&& self.step == i
        &&& self.basis_generation == ring_series::changes_at(sets, i, cap)
        &&& self.basis_change == (ring_series::changes_at(sets, i + 1, cap) != ring_series::changes_at(sets, i, cap))
        &&& self.soft@ == share::weights(set, rows)
        &&& self.from@ == (if i == 0 {
            Seq::empty()
        } else {
            share::weights(sets[i - 1], rows)
        })
        &&& self.hard is Some <==> boolring::in_span(rows, set)
        &&& self.hard is Some ==> self.hard->0@ == boolring::coords_of(pivots, set)
        &&& self.basis_pop@ == share::sizes(rows)
        &&& self.ring.residual == boolring::residual_of(rows, pivots, set).len()
        &&& self.ring.in_span == boolring::in_span(rows, set)
        &&& self.ring.dimension == ring_series::rows_at(sets, i + 1, cap).len()
        &&& self.ring.rotation_count == ring_series::turned(rows, pivots, set)
        &&& self.ring.rotation_mass == self.ring.rotation_count * self.ring.residual
    }
}

impl SidecarFrame {
    /// Copies the frame.
    pub fn copy(&self) -> (f: SidecarFrame)
        ensures
            forall|sets: Seq<Set<u32>>, i: int, cap: nat|
                #[trigger] self.measures(sets, i, cap) ==> f.measures(sets, i, cap),
    {
        SidecarFrame {
            step: self.step,
            basis_generation: self.basis_generation,
            basis_change: self.basis_change,
            soft: vstd::slice::slice_to_vec(self.soft.as_slice()),
            from: vstd::slice::slice_to_vec(self.from.as_slice()),
            hard: match &self.hard {
                Some(h) => Some(vstd::slice::slice_to_vec(h.as_slice())),
                None => None,
            },
            basis_pop: vstd::slice::slice_to_vec(self.basis_pop.as_slice()),
            ring: self.ring,
        }
    }
}

/// Whether a history holds the recorded bases of a series.
pub open spec fn history_of(history: BasisHistory, sets: Seq<Set<u32>>, k: int, cap: nat) -> bool {
    let at = recordings(sets, k, cap);
    &&& history.wf()
    &&& history.snapshots@.len() == at.len()
    &&& forall|j: int|
        0 <= j < at.len() ==> (#[trigger] history.snapshots@[j]).is_of(
            ring_series::changes_at(sets, at[j], cap),
            ring_series::rows_at(sets, at[j], cap),
            ring_series::pivots_at(sets, at[j], cap),
        )
}

impl SidecarSeries {
    /// Whether this is the series of steps.
    pub open spec fn follows(&self, sets: Seq<Set<u32>>) -> bool {
        let cap = RING_CAPACITY as nat;
        let n = sets.len() as int;
        &&& self.frames@.len() == n
        &&& forall|i: int| 0 <= i < n ==> (#[trigger] self.frames@[i]).measures(sets, i, cap)
        &&& self.window.wf()
        &&& self.window.capacity() == cap
        &&& self.window.window() == ring_series::window_at(sets, n, cap)
        &&& self.window.changes() == ring_series::changes_at(sets, n, cap)
        &&& history_of(self.history, sets, n, cap)
        &&& n > 0 ==> self.history.snapshots@.len() > 0 && self.history.snapshots@.last().is_of(
            ring_series::changes_at(sets, n, cap),
            ring_series::rows_at(sets, n, cap),
            ring_series::pivots_at(sets, n, cap),
        )
    }
}

/// Measures each step against the ring of those before it.
pub fn sidecar_series(hllsets: &[HLLSet]) -> (frames: Vec<SidecarFrame>)
    requires
        2 * hllsets@.len() + 2 <= u64::MAX,
    ensures
        frames@.len() == hllsets@.len(),
        forall|i: int|
            0 <= i < frames@.len() ==> (#[trigger] frames@[i]).measures(
                boolring::set_views(hllsets@),
                i,
                RING_CAPACITY as nat,
            ),
{
    sidecar_series_with_window(hllsets).frames
}

/// Measures each step against the ring of those before it, and keeps the window
/// and the bases.
pub fn sidecar_series_with_window(hllsets: &[HLLSet]) -> (out: SidecarSeries)
    requires
        2 * hllsets@.len() + 2 <= u64::MAX,
    ensures
        out.follows(boolring::set_views(hllsets@)),
{
    let ghost sets = boolring::set_views(hllsets@);
    let ghost cap = RING_CAPACITY as nat;
    let mut window = BoolWindow::new(RING_CAPACITY);
    let mut history = BasisHistory::new();
    let mut frames: Vec<SidecarFrame> = Vec::new();
    let mut i: usize = 0;
    proof {
        assert(window.window() =~= ring_series::window_at(sets, 0, cap));
    }
    while i < hllsets.len()
        invariant
            i <= hllsets@.len(),
            2 * hllsets@.len() + 2 <= u64::MAX,
            sets == boolring::set_views(hllsets@),
            cap == RING_CAPACITY,
            window.wf(),
            window.capacity() == cap,
            window.window() == ring_series::window_at(sets, i as int, cap),
            window.changes() == ring_series::changes_at(sets, i as int, cap),
            history_of(history, sets, i as int, cap),
            i > 0 ==> history.snapshots@.len() > 0 && history.snapshots@.last().is_of(
                ring_series::changes_at(sets, i as int, cap),
                ring_series::rows_at(sets, i as int, cap),
                ring_series::pivots_at(sets, i as int, cap),
            ),
            frames@.len() == i,
            forall|j: int| 0 <= j < i ==> (#[trigger] frames@[j]).measures(sets, j, cap),
        decreases hllsets.len() - i,
    {
        let set = &hllsets[i];
        let ghost rows = ring_series::rows_at(sets, i as int, cap);
        let ghost pivots = ring_series::pivots_at(sets, i as int, cap);
        let basis = window.basis();
        let basis_pop = share::count_each(&basis.basis);
        let hard = basis.coordinates(set);
        let basis_generation = window.generation();
        let soft = share::weigh(set, &basis.basis);
        let from = if i == 0 {
            Vec::new()
        } else {
            share::weigh(&hllsets[i - 1], &basis.basis)
        };
        proof {
            ring_series::changes_bound(sets, i as int, cap);
        }
        let stats = window.push(set);
        proof {
            ring_series::window_slides(sets, i as int, cap);
            assert(stats.rotation_count == ring_series::turned(rows, pivots, set@));
        }
        let basis_change = window.generation() != basis_generation;
        let ghost earlier = history;
        history.push_if_changed(&window);
        proof {
            let at = recordings(sets, i as int, cap);
            let next = recordings(sets, i + 1, cap);
            assert(window.changes() == ring_series::changes_at(sets, i + 1, cap));
            if earlier.lacks_generation(window.changes()) {
                assert(next == at.push(i + 1));
                assert forall|j: int| 0 <= j < next.len() implies (#[trigger] history.snapshots@[j]).is_of(
                    ring_series::changes_at(sets, next[j], cap),
                    ring_series::rows_at(sets, next[j], cap),
                    ring_series::pivots_at(sets, next[j], cap),
                ) by {
                    if j < at.len() {
                        assert(history.snapshots@.drop_last()[j] == earlier.snapshots@[j]);
                        assert(next[j] == at[j]);
                    }
                }
            } else {
                assert(next == at);
            }
        }
        let frame = SidecarFrame {
            step: i,
            basis_generation,
            basis_change,
            soft,
            from,
            hard,
            basis_pop,
            ring: RingRecord {
                residual: stats.residual,
                in_span: stats.in_span,
                dimension: stats.dimension,
                rotation_count: stats.rotation_count,
                rotation_mass: stats.rotation_mass,
            },
        };
        proof {
            assert(frame.measures(sets, i as int, cap));
        }
        frames.push(frame);
        i = i + 1;
    }
    SidecarSeries { frames, window, history }
}

/// A basis is recorded after the first step and after each step with which it changed,
/// in order, and after no other.
pub proof fn recordings_law(sets: Seq<Set<u32>>, k: int, cap: nat)
    requires
        0 <= k,
    ensures
        forall|j: int| #[trigger]
            recordings(sets, k, cap).contains(j) <==> 1 <= j <= k && (j == 1 || ring_series::changes_at(sets, j, cap)
                != ring_series::changes_at(sets, j - 1, cap)),
        forall|a: int, b: int|
            0 <= a < b < recordings(sets, k, cap).len() ==> #[trigger] recordings(sets, k, cap)[a] < #[trigger] recordings(
                sets,
                k,
                cap,
            )[b],
    decreases k,
{
    if k > 0 {
        recordings_law(sets, k - 1, cap);
        let earlier = recordings(sets, k - 1, cap);
        let all = recordings(sets, k, cap);
        assert forall|j: int| #[trigger] all.contains(j) <==> 1 <= j <= k && (j == 1 || ring_series::changes_at(sets, j, cap)
            != ring_series::changes_at(sets, j - 1, cap)) by {
            crate::search::pushed_members(earlier, k, j);
        }
        assert forall|a: int, b: int| 0 <= a < b < all.len() implies #[trigger] all[a] < #[trigger] all[b] by {
            assert(earlier.contains(earlier[a]));
            if b < earlier.len() {
                assert(earlier[a] < earlier[b]);
            }
        }
    }
}

/// What a step is measured at, against the window before it: how much of each row it
/// covers, counted in the row's bits; whether it is a sum of steps in the window, and
/// then which rows make it up; and what is left of it otherwise.
pub proof fn step_measure_law(f: SidecarFrame, sets: Seq<Set<u32>>, i: int, cap: nat, j: int)
    requires
        f.measures(sets, i, cap),
        0 <= i < sets.len(),
        cap >= 1,
        forall|k: int| 0 <= k < sets.len() ==> hllset::on_plane(#[trigger] sets[k]),
        0 <= j < ring_series::rows_at(sets, i, cap).len(),
    ensures
        ({
            let window = ring_series::window_at(sets, i, cap);
            let rows = boolring::folded(window).0;
            &&& f.step == i
            &&& f.soft@.len() == rows.len() && f.basis_pop@.len() == rows.len()
            &&& f.soft@[j].whole == rows[j].len() && f.basis_pop@[j] == rows[j].len()
            &&& f.soft@[j].part == rows[j].filter(|b: u32| sets[i].contains(b)).len()
            &&& i > 0 ==> f.from@.len() == rows.len() && f.from@[j].part == rows[j].filter(|b: u32| sets[i - 1].contains(b)).len()
            &&& f.ring.in_span == boolring::in_span(window, sets[i])
            &&& f.hard is Some <==> f.ring.in_span
            &&& f.hard matches Some(c) ==> c@.len() == rows.len() && boolring::combination(rows, c@) == sets[i]
            &&& f.ring.residual == 0 <==> f.ring.in_span
            &&& f.basis_change <==> !f.ring.in_span || window.len() == cap
        }),
{
    let window = ring_series::window_at(sets, i, cap);
    ring_series::window_law(sets, i, cap);
    ring_series::changes_law(sets, i, cap);
    assert forall|a: int| 0 <= a < window.len() implies hllset::on_plane(#[trigger] window[a]) by {
        let from: int = if i > cap {
            i - cap
        } else {
            0
        };
        assert(window[a] == sets[from + a]);
    }
    boolring::basis_law(window, sets[i]);
    let (rows, pivots) = boolring::folded(window);
    boolring::residual_law(rows, pivots, sets[i]);
    assert(boolring::in_span(rows, sets[i]) == boolring::in_span(window, sets[i]));
    let r = rows[j];
    hllset::bit_list_facts(r);
    assert(sets[i].intersect(r) =~= r.filter(|b: u32| sets[i].contains(b)));
    vstd::set_lib::lemma_len_subset(r.filter(|b: u32| sets[i].contains(b)), r);
    assert(f.soft@[j] == share::covered(sets[i], r));
    assert(f.basis_pop@[j] == r.len() as u64);
    if i > 0 {
        assert(sets[i - 1].intersect(r) =~= r.filter(|b: u32| sets[i - 1].contains(b)));
        vstd::set_lib::lemma_len_subset(r.filter(|b: u32| sets[i - 1].contains(b)), r);
        assert(f.from@[j] == share::covered(sets[i - 1], r));
    }
    let left = boolring::residual_of(rows, pivots, sets[i]);
    boolring::residual_on_plane(rows, pivots, sets[i]);
    hllset::bit_list_facts(left);
    if f.ring.residual == 0 {
        assert(left.len() == 0);
        assert(left =~= Set::empty());
    }
}

/// A step counts the rows behind it and what it turns of the rows before it, and says
/// under which basis it was read.
pub proof fn step_rotation_law(f: SidecarFrame, sets: Seq<Set<u32>>, i: int, cap: nat)
    requires
        f.measures(sets, i, cap),
        0 <= i < sets.len(),
    ensures
        f.ring.dimension == boolring::folded(ring_series::window_at(sets, i + 1, cap)).0.len(),
        f.ring.rotation_mass == f.ring.rotation_count * f.ring.residual,
        f.ring.in_span ==> f.ring.rotation_count == 0,
        ({
            let basis = boolring::folded(ring_series::window_at(sets, i, cap));
            f.ring.rotation_count == ring_series::turned(basis.0, basis.1, sets[i])
        }),
        f.basis_generation == ring_series::changes_at(sets, i, cap),
{
}

/// A history holds, oldest first, the bases behind the steps at which they were recorded.
pub proof fn history_law(h: BasisHistory, sets: Seq<Set<u32>>, k: int, cap: nat, j: int)
    requires
        history_of(h, sets, k, cap),
        0 <= j < recordings(sets, k, cap).len(),
    ensures
        h.snapshots@.len() == recordings(sets, k, cap).len(),
        h.snapshots@[j].generation == ring_series::changes_at(sets, recordings(sets, k, cap)[j], cap),
        h.snapshots@[j].basis.rows() == boolring::folded(ring_series::window_at(sets, recordings(sets, k, cap)[j], cap)).0,
{
    let at = recordings(sets, k, cap);
    assert(h.snapshots@[j].is_of(
        ring_series::changes_at(sets, at[j], cap),
        ring_series::rows_at(sets, at[j], cap),
        ring_series::pivots_at(sets, at[j], cap),
    ));
}

} // verus!
