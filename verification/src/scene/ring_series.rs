//! A series of sets against the ring of those before them.

use vstd::prelude::*;

use crate::boolring::BoolBasis;
use crate::boolring::BoolWindow;
use crate::hashing::PLANE;
use crate::hllset::HLLSet;
use crate::scene::frames::FrameSet;
use crate::scene::share::Share;
use crate::boolring;
use crate::hllset;
use crate::scene::share;

verus! {

/// One member of a series, measured before it enters the window.
#[derive(Clone, Debug, PartialEq, Eq)]
pub struct SidecarFrame {
    /// How much of each basis row the member covers.
    pub soft: Vec<Share>,
    /// The same of the member before, in the same basis; nothing for the first.
    pub from: Vec<Share>,
    /// The coordinates in the basis, where the member lies in its span.
    pub hard: Option<Vec<bool>>,
    /// The bits of the basis rows.
    pub basis_pop: Vec<u64>,
    /// The bits of what the basis leaves of the member.
    pub residual: u64,
    pub in_span: bool,
    /// The dimension after the member entered.
    pub dim: usize,
    pub rotation_count: u64,
    pub rotation_mass: u64,
    /// How much of each row of the first basis the member covers.
    pub soft_first: Vec<Share>,
    /// The bits of the member outside the first basis.
    pub spill_first: u64,
}

/// A basis in numbers.
#[derive(Clone, Copy, Debug, PartialEq, Eq, Structural)]
pub struct BasisFrame {
    pub generation: u64,
    pub dimension: usize,
    /// The bits of all rows together.
    pub cover_pop: u64,
}

/// A series against its ring.
#[derive(Clone, Debug, PartialEq, Eq)]
pub struct SidecarOut {
    pub frames: Vec<SidecarFrame>,
    /// The bases, one for each change.
    pub basis_history: Vec<BasisFrame>,
}

/// How many members of the series are in the ring before one of them.
pub open spec fn entered(i: int, freeze: Option<usize>) -> int {
    match freeze {
        Some(n) => {
            let f: int = if n > 1 {
                n as int
            } else {
                1
            };
            if i < f {
                i
            } else {
                f
            }
        },
        None => i,
    }
}

/// The window after the first members of a series.
pub open spec fn window_at(sets: Seq<Set<u32>>, k: int, cap: nat) -> Seq<Set<u32>> {
    sets.subrange(
        if k > cap {
            k - cap
        } else {
            0
        },
        k,
    )
}

/// The rows of the basis after the first members of a series.
pub open spec fn rows_at(sets: Seq<Set<u32>>, k: int, cap: nat) -> Seq<Set<u32>> {
    boolring::folded(window_at(sets, k, cap)).0
}

/// The pivots of that basis.
pub open spec fn pivots_at(sets: Seq<Set<u32>>, k: int, cap: nat) -> Seq<u32> {
    boolring::folded(window_at(sets, k, cap)).1
}

/// How often the basis changed over the first members of a series.
pub open spec fn changes_at(sets: Seq<Set<u32>>, k: int, cap: nat) -> nat
    decreases k,
{
    if k <= 0 {
        0
    } else {
        let window = window_at(sets, k - 1, cap);
        changes_at(sets, k - 1, cap) + (if boolring::in_span(window, sets[k - 1]) {
            0nat
        } else {
            1
        }) + (if window.len() == cap {
            1nat
        } else {
            0
        })
    }
}

/// The bits of all rows together.
pub open spec fn total(rows: Seq<Set<u32>>) -> nat
    decreases rows.len(),
{
    if rows.len() == 0 {
        0
    } else {
        total(rows.drop_last()) + rows.last().len()
    }
}

/// The basis after the first members of a series, in numbers.
pub open spec fn basis_frame_at(sets: Seq<Set<u32>>, k: int, cap: nat) -> BasisFrame {
    BasisFrame {
        generation: changes_at(sets, k, cap) as u64,
        dimension: rows_at(sets, k, cap).len() as usize,
        cover_pop: total(rows_at(sets, k, cap)) as u64,
    }
}

/// The bases over the first members of a series: the first, and one for each
/// change.
pub open spec fn bases_at(sets: Seq<Set<u32>>, k: int, cap: nat) -> Seq<BasisFrame>
    decreases k,
{
    if k <= 0 {
        Seq::empty()
    } else {
        let earlier = bases_at(sets, k - 1, cap);
        if k == 1 || changes_at(sets, k, cap) != changes_at(sets, k - 1, cap) {
            earlier.push(basis_frame_at(sets, k, cap))
        } else {
            earlier
        }
    }
}

/// How many rows of a basis hold the pivot that a set brings; none where it lies
/// in the span.
pub open spec fn turned(rows: Seq<Set<u32>>, pivots: Seq<u32>, set: Set<u32>) -> nat {
    if boolring::in_span(rows, set) {
        0
    } else {
        boolring::holders(rows, boolring::lowest_of(boolring::residual_of(rows, pivots, set)), rows.len())
    }
}

impl SidecarFrame {
    /// Whether the frame measures a member of a series.
    pub open spec fn measures(&self, sets: Seq<Set<u32>>, i: int, cap: nat, freeze: Option<usize>) -> bool {
        let k = entered(i, freeze);
        let next = entered(i + 1, freeze);
        let rows = rows_at(sets, k, cap);
        let pivots = pivots_at(sets, k, cap);
        let set = sets[i];
        &&& self.soft@ == share::weights(set, rows)
        &&& self.from@ == (if i == 0 {
            Seq::empty()
        } else {
            share::weights(sets[i - 1], rows)
        })
        &&& self.hard is Some <==> boolring::in_span(rows, set)
        &&& self.hard is Some ==> self.hard->0@ == boolring::coords_of(pivots, set)
        &&& self.basis_pop@ == share::sizes(rows)
        &&& self.residual == boolring::residual_of(rows, pivots, set).len()
        &&& self.in_span == boolring::in_span(rows, set)
        &&& self.dim == rows_at(sets, next, cap).len()
        &&& self.rotation_count == (if next > k {
            turned(rows, pivots, set)
        } else {
            0
        })
        &&& self.rotation_mass == self.rotation_count * self.residual
        &&& self.soft_first@ == share::weights(set, rows_at(sets, 1, cap))
        &&& self.spill_first == set.difference(share::cover(rows_at(sets, 1, cap))).len()
    }
}

impl SidecarOut {
    /// Whether the frames measure a series, and the bases are those of its ring.
    pub open spec fn follows(&self, sets: Seq<Set<u32>>, cap: nat, freeze: Option<usize>) -> bool {
        &&& self.frames@.len() == sets.len()
        &&& forall|i: int| 0 <= i < sets.len() ==> (#[trigger] self.frames@[i]).measures(sets, i, cap, freeze)
        &&& self.basis_history@ == bases_at(sets, entered(sets.len() as int, freeze), cap)
    }
}

/// The window slides along the series.
pub proof fn window_slides(sets: Seq<Set<u32>>, k: int, cap: nat)
    requires
        0 <= k < sets.len(),
        cap >= 1,
    ensures
        boolring::slid(window_at(sets, k, cap), sets[k], cap) == window_at(sets, k + 1, cap),
{
    assert(boolring::slid(window_at(sets, k, cap), sets[k], cap) =~= window_at(sets, k + 1, cap));
}

/// The basis changes at most twice with each member.
pub proof fn changes_bound(sets: Seq<Set<u32>>, k: int, cap: nat)
    requires
        0 <= k,
    ensures
        changes_at(sets, k, cap) <= 2 * k,
    decreases k,
{
    if k > 0 {
        changes_bound(sets, k - 1, cap);
    }
}

/// The bits of all rows together.
pub fn total_bits(rows: &Vec<HLLSet>) -> (n: u64)
    requires
        rows@.len() <= PLANE,
    ensures
        n == total(boolring::set_views(rows@)),
{
    let ghost all = boolring::set_views(rows@);
    let mut n: u64 = 0;
    let mut i: usize = 0;
    while i < rows.len()
        invariant
            i <= rows@.len(),
            rows@.len() <= PLANE,
            all == boolring::set_views(rows@),
            n == total(all.take(i as int)),
            n <= i * PLANE,
        decreases rows.len() - i,
    {
        proof {
            rows@[i as int].members();
            assert(all.take(i as int + 1).drop_last() =~= all.take(i as int));
            assert(all.take(i as int + 1).last() == rows@[i as int]@);
            assert(i * PLANE + PLANE == (i + 1) * PLANE) by (nonlinear_arith);
            assert(i * PLANE <= PLANE * PLANE) by (nonlinear_arith)
                requires
                    i <= PLANE,
            ;
        }
        n = n + rows[i].popcount();
        i = i + 1;
    }
    proof {
        assert(all.take(i as int) =~= all);
    }
    n
}

/// Measures each member of a series against the ring of those before it, at most
/// `cap` of them; past the freeze no more members enter the ring.
pub fn sidecar_series(hllsets: &[HLLSet], cap: usize, freeze: Option<usize>) -> (out: SidecarOut)
    requires
        2 * hllsets@.len() + 2 <= u64::MAX,
    ensures
        out.follows(
            boolring::set_views(hllsets@),
            if cap > 1 {
                cap as nat
            } else {
                1
            },
            freeze,
        ),
{
    let cap: usize = if cap > 1 {
        cap
    } else {
        1
    };
    let ghost room = cap as nat;
    let ghost sets = boolring::set_views(hllsets@);
    let mut window = BoolWindow::new(cap);
    let mut first = BoolBasis::new();
    let mut first_cover = HLLSet::new();
    let mut frames: Vec<SidecarFrame> = Vec::new();
    let mut basis_history: Vec<BasisFrame> = Vec::new();
    let mut i: usize = 0;
    let ghost mut k: int = 0;
    proof {
        assert(window.window() =~= window_at(sets, 0, room));
    }
    while i < hllsets.len()
        invariant
            i <= hllsets@.len(),
            2 * hllsets@.len() + 2 <= u64::MAX,
            sets == boolring::set_views(hllsets@),
            room == cap >= 1,
            k == entered(i as int, freeze),
            0 <= k <= i,
            window.wf(),
            window.capacity() == room,
            window.window() == window_at(sets, k, room),
            window.changes() == changes_at(sets, k, room),
            basis_history@ == bases_at(sets, k, room),
            k > 0 ==> basis_history@.len() > 0,
            i > 0 ==> first.rows() == rows_at(sets, 1, room),
            i > 0 ==> first_cover@ == share::cover(rows_at(sets, 1, room)),
            frames@.len() == i,
            forall|j: int| 0 <= j < i ==> (#[trigger] frames@[j]).measures(sets, j, room, freeze),
        decreases hllsets.len() - i,
    {
        let set = &hllsets[i];
        let frozen = match freeze {
            Some(n) => i >= n && i >= 1,
            None => false,
        };
        let ghost rows = rows_at(sets, k, room);
        let ghost pivots = pivots_at(sets, k, room);
        let basis = window.basis();
        let soft = share::weigh(set, &basis.basis);
        let from = if i == 0 {
            Vec::new()
        } else {
            share::weigh(&hllsets[i - 1], &basis.basis)
        };
        let basis_pop = share::count_each(&basis.basis);
        let hard = basis.coordinates(set);
        let left = basis.residual(set);
        let residual = left.popcount();
        let in_span = left.is_empty();
        let mut rotation_count: u64 = 0;
        let mut rotation_mass: u64 = 0;
        proof {
            left.members();
            changes_bound(sets, k, room);
            assert(frozen == (entered(i + 1, freeze) == k));
        }
        if !frozen {
            let before = window.generation();
            let stats = window.push(set);
            proof {
                window_slides(sets, k, room);
                assert(stats.rotation_count == turned(rows, pivots, set@));
                boolring::rows_bound(window.spec_basis().rows(), window.spec_basis().pivots@);
            }
            rotation_count = stats.rotation_count;
            rotation_mass = stats.rotation_mass;
            let generation = window.generation();
            if basis_history.len() == 0 || generation != before {
                basis_history.push(
                    BasisFrame {
                        generation,
                        dimension: window.dimension(),
                        cover_pop: total_bits(&window.basis().basis),
                    },
                );
            }
            proof {
                k = k + 1;
            }
            if i == 0 {
                first = window.basis().copy();
                first_cover = share::unite(first.basis.as_slice());
            }
        }
        let dim = window.dimension();
        let soft_first = share::weigh(set, &first.basis);
        let spill_first = set.difference(&first_cover).popcount();
        let frame = SidecarFrame {
            soft,
            from,
            hard,
            basis_pop,
            residual,
            in_span,
            dim,
            rotation_count,
            rotation_mass,
            soft_first,
            spill_first,
        };
        proof {
            assert(k == entered(i + 1, freeze));
            assert(frame.measures(sets, i as int, room, freeze));
        }
        frames.push(frame);
        i = i + 1;
    }
    SidecarOut { frames, basis_history }
}

impl FrameSet {
    /// The frames against the ring of the machine's size.
    pub fn sidecar(&self) -> (out: SidecarOut)
        requires
            self.wf(),
            2 * self.frames@.len() + 2 <= u64::MAX,
        ensures
            out.follows(self.sets(), crate::machine::state::RING_CAPACITY as nat, None),
    {
        self.sidecar_with_cap(crate::machine::state::RING_CAPACITY)
    }

    /// The frames against a ring of a given size.
    pub fn sidecar_with_cap(&self, cap: usize) -> (out: SidecarOut)
        requires
            self.wf(),
            2 * self.frames@.len() + 2 <= u64::MAX,
        ensures
            out.follows(
                self.sets(),
                if cap > 1 {
                    cap as nat
                } else {
                    1
                },
                None,
            ),
    {
        self.sidecar_with_cap_freeze(cap, None)
    }

    /// The frames against a ring of a given size that takes no more members past
    /// the freeze.
    pub fn sidecar_with_cap_freeze(&self, cap: usize, freeze: Option<usize>) -> (out: SidecarOut)
        requires
            self.wf(),
            2 * self.frames@.len() + 2 <= u64::MAX,
        ensures
            out.follows(
                self.sets(),
                if cap > 1 {
                    cap as nat
                } else {
                    1
                },
                freeze,
            ),
    {
        sidecar_series(self.hllsets.as_slice(), cap, freeze)
    }
}

/// What the ring has taken in before a member: all earlier ones, or as many as it is
/// frozen at, but no fewer than one.
pub proof fn entered_law(i: int, n: usize)
    requires
        0 <= i,
    ensures
        entered(i, None) == i,
        entered(i, Some(n)) <= i,
        i <= n ==> entered(i, Some(n)) == i,
        1 <= n <= i ==> entered(i, Some(n)) == n,
        n == 0 && i >= 1 ==> entered(i, Some(n)) == 1,
{
}

/// The window before a member holds the members just before it, in order, as many as it
/// has room for.
pub proof fn window_law(sets: Seq<Set<u32>>, k: int, cap: nat)
    requires
        0 <= k <= sets.len(),
    ensures
        window_at(sets, k, cap).len() == (if k > cap {
            cap as int
        } else {
            k
        }),
        forall|i: int|
            1 <= i <= window_at(sets, k, cap).len() ==> #[trigger] window_at(sets, k, cap)[window_at(sets, k, cap).len() - i]
                == sets[k - i],
{
}

/// How the basis changes with a member: once where the member is no sum of those in the
/// window, and once more where the window was full; it starts unchanged.
pub proof fn changes_law(sets: Seq<Set<u32>>, k: int, cap: nat)
    requires
        0 <= k < sets.len(),
    ensures
        changes_at(sets, 0, cap) == 0,
        ({
            let window = window_at(sets, k, cap);
            let more = changes_at(sets, k + 1, cap) - changes_at(sets, k, cap);
            &&& boolring::in_span(window, sets[k]) && window.len() < cap ==> more == 0
            &&& !boolring::in_span(window, sets[k]) && window.len() < cap ==> more == 1
            &&& boolring::in_span(window, sets[k]) && window.len() == cap ==> more == 1
            &&& !boolring::in_span(window, sets[k]) && window.len() == cap ==> more == 2
        }),
{
}

/// The bases that are kept: one after the first member and one after each member with
/// which the basis changed, in order, each with the basis as it then was.
pub proof fn bases_law(sets: Seq<Set<u32>>, k: int, cap: nat)
    requires
        0 <= k,
    ensures
        bases_at(sets, 0, cap) == Seq::<BasisFrame>::empty(),
        k == 0 || changes_at(sets, k + 1, cap) != changes_at(sets, k, cap) ==> bases_at(sets, k + 1, cap) == bases_at(
            sets,
            k,
            cap,
        ).push(
            BasisFrame {
                generation: changes_at(sets, k + 1, cap) as u64,
                dimension: boolring::folded(window_at(sets, k + 1, cap)).0.len() as usize,
                cover_pop: total(boolring::folded(window_at(sets, k + 1, cap)).0) as u64,
            },
        ),
        k > 0 && changes_at(sets, k + 1, cap) == changes_at(sets, k, cap) ==> bases_at(sets, k + 1, cap) == bases_at(sets, k, cap),
{
}

/// The bits of all rows together: each row counts all of its own.
pub proof fn total_law(rows: Seq<Set<u32>>, s: Set<u32>)
    ensures
        total(Seq::empty()) == 0,
        total(rows.push(s)) == total(rows) + s.len(),
{
    assert(rows.push(s).drop_last() =~= rows);
}

/// What a member of a series is measured at, against the window before it: how much of
/// each row it covers, counted in the row's bits; whether it is a sum of members of the
/// window, and then which rows make it up; and the bits of it that are left otherwise.
pub proof fn measure_law(f: SidecarFrame, sets: Seq<Set<u32>>, i: int, cap: nat, freeze: Option<usize>, j: int)
    requires
        f.measures(sets, i, cap, freeze),
        0 <= i < sets.len(),
        cap >= 1,
        forall|k: int| 0 <= k < sets.len() ==> hllset::on_plane(#[trigger] sets[k]),
        0 <= j < rows_at(sets, entered(i, freeze), cap).len(),
    ensures
        ({
            let window = window_at(sets, entered(i, freeze), cap);
            let rows = boolring::folded(window).0;
            &&& f.soft@.len() == rows.len() && f.basis_pop@.len() == rows.len()
            &&& f.soft@[j].whole == rows[j].len() && f.basis_pop@[j] == rows[j].len()
            &&& f.soft@[j].part == rows[j].filter(|b: u32| sets[i].contains(b)).len()
            &&& i > 0 ==> f.from@.len() == rows.len() && f.from@[j].whole == rows[j].len() && f.from@[j].part == rows[j].filter(
                |b: u32| sets[i - 1].contains(b),
            ).len()
            &&& f.in_span == boolring::in_span(window, sets[i])
            &&& f.hard is Some <==> f.in_span
            &&& f.hard matches Some(c) ==> c@.len() == rows.len() && boolring::combination(rows, c@) == sets[i]
            &&& f.residual == 0 <==> f.in_span
        }),
{
    let k = entered(i, freeze);
    let window = window_at(sets, k, cap);
    window_law(sets, k, cap);
    assert forall|a: int| 0 <= a < window.len() implies hllset::on_plane(#[trigger] window[a]) by {
        let from: int = if k > cap {
            k - cap
        } else {
            0
        };
        assert(window[a] == sets[from + a]);
    }
    boolring::basis_law(window, sets[i]);
    let (rows, pivots) = boolring::folded(window);
    boolring::residual_law(rows, pivots, sets[i]);
    assert(boolring::in_span(rows, sets[i]) == boolring::in_span(window, sets[i]));
    let r = rows[j];
    hllset::bit_list_facts(r);
    assert(sets[i].intersect(r) =~= r.filter(|b: u32| sets[i].contains(b)));
    vstd::set_lib::lemma_len_subset(r.filter(|b: u32| sets[i].contains(b)), r);
    assert(f.soft@[j] == share::covered(sets[i], r));
    assert(f.basis_pop@[j] == r.len() as u64);
    if i > 0 {
        assert(sets[i - 1].intersect(r) =~= r.filter(|b: u32| sets[i - 1].contains(b)));
        vstd::set_lib::lemma_len_subset(r.filter(|b: u32| sets[i - 1].contains(b)), r);
        assert(f.from@[j] == share::covered(sets[i - 1], r));
    }
    let left = boolring::residual_of(rows, pivots, sets[i]);
    boolring::residual_on_plane(rows, pivots, sets[i]);
    hllset::bit_list_facts(left);
    if f.residual == 0 {
        assert(left.len() == 0);
        assert(left =~= Set::empty());
    }
}

/// A set that the rows combine to turns none of them; another turns those rows that have
/// the lowest bit of what is left of it.
pub proof fn turned_law(rows: Seq<Set<u32>>, pivots: Seq<u32>, set: Set<u32>, p: u32)
    ensures
        boolring::in_span(rows, set) ==> turned(rows, pivots, set) == 0,
        !boolring::in_span(rows, set) && boolring::residual_of(rows, pivots, set).contains(p) && (forall|b: u32| #[trigger]
            boolring::residual_of(rows, pivots, set).contains(b) ==> p <= b) ==> turned(rows, pivots, set) == rows.filter(
            |r: Set<u32>| r.contains(p),
        ).len(),
{
    let left = boolring::residual_of(rows, pivots, set);
    if boolring::is_lowest(left, p) {
        let q = boolring::lowest_of(left);
        assert(boolring::is_lowest(left, q));
        assert(left.contains(p) && left.contains(q));
        assert(p == q);
    }
    boolring::holders_law(rows, p, rows.len());
    assert(rows.take(rows.len() as int) =~= rows);
}

/// A frame counts the rows behind its member, and what the member turns of the rows
/// before it: nothing where it is a combination of them or is kept out. It is also read
/// through the rows of the first member alone.
pub proof fn rotation_law(f: SidecarFrame, sets: Seq<Set<u32>>, i: int, cap: nat, freeze: Option<usize>, j: int)
    requires
        f.measures(sets, i, cap, freeze),
        0 <= i < sets.len(),
    ensures
        f.dim == boolring::folded(window_at(sets, entered(i + 1, freeze), cap)).0.len(),
        f.rotation_mass == f.rotation_count * f.residual,
        f.in_span || entered(i + 1, freeze) <= entered(i, freeze) ==> f.rotation_count == 0,
        ({
            let basis = boolring::folded(window_at(sets, entered(i, freeze), cap));
            entered(i + 1, freeze) > entered(i, freeze) ==> f.rotation_count == turned(basis.0, basis.1, sets[i])
        }),
        ({
            let first = boolring::folded(window_at(sets, 1, cap)).0;
            &&& f.soft_first@.len() == first.len()
            &&& 0 <= j < first.len() ==> f.soft_first@[j] == share::covered(sets[i], first[j])
            &&& f.spill_first == sets[i].filter(
                |b: u32| forall|k: int| 0 <= k < first.len() ==> !(#[trigger] first[k]).contains(b),
            ).len()
        }),
{
    let first = rows_at(sets, 1, cap);
    share::cover_law(first);
    assert(sets[i].difference(share::cover(first)) =~= sets[i].filter(
        |b: u32| forall|k: int| 0 <= k < first.len() ==> !(#[trigger] first[k]).contains(b),
    ));
}

} // verus!
