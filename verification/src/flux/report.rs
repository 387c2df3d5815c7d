//! The loop of a host's steps, from the ids of each step to the ids that come back.

use vstd::prelude::*;

use crate::flux::basis_frames::BasisSnapshot;
use crate::flux::sidecar::SidecarFrame;
use crate::flux::transition::DrnRecord;
use crate::hllset::HLLSet;
use crate::machine::state::RING_CAPACITY;
use crate::machine::token::TokenEncoding;
use crate::machine::token::TokenId;
use crate::morphisms::api::PAD;
use crate::scene::share::Share;
use crate::flux::sidecar;
use crate::flux::transition;
use crate::git::intake;
use crate::hllset;
use crate::machine::state;
use crate::machine::token;
use crate::machine::turn;
use crate::morphisms::api;
use crate::scene::ring_series;
use crate::scene::share;
use crate::boolring;
use crate::search;

verus! {

/// One step of the loop.
#[derive(Clone, Debug, PartialEq, Eq)]
pub struct StepFrame {
    /// The step's bits.
    pub pop: u64,
    /// The key of the step's set.
    pub key: String,
    pub drn: DrnRecord,
    /// The step against the ring of those before it.
    pub core: SidecarFrame,
    /// How much of each row of the last basis the step covers.
    pub soft_final: Vec<Share>,
    /// The bits of the step outside the last basis.
    pub spill_final: u64,
    pub ids: Vec<TokenId>,
    /// The ids restored in order from the step's sketches.
    pub restored_ids: Vec<TokenId>,
    /// The places at which both agree.
    pub loop_accuracy: Share,
    /// How many of the ids come back.
    pub loop_recall: Share,
    /// How many of those that come back were there.
    pub loop_precision: Share,
}

/// The last basis, in numbers.
#[derive(Clone, Debug, PartialEq, Eq)]
pub struct FinalProjection {
    pub dimension: usize,
    pub generation: u64,
    pub basis_pop: Vec<u64>,
    pub cover_pop: u64,
    /// The bits of the last step outside the first basis.
    pub spill_oldest: u64,
}

/// The whole loop.
#[derive(Clone, Debug, PartialEq, Eq)]
pub struct FluxReport {
    pub frames: Vec<StepFrame>,
    pub final_projection: FinalProjection,
    /// The number of recorded bases.
    pub basis_changes: usize,
    /// Their generations.
    pub basis_generations: Vec<u64>,
    /// Whether the ids of every step come back in order.
    pub loop_order_exact: bool,
    /// Whether the ids of every step come back, and no others.
    pub loop_exact: bool,
}

/// The set of a list of tokens: the windows of one, two and three.
pub open spec fn window_sketch(tokens: Seq<Seq<u8>>, pad: Seq<u8>) -> Set<u32> {
    let p = api::padded(tokens, pad);
    if tokens.len() > 0 {
        api::union3(api::window_bits(p, 1, 0), api::window_bits(p, 2, 1), api::window_bits(p, 3, 2))
    } else {
        Set::empty()
    }
}

/// The set of a step.
pub open spec fn step_set(ids: Seq<u32>) -> Set<u32> {
    window_sketch(state::id_tokens(ids), PAD@)
}

/// The sets of all steps.
pub open spec fn step_sets(steps: Seq<Vec<u32>>) -> Seq<Set<u32>> {
    steps.map_values(|s: Vec<u32>| step_set(s@))
}

/// The number of places before `n` at which two lists agree.
pub open spec fn agreements(a: Seq<u32>, b: Seq<u32>, n: nat) -> nat
    decreases n,
{
    if n == 0 {
        0
    } else {
        agreements(a, b, (n - 1) as nat) + (if a[n - 1] == b[n - 1] {
            1nat
        } else {
            0
        })
    }
}

/// The smaller of two numbers.
pub open spec fn smaller(a: nat, b: nat) -> nat {
    if a <= b {
        a
    } else {
        b
    }
}

/// How far two lists agree, place by place, of the longer.
pub open spec fn place_share(a: Seq<u32>, b: Seq<u32>) -> Share {
    Share { part: agreements(a, b, smaller(a.len(), b.len())) as u64, whole: intake::larger(a.len(), b.len()) as u64 }
}

/// How far two lists agree, place by place.
pub fn position_accuracy(a: &[TokenId], b: &[TokenId]) -> (s: Share)
    ensures
        s == place_share(a@, b@),
{
    let n: usize = if a.len() <= b.len() {
        a.len()
    } else {
        b.len()
    };
    let mut agree: u64 = 0;
    let mut i: usize = 0;
    while i < n
        invariant
            i <= n,
            n <= a@.len(),
            n <= b@.len(),
            agree == agreements(a@, b@, i as nat),
            agree <= i,
        decreases n - i,
    {
        if a[i] == b[i] {
            agree = agree + 1;
        }
        i = i + 1;
    }
    let whole = if a.len() >= b.len() {
        a.len()
    } else {
        b.len()
    };
    Share { part: agree, whole: whole as u64 }
}

/// A list agrees with itself everywhere.
pub proof fn accuracy_law(a: Seq<u32>)
    requires
        a.len() <= u64::MAX,
    ensures
        place_share(a, a).part == place_share(a, a).whole,
{
    same_everywhere(a, a.len());
}

proof fn same_everywhere(a: Seq<u32>, n: nat)
    ensures
        agreements(a, a, n) == n,
    decreases n,
{
    if n > 0 {
        same_everywhere(a, (n - 1) as nat);
    }
}

/// The members of a list, each once.
fn distinct_ids(ids: &Vec<TokenId>) -> (out: Vec<TokenId>)
    ensures
        out@.no_duplicates(),
        out@.to_set() == ids@.to_set(),
        out@.len() <= ids@.len(),
{
    let mut out: Vec<TokenId> = Vec::new();
    let mut i: usize = 0;
    proof {
        assert(out@.to_set() =~= ids@.take(0).to_set());
    }
    while i < ids.len()
        invariant
            i <= ids@.len(),
            out@.no_duplicates(),
            out@.len() <= i,
            out@.to_set() == ids@.take(i as int).to_set(),
        decreases ids.len() - i,
    {
        let ghost before = out@;
        let known = holds_id(&out, ids[i]);
        if !known {
            out.push(ids[i]);
        }
        proof {
            let id = ids@[i as int];
            let shorter = ids@.take(i as int);
            let longer = ids@.take(i as int + 1);
            assert(longer =~= shorter.push(id));
            assert forall|x: u32| out@.to_set().contains(x) == longer.to_set().contains(x) by {
                search::pushed_members(shorter, id, x);
                if !known {
                    search::pushed_members(before, id, x);
                }
                assert(before.to_set().contains(x) == shorter.to_set().contains(x));
            }
            assert(out@.to_set() =~= longer.to_set());
        }
        i = i + 1;
    }
    proof {
        assert(ids@.take(i as int) =~= ids@);
    }
    out
}

fn holds_id(ids: &Vec<TokenId>, id: TokenId) -> (yes: bool)
    ensures
        yes == ids@.contains(id),
{
    let mut i: usize = 0;
    while i < ids.len()
        invariant
            i <= ids@.len(),
            forall|j: int| 0 <= j < i ==> #[trigger] ids@[j] != id,
        decreases ids.len() - i,
    {
        if ids[i] == id {
            return true;
        }
        i = i + 1;
    }
    false
}

/// The number of ids that two lists have in common.
fn common_ids(a: &Vec<TokenId>, b: &Vec<TokenId>) -> (n: usize)
    requires
        a@.no_duplicates(),
    ensures
        n == a@.to_set().intersect(b@.to_set()).len(),
{
    let mut n: usize = 0;
    let mut i: usize = 0;
    proof {
        assert(a@.take(0).to_set().intersect(b@.to_set()) =~= Set::empty());
    }
    while i < a.len()
        invariant
            i <= a@.len(),
            n <= i,
            a@.no_duplicates(),
            a@.take(i as int).to_set().intersect(b@.to_set()).finite(),
            n == a@.take(i as int).to_set().intersect(b@.to_set()).len(),
        decreases a.len() - i,
    {
        proof {
            let id = a@[i as int];
            let shorter = a@.take(i as int);
            let longer = a@.take(i as int + 1);
            assert(longer =~= shorter.push(id));
            let before = shorter.to_set().intersect(b@.to_set());
            let after = longer.to_set().intersect(b@.to_set());
            assert forall|x: u32| after.contains(x) == (if b@.contains(id) {
                before.insert(id).contains(x)
            } else {
                before.contains(x)
            }) by {
                search::pushed_members(shorter, id, x);
            }
            if shorter.contains(id) {
                let j = choose|j: int| 0 <= j < shorter.len() && shorter[j] == id;
                assert(a@[j] == a@[i as int]);
            }
            if b@.contains(id) {
                assert(after =~= before.insert(id));
            } else {
                assert(after =~= before);
            }
        }
        if holds_id(b, a[i]) {
            n = n + 1;
        }
        i = i + 1;
    }
    proof {
        assert(a@.take(i as int) =~= a@);
    }
    n
}

/// A part of a whole that counts at least one.
pub open spec fn share_of_some(part: nat, whole: nat) -> Share {
    Share {
        part: part as u64,
        whole: (if whole > 0 {
            whole
        } else {
            1
        }) as u64,
    }
}

fn some_share(part: usize, whole: usize) -> (s: Share)
    ensures
        s == share_of_some(part as nat, whole as nat),
{
    Share {
        part: part as u64,
        whole: if whole > 0 {
            whole as u64
        } else {
            1
        },
    }
}

/// What a step's sketches give back.
pub struct LoopBack {
    pub set: HLLSet,
    pub restored_ids: Vec<TokenId>,
    pub accuracy: Share,
    pub recall: Share,
    pub precision: Share,
}

/// Whether these are the ids that the sketches of a step give back in order.
pub open spec fn given_back(restored: Seq<u32>, ids: Seq<u32>) -> bool {
    exists|image: Seq<Seq<u8>>| #[trigger] turn::restores(image, state::id_tokens(ids)) && restored == turn::ids_of_tokens(image)
}

/// The ids among the ascending list of a step's tokens are the step's ids.
proof fn ids_among_tokens(ids: Seq<u32>, list: Seq<Seq<u8>>)
    requires
        list.to_set() == state::id_tokens(ids).to_set(),
    ensures
        turn::ids_of_tokens(list).to_set() == ids.to_set(),
{
    let found = turn::ids_of_tokens(list);
    assert forall|x: u32| found.to_set().contains(x) == ids.to_set().contains(x) by {
        id_among(list, x);
        if ids.contains(x) {
            let j = choose|j: int| 0 <= j < ids.len() && ids[j] == x;
            assert(state::id_tokens(ids)[j] == token::tid_bytes(x));
            assert(state::id_tokens(ids).to_set().contains(token::tid_bytes(x)));
            assert(list.to_set().contains(token::tid_bytes(x)));
            token::encoding_round_trip(TokenEncoding::Tid, x);
        }
        if found.contains(x) {
            let t = choose|t: Seq<u8>| list.contains(t) && token::tid_of(t) == Some(x);
            assert(list.to_set().contains(t));
            let j = choose|j: int| 0 <= j < ids.len() && state::id_tokens(ids)[j] == t;
            token::encoding_round_trip(TokenEncoding::Tid, ids[j]);
            assert(ids[j] == x);
        }
    }
    assert(found.to_set() =~= ids.to_set());
}

proof fn id_among(list: Seq<Seq<u8>>, x: u32)
    ensures
        turn::ids_of_tokens(list).contains(x) <==> exists|t: Seq<u8>| list.contains(t) && #[trigger] token::tid_of(t) == Some(x),
    decreases list.len(),
{
    if list.len() > 0 {
        let init = list.drop_last();
        id_among(init, x);
        assert(list =~= init.push(list.last()));
        match token::tid_of(list.last()) {
            Some(id) => {
                search::pushed_members(turn::ids_of_tokens(init), id, x);
            },
            None => {},
        }
        if exists|t: Seq<u8>| init.contains(t) && #[trigger] token::tid_of(t) == Some(x) {
            let t = choose|t: Seq<u8>| init.contains(t) && #[trigger] token::tid_of(t) == Some(x);
            let j = choose|j: int| 0 <= j < init.len() && init[j] == t;
            assert(list[j] == t);
        }
        if token::tid_of(list.last()) == Some(x) {
            assert(list[list.len() - 1] == list.last());
        }
        if exists|t: Seq<u8>| list.contains(t) && #[trigger] token::tid_of(t) == Some(x) {
            let t = choose|t: Seq<u8>| list.contains(t) && #[trigger] token::tid_of(t) == Some(x);
            let j = choose|j: int| 0 <= j < list.len() && list[j] == t;
            if j < init.len() {
                assert(init[j] == t);
            }
        }
    }
}

/// Sketches a step and restores its ids. All of the ids come back, and no others.
pub fn loop_back(ids: &Vec<TokenId>) -> (out: LoopBack)
    requires
        ids@.len() + 3 <= usize::MAX,
    ensures
        out.set@ == step_set(ids@),
        given_back(out.restored_ids@, ids@),
        out.accuracy == place_share(ids@, out.restored_ids@),
        out.recall == share_of_some(ids@.to_set().len(), ids@.to_set().len()),
        out.precision == share_of_some(ids@.to_set().len(), ids@.to_set().len()),
{
    let tokens = state::tokens_of(ids.as_slice());
    let g = api::ingest(&tokens);
    let image = api::materialize(&g);
    let restored_ids = turn::ids_of_image(&image);
    let plain = api::materialize_no_order(&g);
    let list = plain.to_vec();
    let back = turn::ids_of_image(&list);
    proof {
        assert(api::ingest_of(g, state::id_tokens(ids@), PAD@));
        assert(turn::restores(hllset::token_views(image@), state::id_tokens(ids@)));
        api::unordered_law(g, state::id_tokens(ids@), PAD@);
        plain.list_facts();
        ids_among_tokens(ids@, hllset::token_views(list@));
        assert(g.projection@ == step_set(ids@)) by {
            if ids@.len() == 0 {
                assert(api::union3(Set::empty(), Set::empty(), Set::empty()) =~= Set::<u32>::empty());
            }
        }
    }
    let before = distinct_ids(ids);
    let after = distinct_ids(&back);
    let inter = common_ids(&before, &after);
    proof {
        before@.unique_seq_to_set();
        after@.unique_seq_to_set();
        assert(ids@.to_set().intersect(ids@.to_set()) =~= ids@.to_set());
    }
    let accuracy = position_accuracy(ids.as_slice(), restored_ids.as_slice());
    let recall = some_share(inter, before.len());
    let precision = some_share(inter, after.len());
    LoopBack { set: g.projection, restored_ids, accuracy, recall, precision }
}

impl StepFrame {
    /// Whether the frame is that of a step of the loop.
    pub open spec fn tells(&self, steps: Seq<Vec<u32>>, i: int) -> bool {
        let sets = step_sets(steps);
        let cap = RING_CAPACITY as nat;
        let last = ring_series::rows_at(sets, sets.len() as int, cap);
        let ids = steps[i]@;
        &&& self.pop == sets[i].len()
        &&& self.key@ == hllset::key_of(sets[i])
        &&& self.drn == transition::drn_at(sets, i)
        &&& self.core.measures(sets, i, cap)
        &&& self.soft_final@ == share::weights(sets[i], last)
        &&& self.spill_final == sets[i].difference(share::cover(last)).len()
        &&& self.ids@ == ids
        &&& given_back(self.restored_ids@, ids)
        &&& self.loop_accuracy == place_share(ids, self.restored_ids@)
        &&& self.loop_recall == share_of_some(ids.to_set().len(), ids.to_set().len())
        &&& self.loop_precision == share_of_some(ids.to_set().len(), ids.to_set().len())
    }
}

impl FluxReport {
    /// Whether the report is that of the loop over the steps.
    pub open spec fn tells(&self, steps: Seq<Vec<u32>>) -> bool {
        let sets = step_sets(steps);
        let cap = RING_CAPACITY as nat;
        let n = steps.len() as int;
        let rows = ring_series::rows_at(sets, n, cap);
        let at = sidecar::recordings(sets, n, cap);
        let p = self.final_projection;
        &&& self.frames@.len() == n
        &&& forall|i: int| 0 <= i < n ==> (#[trigger] self.frames@[i]).tells(steps, i)
        &&& p.dimension == rows.len()
        &&& p.generation == ring_series::changes_at(sets, n, cap)
        &&& p.basis_pop@ == share::sizes(rows)
        &&& p.cover_pop == share::cover(rows).len()
        &&& p.spill_oldest == (if n > 0 {
            sets[n - 1].difference(share::cover(ring_series::rows_at(sets, 1, cap))).len()
        } else {
            0
        })
        &&& self.basis_changes == at.len()
        &&& self.basis_generations@ == at.map_values(|k: int| ring_series::changes_at(sets, k, cap) as u64)
        &&& self.loop_order_exact == (forall|i: int|
            0 <= i < n ==> (#[trigger] self.frames@[i]).restored_ids@ == steps[i]@)
        &&& self.loop_exact == (forall|i: int| 0 <= i < n ==> (#[trigger] steps[i])@.len() > 0)
    }
}

/// The first recording is that of the first step.
proof fn first_recording(sets: Seq<Set<u32>>, k: int, cap: nat)
    requires
        k >= 1,
    ensures
        sidecar::recordings(sets, k, cap).len() > 0,
        sidecar::recordings(sets, k, cap)[0] == 1,
    decreases k,
{
    if k > 1 {
        first_recording(sets, k - 1, cap);
    } else {
        assert(sidecar::recordings(sets, 0, cap) =~= Seq::<int>::empty());
    }
}

/// Whether the ids of a step come back in order.
fn same_ids(a: &Vec<TokenId>, b: &Vec<TokenId>) -> (same: bool)
    ensures
        same == (a@ == b@),
{
    if a.len() != b.len() {
        return false;
    }
    let mut i: usize = 0;
    while i < a.len()
        invariant
            i <= a@.len(),
            a@.len() == b@.len(),
            forall|j: int| 0 <= j < i ==> #[trigger] a@[j] == b@[j],
        decreases a.len() - i,
    {
        if a[i] != b[i] {
            return false;
        }
        i = i + 1;
    }
    proof {
        assert(a@ =~= b@);
    }
    true
}

/// The generations of the recorded bases.
fn generations(snapshots: &Vec<BasisSnapshot>) -> (out: Vec<u64>)
    ensures
        out@ == snapshots@.map_values(|s: BasisSnapshot| s.generation),
{
    let mut out: Vec<u64> = Vec::new();
    let mut i: usize = 0;
    while i < snapshots.len()
        invariant
            i <= snapshots@.len(),
            out@.len() == i,
            forall|j: int| 0 <= j < i ==> #[trigger] out@[j] == snapshots@[j].generation,
        decreases snapshots.len() - i,
    {
        out.push(snapshots[i].generation);
        i = i + 1;
    }
    proof {
        assert(out@ =~= snapshots@.map_values(|s: BasisSnapshot| s.generation));
    }
    out
}

/// A step has distinct ids where it has ids.
proof fn some_distinct(ids: Seq<u32>)
    ensures
        ids.to_set().len() > 0 <==> ids.len() > 0,
        ids.to_set().len() <= ids.len(),
{
    vstd::seq_lib::seq_to_set_is_finite(ids);
    ids.lemma_cardinality_of_set();
    if ids.len() > 0 {
        assert(ids.to_set().contains(ids[0]));
        if ids.to_set().len() == 0 {
            assert(ids.to_set() =~= Set::empty());
        }
    }
}

/// Runs the loop over the ids of all steps.
pub fn run_ids(steps: &Vec<Vec<TokenId>>) -> (report: FluxReport)
    requires
        2 * steps@.len() + 2 <= u64::MAX,
        forall|i: int| 0 <= i < steps@.len() ==> (#[trigger] steps@[i])@.len() + 3 <= usize::MAX,
    ensures
        report.tells(steps@),
{
    let ghost sets = step_sets(steps@);
    let ghost cap = RING_CAPACITY as nat;
    let n = steps.len();
    let mut backs: Vec<LoopBack> = Vec::new();
    let mut hllsets: Vec<HLLSet> = Vec::new();
    let mut i: usize = 0;
    while i < n
        invariant
            n == steps@.len(),
            i <= n,
            sets == step_sets(steps@),
            forall|j: int| 0 <= j < steps@.len() ==> (#[trigger] steps@[j])@.len() + 3 <= usize::MAX,
            backs@.len() == i,
            hllsets@.len() == i,
            forall|j: int| 0 <= j < i ==> (#[trigger] hllsets@[j])@ == sets[j],
            forall|j: int|
                0 <= j < i ==> given_back((#[trigger] backs@[j]).restored_ids@, steps@[j]@) && backs@[j].accuracy
                    == place_share(steps@[j]@, backs@[j].restored_ids@) && backs@[j].recall == share_of_some(
                    steps@[j]@.to_set().len(),
                    steps@[j]@.to_set().len(),
                ) && backs@[j].precision == backs@[j].recall,
        decreases n - i,
    {
        let back = loop_back(&steps[i]);
        hllsets.push(back.set);
        backs.push(back);
        i = i + 1;
    }
    proof {
        assert(boolring::set_views(hllsets@) =~= sets);
    }
    let series = sidecar::sidecar_series_with_window(hllsets.as_slice());
    let drn = transition::drn_series(hllsets.as_slice());
    let history = series.history;
    let core = series.frames;
    let basis_changes = history.change_count();
    let basis_generations = generations(&history.snapshots);
    proof {
        assert(basis_generations@ =~= sidecar::recordings(sets, n as int, cap).map_values(
            |k: int| ring_series::changes_at(sets, k, cap) as u64,
        ));
        if n > 0 {
            first_recording(sets, n as int, cap);
        }
    }
    let mut final_projection = FinalProjection {
        dimension: 0,
        generation: 0,
        basis_pop: Vec::new(),
        cover_pop: 0,
        spill_oldest: 0,
    };
    if n > 0 {
        match history.last() {
            Some(snap) => {
                final_projection.dimension = snap.dimension();
                final_projection.generation = snap.generation;
                final_projection.basis_pop = snap.pops();
                final_projection.cover_pop = snap.cover.popcount();
                final_projection.spill_oldest = history.project_into(0, &hllsets[n - 1]).spill;
            },
            None => {},
        }
    } else {
        proof {
            assert(ring_series::window_at(sets, 0, cap) =~= Seq::<Set<u32>>::empty());
            assert(final_projection.basis_pop@ =~= share::sizes(ring_series::rows_at(sets, 0, cap)));
        }
    }
    let mut frames: Vec<StepFrame> = Vec::new();
    let mut loop_order_exact: bool = true;
    let mut loop_exact: bool = true;
    let mut k: usize = 0;
    while k < n
        invariant
            n == steps@.len(),
            k <= n,
            sets == step_sets(steps@),
            cap == RING_CAPACITY,
            boolring::set_views(hllsets@) == sets,
            backs@.len() == n,
            hllsets@.len() == n,
            drn@ == Seq::new(n as nat, |i: int| transition::drn_at(sets, i)),
            core@.len() == n,
            forall|j: int| 0 <= j < n ==> (#[trigger] core@[j]).measures(sets, j, cap),
            history.wf(),
            n > 0 ==> history.snapshots@.len() > 0,
            n > 0 ==> history.snapshots@.last().is_of(
                ring_series::changes_at(sets, n as int, cap),
                ring_series::rows_at(sets, n as int, cap),
                ring_series::pivots_at(sets, n as int, cap),
            ),
            forall|j: int|
                0 <= j < n ==> given_back((#[trigger] backs@[j]).restored_ids@, steps@[j]@) && backs@[j].accuracy
                    == place_share(steps@[j]@, backs@[j].restored_ids@) && backs@[j].recall == share_of_some(
                    steps@[j]@.to_set().len(),
                    steps@[j]@.to_set().len(),
                ) && backs@[j].precision == backs@[j].recall,
            frames@.len() == k,
            forall|j: int| 0 <= j < k ==> (#[trigger] frames@[j]).tells(steps@, j),
            loop_order_exact == (forall|j: int| 0 <= j < k ==> (#[trigger] frames@[j]).restored_ids@ == steps@[j]@),
            loop_exact == (forall|j: int| 0 <= j < k ==> (#[trigger] steps@[j])@.len() > 0),
        decreases n - k,
    {
        let set = &hllsets[k];
        let last = history.project_into(history.snapshots.len() - 1, set);
        let frame = StepFrame {
            pop: set.popcount(),
            key: set.content_key(),
            drn: drn[k],
            core: core[k].copy(),
            soft_final: last.soft,
            spill_final: last.spill,
            ids: vstd::slice::slice_to_vec(steps[k].as_slice()),
            restored_ids: vstd::slice::slice_to_vec(backs[k].restored_ids.as_slice()),
            loop_accuracy: backs[k].accuracy,
            loop_recall: backs[k].recall,
            loop_precision: backs[k].precision,
        };
        let in_order = same_ids(&steps[k], &frame.restored_ids);
        let recalled = frame.loop_recall.part == frame.loop_recall.whole;
        let precise = frame.loop_precision.part == frame.loop_precision.whole;
        proof {
            some_distinct(steps@[k as int]@);
            assert(steps[k as int].len() == steps@[k as int]@.len());
            assert(frame.tells(steps@, k as int));
        }
        let ghost earlier = frames@;
        frames.push(frame);
        proof {
            assert forall|j: int| 0 <= j < k implies frames@[j] == earlier[j] by {}
            assert(frames@[k as int] == frame);
        }
        loop_order_exact = loop_order_exact && in_order;
        loop_exact = loop_exact && recalled && precise;
        k = k + 1;
    }
    FluxReport { frames, final_projection, basis_changes, basis_generations, loop_order_exact, loop_exact }
}

/// Places where two lists agree are counted one by one; the share is taken of the longer
/// list.
pub proof fn place_share_law(a: Seq<u32>, b: Seq<u32>)
    requires
        a.len() <= u64::MAX,
        b.len() <= u64::MAX,
    ensures
        place_share(a, b) == place_share(b, a),
        place_share(a, b).whole == (if a.len() >= b.len() {
            a.len()
        } else {
            b.len()
        }),
        place_share(a, b).part <= place_share(a, b).whole,
        place_share(a, b).part == Set::new(|i: int| 0 <= i < a.len() && i < b.len() && a[i] == b[i]).len(),
        a.len() == b.len() && place_share(a, b).part == place_share(a, b).whole ==> a == b,
{
    let n = smaller(a.len(), b.len());
    agreements_count(a, b, n);
    agreements_count(b, a, n);
    let s = Set::new(|i: int| 0 <= i < n && a[i] == b[i]);
    assert(s =~= Set::new(|i: int| 0 <= i < a.len() && i < b.len() && a[i] == b[i]));
    assert(s =~= Set::new(|i: int| 0 <= i < n && b[i] == a[i]));
    if a.len() == b.len() && agreements(a, b, n) == n {
        assert forall|i: int| 0 <= i < n implies a[i] == b[i] by {
            all_agree(a, b, n, i);
        }
        assert(a =~= b);
    }
}

proof fn agreements_count(a: Seq<u32>, b: Seq<u32>, n: nat)
    ensures
        Set::new(|i: int| 0 <= i < n && a[i] == b[i]).finite(),
        agreements(a, b, n) == Set::new(|i: int| 0 <= i < n && a[i] == b[i]).len(),
        agreements(a, b, n) <= n,
    decreases n,
{
    let s = Set::new(|i: int| 0 <= i < n && a[i] == b[i]);
    if n == 0 {
        assert(s =~= Set::<int>::empty());
    } else {
        agreements_count(a, b, (n - 1) as nat);
        let t = Set::new(|i: int| 0 <= i < n - 1 && a[i] == b[i]);
        assert(t =~= Set::new(|i: int| 0 <= i < (n - 1) as nat && a[i] == b[i]));
        if a[n - 1] == b[n - 1] {
            assert(s =~= t.insert(n - 1));
        } else {
            assert(s =~= t);
        }
    }
}

proof fn all_agree(a: Seq<u32>, b: Seq<u32>, n: nat, i: int)
    requires
        agreements(a, b, n) == n,
        0 <= i < n,
    ensures
        a[i] == b[i],
    decreases n,
{
    agreements_count(a, b, (n - 1) as nat);
    if i < n - 1 {
        all_agree(a, b, (n - 1) as nat, i);
    }
}

/// The sketch of a step has the bits of its windows of one, two and three tokens under
/// the seeds of their lengths, between one pad before it and two behind it.
pub proof fn window_sketch_law(tokens: Seq<Seq<u8>>, pad: Seq<u8>, p: Seq<Seq<u8>>, x: u32)
    requires
        p == seq![pad] + tokens + seq![pad, pad],
    ensures
        window_sketch(tokens, pad).contains(x) <==> tokens.len() > 0 && exists|n: int, i: int|
            1 <= n <= 3 && 0 <= i && i + n <= p.len() && x == crate::hashing::token_bit(
                api::gram(#[trigger] p.subrange(i, i + n)),
                (n - 1) as u64,
            ),
{
    assert(p == api::padded(tokens, pad));
    if window_sketch(tokens, pad).contains(x) {
        let n: int = if api::window_bits(p, 1, 0).contains(x) {
            1
        } else if api::window_bits(p, 2, 1).contains(x) {
            2
        } else {
            3
        };
        assert(api::window_bits(p, n, (n - 1) as u64).contains(x));
        let i = choose|i: int|
            0 <= i && i + n <= p.len() && crate::hashing::token_bit(#[trigger] api::window(p, i, n), (n - 1) as u64) == x;
        assert(x == crate::hashing::token_bit(api::gram(p.subrange(i, i + n)), (n - 1) as u64));
    }
    if tokens.len() > 0 && exists|n: int, i: int|
        1 <= n <= 3 && 0 <= i && i + n <= p.len() && x == crate::hashing::token_bit(
            api::gram(#[trigger] p.subrange(i, i + n)),
            (n - 1) as u64,
        ) {
        let (n, i) = choose|n: int, i: int|
            1 <= n <= 3 && 0 <= i && i + n <= p.len() && x == crate::hashing::token_bit(
                api::gram(#[trigger] p.subrange(i, i + n)),
                (n - 1) as u64,
            );
        assert(crate::hashing::token_bit(api::window(p, i, n), (n - 1) as u64) == x);
        assert(api::window_bits(p, n, (n - 1) as u64).contains(x));
        assert(n == 1 || n == 2 || n == 3);
    }
}

/// What a report says of a step, beside what the sidecar measures: the bits of the step
/// and how it stands to the rows at the end, and how much of its ids came back in place.
pub proof fn step_frame_law(f: StepFrame, steps: Seq<Vec<u32>>, i: int, j: int)
    requires
        f.tells(steps, i),
        0 <= i < steps.len(),
        0 <= j < boolring::folded(ring_series::window_at(step_sets(steps), steps.len() as int, RING_CAPACITY as nat)).0.len(),
        steps[i]@.len() <= u64::MAX,
        f.restored_ids@.len() <= u64::MAX,
        hllset::on_plane(boolring::folded(ring_series::window_at(step_sets(steps), steps.len() as int, RING_CAPACITY as nat)).0[j]),
    ensures
        ({
            let rows = boolring::folded(ring_series::window_at(step_sets(steps), steps.len() as int, RING_CAPACITY as nat)).0;
            let set = step_sets(steps)[i];
            &&& f.pop == set.len()
            &&& f.soft_final@.len() == rows.len()
            &&& f.soft_final@[j].whole == rows[j].len()
            &&& f.soft_final@[j].part == rows[j].filter(|b: u32| set.contains(b)).len()
            &&& f.spill_final == set.filter(|b: u32| forall|k: int| 0 <= k < rows.len() ==> !(#[trigger] rows[k]).contains(b)).len()
            &&& f.ids@ == steps[i]@
            &&& f.loop_accuracy.part == Set::new(
                |k: int| 0 <= k < f.ids@.len() && k < f.restored_ids@.len() && f.ids@[k] == f.restored_ids@[k],
            ).len()
        }),
{
    let rows = boolring::folded(ring_series::window_at(step_sets(steps), steps.len() as int, RING_CAPACITY as nat)).0;
    let set = step_sets(steps)[i];
    place_share_law(steps[i]@, f.restored_ids@);
    share::cover_law(rows);
    assert(set.difference(share::cover(rows)) =~= set.filter(
        |b: u32| forall|k: int| 0 <= k < rows.len() ==> !(#[trigger] rows[k]).contains(b),
    ));
    assert(set.intersect(rows[j]) =~= rows[j].filter(|b: u32| set.contains(b)));
    hllset::bit_list_facts(rows[j]);
    vstd::set_lib::lemma_len_subset(set.intersect(rows[j]), rows[j]);
    assert(Set::new(|k: int| 0 <= k < f.ids@.len() && k < f.restored_ids@.len() && f.ids@[k] == f.restored_ids@[k]) =~= Set::new(
        |k: int| 0 <= k < steps[i]@.len() && k < f.restored_ids@.len() && steps[i]@[k] == f.restored_ids@[k],
    ));
}

/// A report says that every order came back exactly where each step's ids did, and has a
/// frame for every step and a generation for every change of basis.
pub proof fn report_law(r: FluxReport, steps: Seq<Vec<u32>>, i: int)
    requires
        r.tells(steps),
        0 <= i < steps.len(),
    ensures
        r.frames@.len() == steps.len(),
        r.frames@[i].ids@ == steps[i]@,
        r.loop_order_exact ==> r.frames@[i].restored_ids@ == steps[i]@,
        (forall|k: int| 0 <= k < steps.len() ==> (#[trigger] r.frames@[k]).restored_ids@ == steps[k]@) ==> r.loop_order_exact,
        r.basis_changes == r.basis_generations@.len(),
        r.final_projection.dimension == r.final_projection.basis_pop@.len(),
{
    assert(r.frames@[i].tells(steps, i));
}

} // verus!
