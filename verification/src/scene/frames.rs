//! Frames of tokens and the series of their sketches.

use vstd::prelude::*;

use crate::hllset::HLLSet;
use crate::morphisms::ingest::Ingest;
use crate::scene::share::Share;
use crate::text;
use crate::boolring;
use crate::hllset;
use crate::scene::share;

verus! {

/// One frame: an id and its tokens.
#[derive(Clone, Debug, PartialEq, Eq)]
pub struct Frame {
    pub id: u64,
    pub tokens: Vec<String>,
}

/// The bytes of a list of texts.
pub open spec fn text_tokens(tokens: Seq<String>) -> Seq<Seq<u8>> {
    tokens.map_values(|t: String| text::utf8(t@))
}

/// The sketch of a list of tokens over all three seeds.
pub open spec fn sketch_of(tokens: Seq<Seq<u8>>) -> Set<u32> {
    hllset::token_bits(tokens, 0).union(hllset::token_bits(tokens, 1)).union(hllset::token_bits(tokens, 2))
}

/// The bytes of a list of texts.
pub fn bytes_of_texts(tokens: &Vec<String>) -> (out: Vec<Vec<u8>>)
    ensures
        hllset::token_views(out@) == text_tokens(tokens@),
        out@.len() == tokens@.len(),
{
    let mut out: Vec<Vec<u8>> = Vec::new();
    let mut i: usize = 0;
    while i < tokens.len()
        invariant
            i <= tokens@.len(),
            out@.len() == i,
            forall|j: int| 0 <= j < i ==> (#[trigger] out@[j])@ == text::utf8(tokens@[j]@),
        decreases tokens.len() - i,
    {
        out.push(vstd::slice::slice_to_vec(tokens[i].as_str().as_bytes()));
        i = i + 1;
    }
    proof {
        assert(hllset::token_views(out@) =~= text_tokens(tokens@));
    }
    out
}

/// The sketches of a list of texts, with their indexes.
pub fn ingest_texts(tokens: &Vec<String>) -> (g: Ingest)
    ensures
        g.holds(text_tokens(tokens@)),
        g.spec_projection() == sketch_of(text_tokens(tokens@)),
{
    let bytes = bytes_of_texts(tokens);
    let g = Ingest::of_tokens(&bytes);
    proof {
        assert(g.hllsets@[0]@ == hllset::token_bits(text_tokens(tokens@), 0));
        assert(g.hllsets@[1]@ == hllset::token_bits(text_tokens(tokens@), 1));
        assert(g.hllsets@[2]@ == hllset::token_bits(text_tokens(tokens@), 2));
    }
    g
}

/// Frames with their sketches.
#[derive(Clone, Debug, PartialEq, Eq)]
pub struct FrameSet {
    pub frames: Vec<Frame>,
    /// The sketch of each frame over all three seeds.
    pub hllsets: Vec<HLLSet>,
    /// The keys of those sketches.
    pub keys: Vec<String>,
    /// The bits of those sketches.
    pub pops: Vec<u64>,
    /// The sketch of each frame over the first seed.
    pub g1s: Vec<HLLSet>,
}

impl FrameSet {
    /// The sketches of the frames.
    pub open spec fn sets(&self) -> Seq<Set<u32>> {
        boolring::set_views(self.hllsets@)
    }

    /// Sketches, keys and counts are those of the frames.
    pub open spec fn wf(&self) -> bool {
        let n = self.frames@.len();
        &&& self.hllsets@.len() == n
        &&& self.keys@.len() == n
        &&& self.pops@.len() == n
        &&& self.g1s@.len() == n
        &&& forall|i: int|
            0 <= i < n ==> (#[trigger] self.hllsets@[i])@ == sketch_of(text_tokens(self.frames@[i].tokens@))
        &&& forall|i: int| 0 <= i < n ==> (#[trigger] self.keys@[i])@ == hllset::combined_key_of(self.hllsets@[i]@)
        &&& forall|i: int| 0 <= i < n ==> #[trigger] self.pops@[i] == self.hllsets@[i]@.len()
        &&& forall|i: int|
            0 <= i < n ==> (#[trigger] self.g1s@[i])@ == hllset::token_bits(text_tokens(self.frames@[i].tokens@), 0)
    }

    pub fn from_frames(frames: Vec<Frame>) -> (s: FrameSet)
        ensures
            s.wf(),
            s.frames == frames,
    {
        let mut hllsets: Vec<HLLSet> = Vec::new();
        let mut keys: Vec<String> = Vec::new();
        let mut pops: Vec<u64> = Vec::new();
        let mut g1s: Vec<HLLSet> = Vec::new();
        let mut i: usize = 0;
        while i < frames.len()
            invariant
                i <= frames@.len(),
                hllsets@.len() == i,
                keys@.len() == i,
                pops@.len() == i,
                g1s@.len() == i,
                forall|j: int|
                    0 <= j < i ==> (#[trigger] hllsets@[j])@ == sketch_of(text_tokens(frames@[j].tokens@)),
                forall|j: int| 0 <= j < i ==> (#[trigger] keys@[j])@ == hllset::combined_key_of(hllsets@[j]@),
                forall|j: int| 0 <= j < i ==> #[trigger] pops@[j] == hllsets@[j]@.len(),
                forall|j: int|
                    0 <= j < i ==> (#[trigger] g1s@[j])@ == hllset::token_bits(text_tokens(frames@[j].tokens@), 0),
            decreases frames.len() - i,
        {
            let g = ingest_texts(&frames[i].tokens);
            let projection = g.projection();
            proof {
                assert(g.hllsets@[0]@ == hllset::token_bits(text_tokens(frames@[i as int].tokens@), 0));
            }
            keys.push(g.key());
            pops.push(projection.popcount());
            hllsets.push(projection);
            g1s.push(*g.hllset(0));
            i = i + 1;
        }
        FrameSet { frames, hllsets, keys, pops, g1s }
    }

    pub fn len(&self) -> (n: usize)
        ensures
            n == self.frames@.len(),
    {
        self.frames.len()
    }

    pub fn is_empty(&self) -> (yes: bool)
        ensures
            yes == (self.frames@.len() == 0),
    {
        self.frames.len() == 0
    }

    /// How much of one frame another covers.
    pub fn bss(&self, i: usize, j: usize) -> (s: Share)
        requires
            i < self.hllsets@.len(),
            j < self.hllsets@.len(),
        ensures
            s == share::covered(self.sets()[i as int], self.sets()[j as int]),
    {
        share::bss(&self.hllsets[i], &self.hllsets[j])
    }

    /// How much of two frames is common to both.
    pub fn jaccard(&self, i: usize, j: usize) -> (s: Share)
        requires
            i < self.hllsets@.len(),
            j < self.hllsets@.len(),
        ensures
            s == share::shared(self.sets()[i as int], self.sets()[j as int]),
    {
        share::jaccard(&self.hllsets[i], &self.hllsets[j])
    }

    /// Both shares, of each frame and the one before.
    pub fn bss_series(&self) -> (out: (Vec<Share>, Vec<Share>))
        requires
            self.wf(),
        ensures
            out.0@ == steps_covered(self.sets()),
            out.1@ == steps_shared(self.sets()),
    {
        let n = self.len();
        let mut tau: Vec<Share> = Vec::new();
        let mut jac: Vec<Share> = Vec::new();
        let mut i: usize = 1;
        while i < n
            invariant
                self.wf(),
                n == self.frames@.len(),
                1 <= i,
                n >= 1 ==> i <= n,
                n == 0 ==> i == 1,
                tau@.len() == i - 1,
                jac@.len() == i - 1,
                forall|j: int| 0 <= j < i - 1 ==> #[trigger] tau@[j] == share::covered(self.sets()[j], self.sets()[j + 1]),
                forall|j: int| 0 <= j < i - 1 ==> #[trigger] jac@[j] == share::shared(self.sets()[j], self.sets()[j + 1]),
            decreases n - i,
        {
            tau.push(self.bss(i - 1, i));
            jac.push(self.jaccard(i - 1, i));
            i = i + 1;
        }
        proof {
            assert(tau@ =~= steps_covered(self.sets()));
            assert(jac@ =~= steps_shared(self.sets()));
        }
        (tau, jac)
    }

    /// The union of the `w` frames before `t`.
    fn window(&self, t: usize, w: usize) -> (s: HLLSet)
        requires
            w <= t <= self.hllsets@.len(),
        ensures
            s@ == share::cover(self.sets().subrange(t - w, t as int)),
    {
        let part = vstd::slice::slice_subrange(self.hllsets.as_slice(), t - w, t);
        let s = share::unite(part);
        proof {
            assert(boolring::set_views(part@) =~= self.sets().subrange(t - w, t as int));
        }
        s
    }

    /// For each moment past the longer window: how much of the union of the last
    /// frames the union one moment before covers, for the shorter and the longer
    /// window.
    pub fn moving_averages(&self, short_n: usize, long_n: usize) -> (out: (Vec<usize>, Vec<Share>, Vec<Share>))
        requires
            self.wf(),
            1 <= short_n <= long_n <= self.frames@.len(),
        ensures
            out.0@ == Seq::new((self.frames@.len() - long_n) as nat, |i: int| (long_n + 1 + i) as usize),
            out.1@ == out.0@.map_values(|t: usize| window_step(self.sets(), t as int, short_n as int)),
            out.2@ == out.0@.map_values(|t: usize| window_step(self.sets(), t as int, long_n as int)),
            forall|i: int| 0 <= i < out.0@.len() ==> long_n < #[trigger] out.0@[i] <= self.frames@.len(),
            short_n == 1 ==> forall|i: int|
                0 <= i < out.0@.len() ==> #[trigger] out.1@[i] == steps_covered(self.sets())[out.0@[i] - 2],
            long_n == 1 ==> out.1@ == out.2@,
    {
        let n = self.len();
        let mut t_axis: Vec<usize> = Vec::new();
        let mut fast: Vec<Share> = Vec::new();
        let mut slow: Vec<Share> = Vec::new();
        let mut t: usize = long_n;
        while t < n
            invariant
                self.wf(),
                n == self.frames@.len(),
                1 <= short_n <= long_n <= t <= n,
                t_axis@.len() == t - long_n,
                fast@.len() == t - long_n,
                slow@.len() == t - long_n,
                forall|j: int| 0 <= j < t - long_n ==> #[trigger] t_axis@[j] == long_n + 1 + j,
                forall|j: int|
                    0 <= j < t - long_n ==> #[trigger] fast@[j] == window_step(
                        self.sets(),
                        long_n + 1 + j,
                        short_n as int,
                    ),
                forall|j: int|
                    0 <= j < t - long_n ==> #[trigger] slow@[j] == window_step(self.sets(), long_n + 1 + j, long_n as int),
            decreases n - t,
        {
            let s_prev = self.window(t, short_n);
            let s_cur = self.window(t + 1, short_n);
            let l_prev = self.window(t, long_n);
            let l_cur = self.window(t + 1, long_n);
            t_axis.push(t + 1);
            fast.push(share::bss(&s_prev, &s_cur));
            slow.push(share::bss(&l_prev, &l_cur));
            t = t + 1;
        }
        proof {
            let axis = Seq::new((n - long_n) as nat, |i: int| (long_n + 1 + i) as usize);
            assert(t_axis@ =~= axis);
            assert(fast@ =~= axis.map_values(|t: usize| window_step(self.sets(), t as int, short_n as int)));
            assert(slow@ =~= axis.map_values(|t: usize| window_step(self.sets(), t as int, long_n as int)));
            if short_n == 1 {
                assert(self.sets().len() == n);
                assert forall|i: int| 0 <= i < t_axis@.len() implies #[trigger] fast@[i] == steps_covered(self.sets())[t_axis@[i] - 2] by {
                    one_step(self.sets(), t_axis@[i] as int);
                }
            }
        }
        (t_axis, fast, slow)
    }

    /// What left, stayed and came between the frames.
    pub fn noether(&self) -> (out: NoetherOut)
        requires
            self.wf(),
        ensures
            out.follows(self.sets()),
    {
        noether_series(self.hllsets.as_slice())
    }
}

/// How much of each set the one before covers.
pub open spec fn steps_covered(sets: Seq<Set<u32>>) -> Seq<Share> {
    Seq::new(step_count(sets), |i: int| share::covered(sets[i], sets[i + 1]))
}

/// How much of each set and the one before is common to both.
pub open spec fn steps_shared(sets: Seq<Set<u32>>) -> Seq<Share> {
    Seq::new(step_count(sets), |i: int| share::shared(sets[i], sets[i + 1]))
}

/// The number of transitions in a series.
pub open spec fn step_count(sets: Seq<Set<u32>>) -> nat {
    if sets.len() > 0 {
        (sets.len() - 1) as nat
    } else {
        0
    }
}

/// How much of the union of the `w` sets before `t` the union of the `w` sets one
/// moment earlier covers.
pub open spec fn window_step(sets: Seq<Set<u32>>, t: int, w: int) -> Share {
    share::covered(share::cover(sets.subrange(t - 1 - w, t - 1)), share::cover(sets.subrange(t - w, t)))
}

/// What left, stayed and came between the members of a series, with three
/// indicators.
#[derive(Clone, Debug, PartialEq, Eq)]
pub struct NoetherOut {
    /// The bits that left.
    pub dp: Vec<u64>,
    /// The bits that stayed.
    pub rp: Vec<u64>,
    /// The bits that came.
    pub np: Vec<u64>,
    /// What left, of the later member.
    pub ind1: Vec<Share>,
    /// How much of what stayed is covered by what stayed one step earlier.
    pub ind2: Vec<Share>,
    /// What came, of the earlier member.
    pub ind3: Vec<Share>,
}

impl NoetherOut {
    pub open spec fn follows(&self, sets: Seq<Set<u32>>) -> bool {
        let n = step_count(sets);
        let left = |i: int| sets[i].difference(sets[i + 1]);
        let stayed = |i: int| sets[i].intersect(sets[i + 1]);
        let came = |i: int| sets[i + 1].difference(sets[i]);
        &&& self.dp@ == Seq::new(n, |i: int| left(i).len() as u64)
        &&& self.rp@ == Seq::new(n, |i: int| stayed(i).len() as u64)
        &&& self.np@ == Seq::new(n, |i: int| came(i).len() as u64)
        &&& self.ind1@ == Seq::new(
            n,
            |i: int| Share { part: left(i).len() as u64, whole: stayed(i).union(came(i)).len() as u64 },
        )
        &&& self.ind3@ == Seq::new(
            n,
            |i: int| Share { part: came(i).len() as u64, whole: stayed(i).union(left(i)).len() as u64 },
        )
        &&& self.ind2@ == Seq::new(if n > 0 { (n - 1) as nat } else { 0 }, |i: int| share::covered(stayed(i), stayed(i + 1)))
    }
}

/// What left, stayed and came between the members of a series.
pub fn noether_series(hllsets: &[HLLSet]) -> (out: NoetherOut)
    ensures
        out.follows(boolring::set_views(hllsets@)),
{
    let n = hllsets.len();
    let ghost sets = boolring::set_views(hllsets@);
    let mut dp: Vec<u64> = Vec::new();
    let mut rp: Vec<u64> = Vec::new();
    let mut np: Vec<u64> = Vec::new();
    let mut ind1: Vec<Share> = Vec::new();
    let mut ind2: Vec<Share> = Vec::new();
    let mut ind3: Vec<Share> = Vec::new();
    let mut r_prev = HLLSet::new();
    let mut i: usize = 0;
    while i + 1 < n
        invariant
            n == hllsets@.len(),
            sets == boolring::set_views(hllsets@),
            i <= step_count(sets),
            dp@.len() == i,
            rp@.len() == i,
            np@.len() == i,
            ind1@.len() == i,
            ind3@.len() == i,
            ind2@.len() == (if i > 0 { i - 1 } else { 0 }),
            i > 0 ==> r_prev@ == sets[i - 1].intersect(sets[i as int]),
            forall|j: int| 0 <= j < i ==> #[trigger] dp@[j] == sets[j].difference(sets[j + 1]).len(),
            forall|j: int| 0 <= j < i ==> #[trigger] rp@[j] == sets[j].intersect(sets[j + 1]).len(),
            forall|j: int| 0 <= j < i ==> #[trigger] np@[j] == sets[j + 1].difference(sets[j]).len(),
            forall|j: int|
                0 <= j < i ==> (#[trigger] ind1@[j]).part == dp@[j] && ind1@[j].whole == sets[j].intersect(
                    sets[j + 1],
                ).union(sets[j + 1].difference(sets[j])).len(),
            forall|j: int|
                0 <= j < i ==> (#[trigger] ind3@[j]).part == np@[j] && ind3@[j].whole == sets[j].intersect(
                    sets[j + 1],
                ).union(sets[j].difference(sets[j + 1])).len(),
            forall|j: int|
                0 <= j < ind2@.len() ==> #[trigger] ind2@[j] == share::covered(
                    sets[j].intersect(sets[j + 1]),
                    sets[j + 1].intersect(sets[j + 2]),
                ),
        decreases n - i,
    {
        let d = hllsets[i].difference(&hllsets[i + 1]);
        let r = hllsets[i].intersection(&hllsets[i + 1]);
        let nn = hllsets[i + 1].difference(&hllsets[i]);
        let dpc = d.popcount();
        let rpc = r.popcount();
        let npc = nn.popcount();
        dp.push(dpc);
        rp.push(rpc);
        np.push(npc);
        ind1.push(Share { part: dpc, whole: r.union(&nn).popcount() });
        ind3.push(Share { part: npc, whole: r.union(&d).popcount() });
        if i > 0 {
            ind2.push(share::bss(&r_prev, &r));
        }
        r_prev = r;
        i = i + 1;
    }
    let out = NoetherOut { dp, rp, np, ind1, ind2, ind3 };
    proof {
        let k = step_count(sets);
        let left = |i: int| sets[i].difference(sets[i + 1]);
        let stayed = |i: int| sets[i].intersect(sets[i + 1]);
        let came = |i: int| sets[i + 1].difference(sets[i]);
        assert(out.dp@ =~= Seq::new(k, |i: int| left(i).len() as u64));
        assert(out.rp@ =~= Seq::new(k, |i: int| stayed(i).len() as u64));
        assert(out.np@ =~= Seq::new(k, |i: int| came(i).len() as u64));
        assert(out.ind1@ =~= Seq::new(
            k,
            |i: int| Share { part: left(i).len() as u64, whole: stayed(i).union(came(i)).len() as u64 },
        ));
        assert(out.ind3@ =~= Seq::new(
            k,
            |i: int| Share { part: came(i).len() as u64, whole: stayed(i).union(left(i)).len() as u64 },
        ));
        assert(out.ind2@ =~= Seq::new(
            if k > 0 { (k - 1) as nat } else { 0 },
            |i: int| share::covered(stayed(i), stayed(i + 1)),
        ));
    }
    out
}

/// The counts of a series keep the members' sizes: what left and what stayed make
/// up the earlier member, what stayed and what came the later.
pub proof fn noether_law(out: NoetherOut, sets: Seq<Set<u32>>, i: int)
    requires
        out.follows(sets),
        0 <= i < step_count(sets),
        hllset::on_plane(sets[i]),
        hllset::on_plane(sets[i + 1]),
    ensures
        out.dp@[i] + out.rp@[i] == sets[i].len(),
        out.rp@[i] + out.np@[i] == sets[i + 1].len(),
        out.ind1@[i].whole == sets[i + 1].len(),
        out.ind3@[i].whole == sets[i].len(),
{
    let a = sets[i];
    let b = sets[i + 1];
    hllset::bit_list_facts(a);
    hllset::bit_list_facts(b);
    share::transition_law(a, b);
    assert(a.intersect(b).union(a.difference(b)) =~= a);
    vstd::set_lib::lemma_len_intersect(a, b);
}

/// The steps of a series, one for each set but the first: how much of a set the one
/// before it covers, counted in bits of the later set, and how much the two share,
/// counted in bits of either.
pub proof fn steps_law(sets: Seq<Set<u32>>, i: int)
    requires
        0 <= i < sets.len() - 1,
        sets[i].finite(),
        sets[i + 1].finite(),
        sets[i].len() + sets[i + 1].len() <= u64::MAX,
    ensures
        steps_covered(sets).len() == sets.len() - 1,
        steps_shared(sets).len() == sets.len() - 1,
        steps_covered(sets)[i].whole == sets[i + 1].len(),
        steps_covered(sets)[i].part == sets[i + 1].filter(|x: u32| sets[i].contains(x)).len(),
        steps_shared(sets)[i].part == steps_covered(sets)[i].part,
        steps_shared(sets)[i].whole == sets[i].union(sets[i + 1]).len(),
        steps_shared(sets)[i].part + steps_shared(sets)[i].whole == sets[i].len() + sets[i + 1].len(),
{
    share::share_counts(sets[i], sets[i + 1]);
    vstd::set_lib::lemma_len_union(sets[i], sets[i + 1]);
}

/// A moving average at `t` is counted in the bits of the `w` sets that end at `t`: the
/// whole is the bits that some of them has, the part those that some of the `w` sets
/// ending one moment earlier has too. For a window of one it is the step of the
/// series.
pub proof fn window_step_law(sets: Seq<Set<u32>>, t: int, w: int, now: Set<u32>, before: Set<u32>)
    requires
        1 <= w < t <= sets.len(),
        forall|b: u32| #[trigger] now.contains(b) <==> exists|i: int| t - w <= i < t && (#[trigger] sets[i]).contains(b),
        forall|b: u32| #[trigger]
            before.contains(b) <==> exists|i: int| t - 1 - w <= i < t - 1 && (#[trigger] sets[i]).contains(b),
        now.finite(),
        now.len() <= u64::MAX,
    ensures
        window_step(sets, t, w).whole == now.len(),
        window_step(sets, t, w).part == now.filter(|x: u32| before.contains(x)).len(),
        w == 1 ==> window_step(sets, t, w) == steps_covered(sets)[t - 2],
{
    let late = sets.subrange(t - w, t);
    let early = sets.subrange(t - 1 - w, t - 1);
    share::cover_law(late);
    share::cover_law(early);
    assert forall|b: u32| share::cover(late).contains(b) == now.contains(b) by {
        if share::cover(late).contains(b) {
            let i = choose|i: int| 0 <= i < late.len() && (#[trigger] late[i]).contains(b);
            assert(sets[i + t - w].contains(b));
        }
        if now.contains(b) {
            let i = choose|i: int| t - w <= i < t && (#[trigger] sets[i]).contains(b);
            assert(late[i - (t - w)].contains(b));
        }
    }
    assert forall|b: u32| share::cover(early).contains(b) == before.contains(b) by {
        if share::cover(early).contains(b) {
            let i = choose|i: int| 0 <= i < early.len() && (#[trigger] early[i]).contains(b);
            assert(sets[i + t - 1 - w].contains(b));
        }
        if before.contains(b) {
            let i = choose|i: int| t - 1 - w <= i < t - 1 && (#[trigger] sets[i]).contains(b);
            assert(early[i - (t - 1 - w)].contains(b));
        }
    }
    assert(share::cover(late) =~= now);
    assert(share::cover(early) =~= before);
    let both = now.filter(|x: u32| before.contains(x));
    assert(before.intersect(now) =~= both);
    vstd::set_lib::lemma_len_subset(both, now);
    if w == 1 {
        assert(late =~= seq![sets[t - 1]]);
        assert(early =~= seq![sets[t - 2]]);
        assert(now =~= sets[t - 1]) by {
            assert forall|b: u32| now.contains(b) == sets[t - 1].contains(b) by {}
        }
        assert(before =~= sets[t - 2]) by {
            assert forall|b: u32| before.contains(b) == sets[t - 2].contains(b) by {}
        }
        assert(steps_covered(sets)[t - 2] == share::covered(sets[t - 2], sets[t - 2 + 1]));
    }
}

/// What left, stayed and came between two members of a series, bit by bit, with the
/// indicators: what left, of the later member; what came, of the earlier; and how much
/// of what stayed had stayed one step before.
pub proof fn noether_counts(out: NoetherOut, sets: Seq<Set<u32>>, i: int)
    requires
        out.follows(sets),
        0 <= i < step_count(sets),
        hllset::on_plane(sets[i]),
        hllset::on_plane(sets[i + 1]),
    ensures
        out.dp@.len() == sets.len() - 1,
        out.rp@.len() == sets.len() - 1,
        out.np@.len() == sets.len() - 1,
        out.ind1@.len() == sets.len() - 1,
        out.ind3@.len() == sets.len() - 1,
        out.ind2@.len() == sets.len() - 2,
        out.dp@[i] == sets[i].filter(|b: u32| !sets[i + 1].contains(b)).len(),
        out.rp@[i] == sets[i].filter(|b: u32| sets[i + 1].contains(b)).len(),
        out.np@[i] == sets[i + 1].filter(|b: u32| !sets[i].contains(b)).len(),
        out.ind1@[i].part == out.dp@[i],
        out.ind3@[i].part == out.np@[i],
        i > 0 && hllset::on_plane(sets[i - 1]) ==> {
            &&& out.ind2@[i - 1].whole == out.rp@[i]
            &&& out.ind2@[i - 1].part == sets[i].filter(|b: u32| sets[i + 1].contains(b) && sets[i - 1].contains(b)).len()
        },
{
    let a = sets[i];
    let b = sets[i + 1];
    hllset::bit_list_facts(a);
    hllset::bit_list_facts(b);
    noether_law(out, sets, i);
    assert(a.difference(b) =~= a.filter(|x: u32| !b.contains(x)));
    assert(a.intersect(b) =~= a.filter(|x: u32| b.contains(x)));
    assert(b.difference(a) =~= b.filter(|x: u32| !a.contains(x)));
    vstd::set_lib::lemma_len_subset(a.difference(b), a);
    vstd::set_lib::lemma_len_subset(a.intersect(b), a);
    vstd::set_lib::lemma_len_subset(b.difference(a), b);
    assert(out.dp@[i] == a.difference(b).len() as u64);
    assert(out.rp@[i] == a.intersect(b).len() as u64);
    assert(out.np@[i] == b.difference(a).len() as u64);
    if i > 0 && hllset::on_plane(sets[i - 1]) {
        let z = sets[i - 1];
        let j = i - 1;
        assert(out.ind2@[j] == share::covered(sets[j].intersect(sets[j + 1]), sets[j + 1].intersect(sets[j + 1 + 1])));
        assert(z.intersect(a).intersect(a.intersect(b)) =~= a.filter(|x: u32| b.contains(x) && z.contains(x)));
        vstd::set_lib::lemma_len_subset(a.filter(|x: u32| b.contains(x) && z.contains(x)), a);
    }
}

/// A sketch has the bits of its tokens under the three seeds, and no others.
pub proof fn sketch_law(tokens: Seq<String>, x: u32)
    ensures
        sketch_of(text_tokens(tokens)).contains(x) <==> exists|j: int, seed: u64|
            0 <= j < tokens.len() && seed < 3 && x == #[trigger] crate::hashing::token_bit(text::utf8(tokens[j]@), seed),
{
    let raw = text_tokens(tokens);
    if sketch_of(raw).contains(x) {
        let seed: u64 = if hllset::token_bits(raw, 0).contains(x) {
            0
        } else if hllset::token_bits(raw, 1).contains(x) {
            1
        } else {
            2
        };
        assert(hllset::token_bits(raw, seed).contains(x));
        let j = choose|j: int| 0 <= j < raw.len() && crate::hashing::token_bit(#[trigger] raw[j], seed) == x;
        assert(raw[j] == text::utf8(tokens[j]@));
        assert(x == crate::hashing::token_bit(text::utf8(tokens[j]@), seed));
    }
    if exists|j: int, seed: u64|
        0 <= j < tokens.len() && seed < 3 && x == #[trigger] crate::hashing::token_bit(text::utf8(tokens[j]@), seed) {
        let (j, seed) = choose|j: int, seed: u64|
            0 <= j < tokens.len() && seed < 3 && x == #[trigger] crate::hashing::token_bit(text::utf8(tokens[j]@), seed);
        assert(raw[j] == text::utf8(tokens[j]@));
        assert(hllset::token_bits(raw, seed).contains(x));
        assert(seed == 0 || seed == 1 || seed == 2);
    }
}

/// A series keeps of every frame the bits of its tokens under the three seeds, their
/// number, and the bits under the first seed alone.
pub proof fn series_law(s: FrameSet, i: int, x: u32)
    requires
        s.wf(),
        0 <= i < s.frames@.len(),
    ensures
        s.hllsets@[i]@.contains(x) <==> exists|j: int, seed: u64|
            0 <= j < s.frames@[i].tokens@.len() && seed < 3 && x == #[trigger] crate::hashing::token_bit(
                text::utf8(s.frames@[i].tokens@[j]@),
                seed,
            ),
        s.pops@[i] == s.hllsets@[i]@.len(),
        s.g1s@[i]@.contains(x) <==> exists|j: int|
            0 <= j < s.frames@[i].tokens@.len() && x == crate::hashing::token_bit(text::utf8((#[trigger] s.frames@[i].tokens@[j])@), 0),
{
    let tokens = s.frames@[i].tokens@;
    sketch_law(tokens, x);
    assert(s.hllsets@[i]@ == sketch_of(text_tokens(tokens)));
    assert(s.pops@[i] == s.hllsets@[i]@.len());
    assert(s.g1s@[i]@ == hllset::token_bits(text_tokens(tokens), 0));
    if s.g1s@[i]@.contains(x) {
        let j = choose|j: int|
            0 <= j < text_tokens(tokens).len() && crate::hashing::token_bit(#[trigger] text_tokens(tokens)[j], 0) == x;
        assert(text_tokens(tokens)[j] == text::utf8(tokens[j]@));
    }
    if exists|j: int| 0 <= j < tokens.len() && x == crate::hashing::token_bit(text::utf8((#[trigger] tokens[j])@), 0) {
        let j = choose|j: int| 0 <= j < tokens.len() && x == crate::hashing::token_bit(text::utf8((#[trigger] tokens[j])@), 0);
        assert(text_tokens(tokens)[j] == text::utf8(tokens[j]@));
    }
}

/// A window of one set is that set.
proof fn one_step(sets: Seq<Set<u32>>, t: int)
    requires
        2 <= t <= sets.len(),
    ensures
        window_step(sets, t, 1) == steps_covered(sets)[t - 2],
{
    reveal_with_fuel(share::cover, 2);
    assert(sets.subrange(t - 2, t - 1).drop_last() =~= Seq::<Set<u32>>::empty());
    assert(sets.subrange(t - 1, t).drop_last() =~= Seq::<Set<u32>>::empty());
    assert(share::cover(sets.subrange(t - 2, t - 1)) =~= sets[t - 2]);
    assert(share::cover(sets.subrange(t - 1, t)) =~= sets[t - 1]);
}

} // verus!
