//! Frames of several perceptrons, joined into one set each.

use vstd::prelude::*;

use crate::hllset::HLLSet;
use crate::scene::frames::NoetherOut;
use crate::scene::ring_series::SidecarOut;
use crate::text;
use crate::boolring;
use crate::hllset;
use crate::scene::frames;
use crate::scene::ring_series;
use crate::scene::share;

verus! {

/// What one perceptron saw.
#[derive(Clone, Debug, PartialEq, Eq)]
pub struct PerceptronTokens {
    pub name: String,
    pub tokens: Vec<String>,
}

/// What all perceptrons saw in one frame.
#[derive(Clone, Debug, PartialEq, Eq)]
pub struct PyramidFrame {
    pub id: u64,
    pub perceptrons: Vec<PerceptronTokens>,
}

/// The sketches of a frame: one for each perceptron, and their union.
#[derive(Clone, Debug, PartialEq, Eq)]
pub struct PyramidFrameState {
    pub id: u64,
    pub names: Vec<String>,
    pub hllsets: Vec<HLLSet>,
    pub keys: Vec<String>,
    pub pops: Vec<u64>,
    pub union_hll: HLLSet,
    pub union_key: String,
    pub union_pop: u64,
}

/// A series of frames: their sketches, what changed between their unions, and
/// those unions against their ring.
#[derive(Clone, Debug, PartialEq, Eq)]
pub struct PyramidOut {
    pub names: Vec<String>,
    pub frames: Vec<PyramidFrameState>,
    pub drn: NoetherOut,
    pub ring: SidecarOut,
}

/// The sketches of a frame's perceptrons.
pub open spec fn perceptron_sets(perceptrons: Seq<PerceptronTokens>) -> Seq<Set<u32>> {
    perceptrons.map_values(|p: PerceptronTokens| frames::sketch_of(frames::text_tokens(p.tokens@)))
}

/// The names of a frame's perceptrons.
pub open spec fn perceptron_names(perceptrons: Seq<PerceptronTokens>) -> Seq<Seq<char>> {
    perceptrons.map_values(|p: PerceptronTokens| p.name@)
}

/// The unions of a series of frames.
pub open spec fn frame_unions(frames: Seq<PyramidFrame>) -> Seq<Set<u32>> {
    frames.map_values(|f: PyramidFrame| share::cover(perceptron_sets(f.perceptrons@)))
}

impl PyramidFrameState {
    /// Whether the state is that of a frame.
    pub open spec fn sketches_frame(&self, frame: PyramidFrame) -> bool {
        let sets = perceptron_sets(frame.perceptrons@);
        &&& self.id == frame.id
        &&& text::texts(self.names@) == perceptron_names(frame.perceptrons@)
        &&& boolring::set_views(self.hllsets@) == sets
        &&& text::texts(self.keys@) == sets.map_values(|s: Set<u32>| hllset::combined_key_of(s))
        &&& self.pops@ == share::sizes(sets)
        &&& self.union_hll@ == share::cover(sets)
        &&& self.union_key@ == hllset::key_of(share::cover(sets))
        &&& self.union_pop == share::cover(sets).len()
    }
}

impl PyramidFrame {
    /// Sketches the frame.
    pub fn ingest(&self) -> (s: PyramidFrameState)
        ensures
            s.sketches_frame(*self),
    {
        let ghost sets = perceptron_sets(self.perceptrons@);
        let mut names: Vec<String> = Vec::new();
        let mut hllsets: Vec<HLLSet> = Vec::new();
        let mut keys: Vec<String> = Vec::new();
        let mut i: usize = 0;
        while i < self.perceptrons.len()
            invariant
                i <= self.perceptrons@.len(),
                sets == perceptron_sets(self.perceptrons@),
                names@.len() == i,
                hllsets@.len() == i,
                keys@.len() == i,
                forall|j: int| 0 <= j < i ==> (#[trigger] names@[j])@ == self.perceptrons@[j].name@,
                forall|j: int| 0 <= j < i ==> (#[trigger] hllsets@[j])@ == sets[j],
                forall|j: int| 0 <= j < i ==> (#[trigger] keys@[j])@ == hllset::combined_key_of(sets[j]),
            decreases self.perceptrons.len() - i,
        {
            let g = frames::ingest_texts(&self.perceptrons[i].tokens);
            keys.push(g.key());
            hllsets.push(g.projection());
            names.push(text::copy_str(self.perceptrons[i].name.as_str()));
            i = i + 1;
        }
        let pops = share::count_each(&hllsets);
        let union_hll = share::unite(hllsets.as_slice());
        proof {
            assert(text::texts(names@) =~= perceptron_names(self.perceptrons@));
            assert(boolring::set_views(hllsets@) =~= sets);
            assert(text::texts(keys@) =~= sets.map_values(|s: Set<u32>| hllset::combined_key_of(s)));
        }
        PyramidFrameState {
            id: self.id,
            names,
            hllsets,
            keys,
            pops,
            union_hll,
            union_key: union_hll.content_key(),
            union_pop: union_hll.popcount(),
        }
    }
}

/// Sketches a series of frames and follows their unions.
pub fn pyramid(frames: &[PyramidFrame], cap: usize, freeze: Option<usize>) -> (out: PyramidOut)
    requires
        frames@.len() > 0,
        2 * frames@.len() + 2 <= u64::MAX,
    ensures
        text::texts(out.names@) == perceptron_names(frames@[0].perceptrons@),
        out.frames@.len() == frames@.len(),
        forall|i: int| 0 <= i < frames@.len() ==> (#[trigger] out.frames@[i]).sketches_frame(frames@[i]),
        out.drn.follows(frame_unions(frames@)),
        out.ring.follows(
            frame_unions(frames@),
            if cap > 1 {
                cap as nat
            } else {
                1
            },
            freeze,
        ),
{
    let mut states: Vec<PyramidFrameState> = Vec::new();
    let mut unions: Vec<HLLSet> = Vec::new();
    let mut i: usize = 0;
    while i < frames.len()
        invariant
            i <= frames@.len(),
            states@.len() == i,
            unions@.len() == i,
            forall|j: int| 0 <= j < i ==> (#[trigger] states@[j]).sketches_frame(frames@[j]),
            forall|j: int| 0 <= j < i ==> (#[trigger] unions@[j])@ == share::cover(perceptron_sets(frames@[j].perceptrons@)),
        decreases frames.len() - i,
    {
        let state = frames[i].ingest();
        unions.push(state.union_hll);
        states.push(state);
        i = i + 1;
    }
    proof {
        assert(boolring::set_views(unions@) =~= frame_unions(frames@));
        assert(states@[0].sketches_frame(frames@[0]));
    }
    let drn = frames::noether_series(unions.as_slice());
    let ring = ring_series::sidecar_series(unions.as_slice(), cap, freeze);
    let names = text::copy_texts(&states[0].names);
    PyramidOut { names, frames: states, drn, ring }
}

/// A frame of perceptrons: each perceptron's sketch has the bits of its own tokens under
/// the three seeds, and the frame has exactly the bits that some perceptron has.
pub proof fn pyramid_law(s: PyramidFrameState, frame: PyramidFrame, i: int, x: u32)
    requires
        s.sketches_frame(frame),
        0 <= i < frame.perceptrons@.len(),
    ensures
        s.hllsets@.len() == frame.perceptrons@.len(),
        s.names@[i]@ == frame.perceptrons@[i].name@,
        s.hllsets@[i]@.contains(x) <==> exists|j: int, seed: u64|
            0 <= j < frame.perceptrons@[i].tokens@.len() && seed < 3 && x == #[trigger] crate::hashing::token_bit(
                text::utf8(frame.perceptrons@[i].tokens@[j]@),
                seed,
            ),
        s.union_hll@.contains(x) <==> exists|j: int| 0 <= j < s.hllsets@.len() && (#[trigger] s.hllsets@[j])@.contains(x),
        s.union_pop == s.union_hll@.len(),
{
    let sets = perceptron_sets(frame.perceptrons@);
    let tokens = frame.perceptrons@[i].tokens@;
    let raw = frames::text_tokens(tokens);
    assert(boolring::set_views(s.hllsets@)[i] == s.hllsets@[i]@);
    assert(sets[i] == frames::sketch_of(raw));
    assert(text::texts(s.names@).len() == s.names@.len());
    assert(perceptron_names(frame.perceptrons@).len() == frame.perceptrons@.len());
    assert(text::texts(s.names@)[i] == s.names@[i]@);
    frames::sketch_law(tokens, x);
    share::cover_law(sets);
    if s.union_hll@.contains(x) {
        let j = choose|j: int| 0 <= j < sets.len() && (#[trigger] sets[j]).contains(x);
        assert(boolring::set_views(s.hllsets@)[j] == s.hllsets@[j]@);
        assert(s.hllsets@[j]@.contains(x));
    }
    if exists|j: int| 0 <= j < s.hllsets@.len() && (#[trigger] s.hllsets@[j])@.contains(x) {
        let j = choose|j: int| 0 <= j < s.hllsets@.len() && (#[trigger] s.hllsets@[j])@.contains(x);
        assert(boolring::set_views(s.hllsets@)[j] == s.hllsets@[j]@);
        assert(sets[j].contains(x));
    }
}

} // verus!
