//! Sets read along named dimensions.

use vstd::prelude::*;

use crate::hllset::HLLSet;
use crate::scene::share::Share;
use crate::text;
use crate::hllset;
use crate::scene::frames;
use crate::scene::share;

verus! {

/// A named set to measure others by.
#[derive(Clone, Debug, PartialEq, Eq)]
pub struct Dimension {
    pub name: String,
    pub hll: HLLSet,
    /// The sketch over the first seed.
    pub g1: HLLSet,
}

/// One member of a stream along all dimensions.
#[derive(Clone, Debug, PartialEq, Eq)]
pub struct ProjectFrameOut {
    pub id: u64,
    /// The bits shared with each dimension.
    pub intersections: Vec<u64>,
    /// How much of each dimension the member covers.
    pub bss: Vec<Share>,
    /// The same over the first seed.
    pub bss_g1: Vec<Share>,
}

/// A stream along all dimensions.
#[derive(Clone, Debug, PartialEq, Eq)]
pub struct ProjectOut {
    pub names: Vec<String>,
    pub pops: Vec<u64>,
    pub frames: Vec<ProjectFrameOut>,
}

impl Dimension {
    /// The dimension of a list of tokens.
    pub fn from_tokens(name: String, tokens: &Vec<String>) -> (d: Dimension)
        ensures
            d.name == name,
            d.hll@ == frames::sketch_of(frames::text_tokens(tokens@)),
            d.g1@ == hllset::token_bits(frames::text_tokens(tokens@), 0),
    {
        let g = frames::ingest_texts(tokens);
        proof {
            assert(g.hllsets@[0]@ == hllset::token_bits(frames::text_tokens(tokens@), 0));
        }
        Dimension { name, hll: g.projection(), g1: *g.hllset(0) }
    }
}

/// How much of each dimension a set covers.
pub open spec fn read_along(x: Set<u32>, dims: Seq<Dimension>) -> Seq<Share> {
    dims.map_values(|d: Dimension| share::covered(x, d.hll@))
}

/// The same over the first seed.
pub open spec fn read_along_first(x: Set<u32>, dims: Seq<Dimension>) -> Seq<Share> {
    dims.map_values(|d: Dimension| share::covered(x, d.g1@))
}

impl ProjectFrameOut {
    /// Whether the frame reads a member along the dimensions.
    pub open spec fn reads(&self, x: Set<u32>, x_g1: Set<u32>, id: u64, dims: Seq<Dimension>) -> bool {
        &&& self.id == id
        &&& self.intersections@ == dims.map_values(|d: Dimension| x.intersect(d.hll@).len() as u64)
        &&& self.bss@ == read_along(x, dims)
        &&& self.bss_g1@ == read_along_first(x_g1, dims)
    }
}

fn project_one(x: &HLLSet, x_g1: &HLLSet, id: u64, dims: &[Dimension]) -> (f: ProjectFrameOut)
    ensures
        f.reads(x@, x_g1@, id, dims@),
{
    let mut intersections: Vec<u64> = Vec::new();
    let mut bss: Vec<Share> = Vec::new();
    let mut bss_g1: Vec<Share> = Vec::new();
    let mut i: usize = 0;
    while i < dims.len()
        invariant
            i <= dims@.len(),
            intersections@.len() == i,
            bss@.len() == i,
            bss_g1@.len() == i,
            forall|j: int| 0 <= j < i ==> #[trigger] intersections@[j] == x@.intersect(dims@[j].hll@).len(),
            forall|j: int| 0 <= j < i ==> #[trigger] bss@[j] == share::covered(x@, dims@[j].hll@),
            forall|j: int| 0 <= j < i ==> #[trigger] bss_g1@[j] == share::covered(x_g1@, dims@[j].g1@),
        decreases dims.len() - i,
    {
        let share = share::bss(x, &dims[i].hll);
        intersections.push(x.intersection(&dims[i].hll).popcount());
        bss.push(share);
        bss_g1.push(share::bss(x_g1, &dims[i].g1));
        i = i + 1;
    }
    proof {
        assert(intersections@ =~= dims@.map_values(|d: Dimension| x@.intersect(d.hll@).len() as u64));
        assert(bss@ =~= read_along(x@, dims@));
        assert(bss_g1@ =~= read_along_first(x_g1@, dims@));
    }
    ProjectFrameOut { id, intersections, bss, bss_g1 }
}

/// Reads a stream along the dimensions.
pub fn project(hllsets: &[HLLSet], g1s: &[HLLSet], ids: &[u64], dims: &[Dimension]) -> (out: ProjectOut)
    requires
        hllsets@.len() == ids@.len(),
        hllsets@.len() == g1s@.len(),
    ensures
        text::texts(out.names@) == dims@.map_values(|d: Dimension| d.name@),
        out.pops@ == dims@.map_values(|d: Dimension| d.hll@.len() as u64),
        out.frames@.len() == hllsets@.len(),
        forall|i: int|
            0 <= i < hllsets@.len() ==> (#[trigger] out.frames@[i]).reads(hllsets@[i]@, g1s@[i]@, ids@[i], dims@),
{
    let mut names: Vec<String> = Vec::new();
    let mut pops: Vec<u64> = Vec::new();
    let mut i: usize = 0;
    while i < dims.len()
        invariant
            i <= dims@.len(),
            names@.len() == i,
            pops@.len() == i,
            forall|j: int| 0 <= j < i ==> (#[trigger] names@[j])@ == dims@[j].name@,
            forall|j: int| 0 <= j < i ==> #[trigger] pops@[j] == dims@[j].hll@.len(),
        decreases dims.len() - i,
    {
        names.push(text::copy_str(dims[i].name.as_str()));
        pops.push(dims[i].hll.popcount());
        i = i + 1;
    }
    let mut frames: Vec<ProjectFrameOut> = Vec::new();
    let mut k: usize = 0;
    while k < hllsets.len()
        invariant
            k <= hllsets@.len(),
            hllsets@.len() == ids@.len(),
            hllsets@.len() == g1s@.len(),
            frames@.len() == k,
            forall|j: int|
                0 <= j < k ==> (#[trigger] frames@[j]).reads(hllsets@[j]@, g1s@[j]@, ids@[j], dims@),
        decreases hllsets.len() - k,
    {
        frames.push(project_one(&hllsets[k], &g1s[k], ids[k], dims));
        k = k + 1;
    }
    proof {
        assert(text::texts(names@) =~= dims@.map_values(|d: Dimension| d.name@));
        assert(pops@ =~= dims@.map_values(|d: Dimension| d.hll@.len() as u64));
    }
    ProjectOut { names, pops, frames }
}

/// A member read along a dimension is counted in bits of the dimension: the whole is
/// all of them, the part those that the member has.
pub proof fn projection_law(f: ProjectFrameOut, x: Set<u32>, x_g1: Set<u32>, id: u64, dims: Seq<Dimension>, i: int)
    requires
        f.reads(x, x_g1, id, dims),
        0 <= i < dims.len(),
        dims[i].hll@.finite(),
        dims[i].hll@.len() <= u64::MAX,
        dims[i].g1@.finite(),
        dims[i].g1@.len() <= u64::MAX,
    ensures
        f.intersections@.len() == dims.len(),
        f.bss@.len() == dims.len(),
        f.bss_g1@.len() == dims.len(),
        f.bss@[i].whole == dims[i].hll@.len(),
        f.bss@[i].part == dims[i].hll@.filter(|b: u32| x.contains(b)).len(),
        f.intersections@[i] == f.bss@[i].part,
        f.bss_g1@[i].whole == dims[i].g1@.len(),
        f.bss_g1@[i].part == dims[i].g1@.filter(|b: u32| x_g1.contains(b)).len(),
{
    let d = dims[i];
    assert(x.intersect(d.hll@) =~= d.hll@.filter(|b: u32| x.contains(b)));
    assert(x_g1.intersect(d.g1@) =~= d.g1@.filter(|b: u32| x_g1.contains(b)));
    vstd::set_lib::lemma_len_subset(d.hll@.filter(|b: u32| x.contains(b)), d.hll@);
    vstd::set_lib::lemma_len_subset(d.g1@.filter(|b: u32| x_g1.contains(b)), d.g1@);
    assert(f.bss@[i] == share::covered(x, d.hll@));
    assert(f.bss_g1@[i] == share::covered(x_g1, d.g1@));
}

} // verus!
