//! Frames restored from their sketches.

use vstd::prelude::*;
use vstd::utf8::*;

use crate::hllset::HLLSet;
use crate::lut::TokenSet;
use crate::morphisms::api::Ingested;
use crate::morphisms::api::PAD;
use crate::morphisms::grid::Grid;
use crate::morphisms::grid::GridIngested;
use crate::morphisms::tensor::Tensor;
use crate::morphisms::tensor::TensorIngested;
use crate::scene::frames::Frame;
use crate::text;
use crate::hllset;
use crate::lut;
use crate::morphisms::api;
use crate::morphisms::grid;
use crate::morphisms::materialize;
use crate::morphisms::tensor;
use crate::scene::frames;

verus! {

/// A frame restored from its sketches.
#[derive(Clone, Debug, PartialEq, Eq)]
pub struct Restored {
    pub id: u64,
    /// The tokens in the order that the walk finds.
    pub ordered: Vec<String>,
    /// The tokens without order, ascending.
    pub set: Vec<String>,
    /// The tokens in the order that the beam finds.
    pub beam2: Vec<String>,
}

/// Whether every token is a text.
pub open spec fn all_texts(tokens: Seq<Seq<u8>>) -> bool {
    forall|i: int| 0 <= i < tokens.len() ==> valid_utf8(#[trigger] tokens[i])
}

/// The bytes of texts are texts.
pub proof fn texts_are_texts(tokens: Seq<String>)
    ensures
        all_texts(frames::text_tokens(tokens)),
{
    assert forall|i: int| 0 <= i < tokens.len() implies valid_utf8(#[trigger] frames::text_tokens(tokens)[i]) by {
        encode_utf8_valid_utf8(tokens[i]@);
    }
}

/// Tokens that are among texts are texts.
pub proof fn texts_among(tokens: Seq<Seq<u8>>, all: Seq<Seq<u8>>)
    requires
        all_texts(all),
        forall|t: Seq<u8>| #[trigger] tokens.contains(t) ==> all.contains(t),
    ensures
        all_texts(tokens),
{
    assert forall|i: int| 0 <= i < tokens.len() implies valid_utf8(#[trigger] tokens[i]) by {
        assert(tokens.contains(tokens[i]));
        let j = choose|j: int| 0 <= j < all.len() && all[j] == tokens[i];
        assert(valid_utf8(all[j]));
    }
}

/// What is a rearrangement of tokens, or their ascending list, holds nothing else.
proof fn rearranged_members(out: Seq<Seq<u8>>, tokens: Seq<Seq<u8>>)
    requires
        out.to_multiset() == tokens.to_multiset() || out == api::listing(tokens.to_set()),
    ensures
        forall|t: Seq<u8>| #[trigger] out.contains(t) ==> tokens.contains(t),
{
    assert forall|t: Seq<u8>| #[trigger] out.contains(t) implies tokens.contains(t) by {
        if out.to_multiset() == tokens.to_multiset() {
            out.to_multiset_ensures();
            tokens.to_multiset_ensures();
            assert(tokens.to_multiset().count(t) > 0);
        } else {
            vstd::seq_lib::seq_to_set_is_finite(tokens);
            api::listing_exists(tokens.to_set());
            assert(out.to_set().contains(t));
        }
    }
}

/// The texts of tokens.
pub fn texts_of_tokens(tokens: &Vec<Vec<u8>>) -> (out: Vec<String>)
    ensures
        out@.len() == tokens@.len(),
        text::texts(out@) == hllset::token_views(tokens@).map_values(|t: Seq<u8>| text::lossy(t)),
        all_texts(hllset::token_views(tokens@)) ==> frames::text_tokens(out@) == hllset::token_views(tokens@),
{
    let mut out: Vec<String> = Vec::new();
    let mut i: usize = 0;
    while i < tokens.len()
        invariant
            i <= tokens@.len(),
            out@.len() == i,
            forall|j: int| 0 <= j < i ==> (#[trigger] out@[j])@ == text::lossy(tokens@[j]@),
            forall|j: int| 0 <= j < i && valid_utf8(tokens@[j]@) ==> text::utf8((#[trigger] out@[j])@) == tokens@[j]@,
        decreases tokens.len() - i,
    {
        out.push(text::from_utf8_lossy(tokens[i].as_slice()));
        i = i + 1;
    }
    proof {
        let views = hllset::token_views(tokens@);
        assert(text::texts(out@) =~= views.map_values(|t: Seq<u8>| text::lossy(t)));
        if all_texts(views) {
            assert forall|j: int| 0 <= j < out@.len() implies #[trigger] frames::text_tokens(out@)[j] == views[j] by {
                assert(valid_utf8(views[j]));
                assert(text::utf8(out@[j]@) == tokens@[j]@);
            }
            assert(frames::text_tokens(out@) =~= views);
        }
    }
    out
}

/// Whether the sketches of a list of tokens are restored to this, with this beam.
pub open spec fn restored_to(r: Restored, tokens: Seq<Seq<u8>>, beam: nat) -> bool {
    exists|g: Ingested|
        #[trigger] api::ingest_of(g, tokens, PAD@) && frames::text_tokens(r.ordered@) == api::ordered(g, 1) && frames::text_tokens(r.set@)
            == api::listing(tokens.to_set()) && frames::text_tokens(r.beam2@) == api::ordered(g, beam)
}

/// Restores a frame, with a beam of two.
pub fn restore(frame: &Frame) -> (r: Restored)
    requires
        frame.tokens@.len() + 3 <= usize::MAX,
    ensures
        r.id == frame.id,
        restored_to(r, frames::text_tokens(frame.tokens@), 2),
{
    restore_with(frame, 2)
}

/// Restores a frame.
pub fn restore_with(frame: &Frame, beam: usize) -> (r: Restored)
    requires
        frame.tokens@.len() + 3 <= usize::MAX,
    ensures
        r.id == frame.id,
        restored_to(
            r,
            frames::text_tokens(frame.tokens@),
            if beam > 1 {
                beam as nat
            } else {
                1
            },
        ),
{
    let bytes = frames::bytes_of_texts(&frame.tokens);
    let g = api::ingest(&bytes);
    let width: usize = if beam > 1 {
        beam
    } else {
        1
    };
    let wide = api::materialize_beam(&g, width);
    let deep = api::materialize(&g);
    let plain = api::materialize_no_order(&g);
    let list = plain.to_vec();
    proof {
        let tokens = frames::text_tokens(frame.tokens@);
        texts_are_texts(frame.tokens@);
        api::restoration_law(g, tokens, PAD@, width as nat);
        api::restoration_law(g, tokens, PAD@, 1);
        rearranged_members(api::ordered(g, width as nat), tokens);
        rearranged_members(api::ordered(g, 1), tokens);
        texts_among(hllset::token_views(wide@), tokens);
        texts_among(hllset::token_views(deep@), tokens);
        api::unordered_law(g, tokens, PAD@);
        api::listing_is(&plain);
        rearranged_members(api::listing(tokens.to_set()), tokens);
        texts_among(hllset::token_views(list@), tokens);
        assert(api::ingest_of(g, tokens, PAD@));
    }
    Restored {
        id: frame.id,
        ordered: texts_of_tokens(&deep),
        set: texts_of_tokens(&list),
        beam2: texts_of_tokens(&wide),
    }
}

/// A frame of tokens in rows and columns.
#[derive(Clone, Debug, PartialEq, Eq)]
pub struct GridFrame {
    pub id: u64,
    pub width: usize,
    pub height: usize,
    pub tokens: Vec<String>,
}

impl GridFrame {
    /// The tokens fill the grid, and the grid can be padded.
    pub open spec fn wf(&self) -> bool {
        &&& self.tokens.len() == self.width * self.height
        &&& self.width + 6 <= usize::MAX
        &&& self.height + 6 <= usize::MAX
    }

    /// Whether the tokens fill the grid, and the grid can be padded.
    pub fn fills(&self) -> (yes: bool)
        ensures
            yes == self.wf(),
    {
        if self.width > usize::MAX - 6 || self.height > usize::MAX - 6 {
            return false;
        }
        match self.width.checked_mul(self.height) {
            Some(n) => self.tokens.len() == n,
            None => false,
        }
    }
}

/// A grid restored from its sketches.
#[derive(Clone, Debug, PartialEq, Eq)]
pub struct GridRestored {
    pub id: u64,
    pub width: usize,
    pub height: usize,
    pub ordered: Vec<String>,
    pub set: Vec<String>,
    pub beam2: Vec<String>,
}

/// Whether the sketches of a grid are restored to this, with this beam.
pub open spec fn grid_restored_to(r: GridRestored, cells: Seq<Seq<u8>>, w: int, h: int, beam: nat) -> bool {
    exists|g: GridIngested|
        #[trigger] grid::grid_ingest_of(g, cells, w, h, PAD@) && frames::text_tokens(r.ordered@) == grid::placed_from(
            g,
            api::listing(g.unordered()),
            1,
        ) && frames::text_tokens(r.set@) == api::listing(cells.to_set()) && frames::text_tokens(r.beam2@) == grid::placed_from(
            g,
            api::listing(g.unordered()),
            beam,
        )
}

/// Restores a grid, with a beam of two.
pub fn grid_restore(frame: &GridFrame) -> (r: GridRestored)
    requires
        frame.wf(),
        frame.tokens@.len() < usize::MAX,
    ensures
        r.id == frame.id,
        r.width == frame.width,
        r.height == frame.height,
        grid_restored_to(r, frames::text_tokens(frame.tokens@), frame.width as int, frame.height as int, 2),
{
    grid_restore_with(frame, 2)
}

/// The grid of a frame.
fn grid_of_frame(frame: &GridFrame) -> (grid: Grid)
    requires
        frame.wf(),
    ensures
        grid.wf(),
        grid.width == frame.width,
        grid.height == frame.height,
        hllset::token_views(grid.cells@) == frames::text_tokens(frame.tokens@),
{
    let cells = frames::bytes_of_texts(&frame.tokens);
    Grid::new(frame.width, frame.height, cells)
}

/// Restores a grid.
pub fn grid_restore_with(frame: &GridFrame, beam: usize) -> (r: GridRestored)
    requires
        frame.wf(),
        beam > 1 ==> frame.tokens@.len() < usize::MAX,
    ensures
        r.id == frame.id,
        r.width == frame.width,
        r.height == frame.height,
        grid_restored_to(
            r,
            frames::text_tokens(frame.tokens@),
            frame.width as int,
            frame.height as int,
            if beam > 1 {
                beam as nat
            } else {
                1
            },
        ),
{
    let grid = grid_of_frame(frame);
    let g = grid::ingest_grid(&grid);
    let width: usize = if beam > 1 {
        beam
    } else {
        1
    };
    let deep = grid::materialize_grid(&g);
    let wide = grid::materialize_grid_beam(&g, width);
    let plain = grid::materialize_grid_no_order(&g);
    let list = plain.to_vec();
    proof {
        let cells = frames::text_tokens(frame.tokens@);
        let w = frame.width as int;
        let h = frame.height as int;
        texts_are_texts(frame.tokens@);
        grid::grid_restoration_law(g, cells, w, h, PAD@, width as nat);
        grid::grid_restoration_law(g, cells, w, h, PAD@, 1);
        rearranged_members(hllset::token_views(wide.cells@), cells);
        rearranged_members(hllset::token_views(deep.cells@), cells);
        texts_among(hllset::token_views(wide.cells@), cells);
        texts_among(hllset::token_views(deep.cells@), cells);
        grid::grid_unordered_law(g, cells, w, h, PAD@);
        api::listing_is(&plain);
        rearranged_members(api::listing(cells.to_set()), cells);
        texts_among(hllset::token_views(list@), cells);
        assert(grid::grid_ingest_of(g, cells, w, h, PAD@));
    }
    GridRestored {
        id: frame.id,
        width: frame.width,
        height: frame.height,
        ordered: texts_of_tokens(&deep.cells),
        set: texts_of_tokens(&list),
        beam2: texts_of_tokens(&wide.cells),
    }
}

/// A frame of tokens along any number of axes.
#[derive(Clone, Debug, PartialEq, Eq)]
pub struct TensorFrame {
    pub id: u64,
    pub shape: Vec<usize>,
    pub tokens: Vec<String>,
}

/// The number of cells of the first axes.
proof fn volume_steps(shape: Seq<usize>, k: int)
    requires
        0 <= k < shape.len(),
    ensures
        tensor::volume(shape.take(k + 1)) == tensor::volume(shape.take(k)) * shape[k],
        tensor::volume(shape.take(0)) == 1,
{
    assert(shape.take(k + 1).drop_last() =~= shape.take(k));
}

/// With an empty axis there are no cells; else the first axes have no more cells
/// than all.
proof fn volume_of_part(shape: Seq<usize>, k: int)
    requires
        0 <= k <= shape.len(),
    ensures
        (exists|a: int| k <= a < shape.len() && #[trigger] shape[a] == 0) ==> tensor::volume(shape) == 0,
        (forall|a: int| k <= a < shape.len() ==> #[trigger] shape[a] > 0) ==> tensor::volume(shape.take(k)) <= tensor::volume(shape),
    decreases shape.len() - k,
{
    if k == shape.len() {
        assert(shape.take(k) =~= shape);
    } else {
        volume_of_part(shape, k + 1);
        volume_steps(shape, k);
        let v = tensor::volume(shape.take(k));
        let d = shape[k] as nat;
        if shape[k] == 0 {
            assert(v * d == 0) by (nonlinear_arith)
                requires
                    d == 0,
            ;
            nothing_more(shape, k + 1);
        } else {
            assert(v <= v * d) by (nonlinear_arith)
                requires
                    d >= 1,
            ;
        }
    }
}

proof fn nothing_more(shape: Seq<usize>, k: int)
    requires
        0 <= k <= shape.len(),
        tensor::volume(shape.take(k)) == 0,
    ensures
        tensor::volume(shape) == 0,
    decreases shape.len() - k,
{
    if k == shape.len() {
        assert(shape.take(k) =~= shape);
    } else {
        volume_steps(shape, k);
        assert(tensor::volume(shape.take(k)) * shape[k] == 0) by (nonlinear_arith)
            requires
                tensor::volume(shape.take(k)) == 0,
        ;
        nothing_more(shape, k + 1);
    }
}

/// The number of cells of a shape, where a `usize` can count them.
pub fn count_cells(shape: &Vec<usize>) -> (n: Option<usize>)
    ensures
        n is Some <==> tensor::volume(shape@) <= usize::MAX,
        n is Some ==> n->0 == tensor::volume(shape@),
{
    let mut i: usize = 0;
    while i < shape.len()
        invariant
            i <= shape@.len(),
            forall|a: int| 0 <= a < i ==> #[trigger] shape@[a] > 0,
        decreases shape.len() - i,
    {
        if shape[i] == 0 {
            proof {
                volume_of_part(shape@, 0);
            }
            return Some(0);
        }
        i = i + 1;
    }
    let mut n: usize = 1;
    let mut k: usize = 0;
    while k < shape.len()
        invariant
            k <= shape@.len(),
            n == tensor::volume(shape@.take(k as int)),
            forall|a: int| 0 <= a < shape@.len() ==> #[trigger] shape@[a] > 0,
        decreases shape.len() - k,
    {
        proof {
            volume_steps(shape@, k as int);
            volume_of_part(shape@, k + 1);
        }
        match n.checked_mul(shape[k]) {
            Some(m) => {
                n = m;
            },
            None => {
                return None;
            },
        }
        k = k + 1;
    }
    proof {
        assert(shape@.take(k as int) =~= shape@);
    }
    Some(n)
}

/// Whether the padded sizes and the largest windows of a shape can be counted.
pub fn sizes_count(shape: &Vec<usize>) -> (yes: bool)
    ensures
        yes == tensor::sizes_fit(shape@),
{
    let mut c: usize = 1;
    let mut i: usize = 0;
    while i < shape.len()
        invariant
            i <= shape@.len(),
            c == tensor::cube(4, i as nat),
            forall|a: int| 0 <= a < i ==> #[trigger] shape@[a] + 6 <= usize::MAX,
        decreases shape.len() - i,
    {
        proof {
            fours_grow(i as nat + 1, shape@.len());
        }
        if shape[i] > usize::MAX - 6 {
            return false;
        }
        match c.checked_mul(4) {
            Some(m) => {
                c = m;
            },
            None => {
                return false;
            },
        }
        i = i + 1;
    }
    true
}

proof fn fours_grow(d: nat, e: nat)
    requires
        1 <= d <= e,
    ensures
        tensor::cube(4, d) == 4 * tensor::cube(4, (d - 1) as nat),
        tensor::cube(4, d) <= tensor::cube(4, e),
    decreases e,
{
    if d < e {
        fours_grow(d, (e - 1) as nat);
        assert(tensor::cube(4, e) == 4 * tensor::cube(4, (e - 1) as nat));
    }
}

impl TensorFrame {
    /// The tokens fill the shape, and the shape can be padded.
    pub open spec fn wf(&self) -> bool {
        &&& self.tokens.len() == tensor::volume(self.shape@)
        &&& self.tokens@.len() > 0 ==> tensor::sizes_fit(self.shape@)
    }

    /// Whether the tokens fill the shape, and the shape can be padded.
    pub fn fills(&self) -> (yes: bool)
        ensures
            yes == self.wf(),
    {
        match count_cells(&self.shape) {
            Some(n) => self.tokens.len() == n && (n == 0 || sizes_count(&self.shape)),
            None => false,
        }
    }
}

/// A tensor restored from its sketches.
#[derive(Clone, Debug, PartialEq, Eq)]
pub struct TensorRestored {
    pub id: u64,
    pub shape: Vec<usize>,
    pub ordered: Vec<String>,
    pub set: Vec<String>,
    pub beam2: Vec<String>,
}

/// Whether the sketches of a tensor are restored to this, with this beam.
pub open spec fn tensor_restored_to(r: TensorRestored, cells: Seq<Seq<u8>>, shape: Seq<usize>, beam: nat) -> bool {
    exists|g: TensorIngested|
        #[trigger] tensor::tensor_ingest_of(g, cells, shape, PAD@) && frames::text_tokens(r.ordered@) == grid::placed_from(
            g,
            api::listing(g.unordered()),
            1,
        ) && frames::text_tokens(r.set@) == api::listing(cells.to_set()) && frames::text_tokens(r.beam2@) == grid::placed_from(
            g,
            api::listing(g.unordered()),
            beam,
        )
}

/// Restores a tensor.
pub fn tensor_restore_with(frame: &TensorFrame, beam: usize) -> (r: TensorRestored)
    requires
        frame.wf(),
        beam > 1 ==> frame.tokens@.len() < usize::MAX,
    ensures
        r.id == frame.id,
        r.shape@ == frame.shape@,
        tensor_restored_to(
            r,
            frames::text_tokens(frame.tokens@),
            frame.shape@,
            if beam > 1 {
                beam as nat
            } else {
                1
            },
        ),
{
    let cells = frames::bytes_of_texts(&frame.tokens);
    let tensor = Tensor::new(vstd::slice::slice_to_vec(frame.shape.as_slice()), cells);
    let g = tensor::ingest_tensor(&tensor);
    let width: usize = if beam > 1 {
        beam
    } else {
        1
    };
    let deep = tensor::materialize_tensor(&g);
    let wide = tensor::materialize_tensor_beam(&g, width);
    let plain = tensor::materialize_tensor_no_order(&g);
    let list = plain.to_vec();
    proof {
        let cells = frames::text_tokens(frame.tokens@);
        let shape = frame.shape@;
        texts_are_texts(frame.tokens@);
        tensor::tensor_restoration_law(g, cells, shape, PAD@, width as nat);
        tensor::tensor_restoration_law(g, cells, shape, PAD@, 1);
        rearranged_members(hllset::token_views(wide.cells@), cells);
        rearranged_members(hllset::token_views(deep.cells@), cells);
        texts_among(hllset::token_views(wide.cells@), cells);
        texts_among(hllset::token_views(deep.cells@), cells);
        tensor::tensor_unordered_law(g, cells, shape, PAD@);
        api::listing_is(&plain);
        rearranged_members(api::listing(cells.to_set()), cells);
        texts_among(hllset::token_views(list@), cells);
        assert(tensor::tensor_ingest_of(g, cells, shape, PAD@));
    }
    TensorRestored {
        id: frame.id,
        shape: vstd::slice::slice_to_vec(frame.shape.as_slice()),
        ordered: texts_of_tokens(&deep.cells),
        set: texts_of_tokens(&list),
        beam2: texts_of_tokens(&wide.cells),
    }
}

/// What left, stayed and came between two grids: the tokens, and the bits in each
/// of the four channels.
#[derive(Clone, Debug, PartialEq, Eq)]
pub struct Subframes {
    /// The ids of the two frames.
    pub pair: [u64; 2],
    pub departed: Vec<String>,
    pub retained: Vec<String>,
    pub new: Vec<String>,
    pub dp: [u64; 4],
    pub rp: [u64; 4],
    pub np: [u64; 4],
}

/// The channels of two grids, compared.
pub open spec fn split_between(s: Subframes, a: GridIngested, b: GridIngested) -> bool {
    let left = a.channels@[0]@.difference(b.channels@[0]@);
    let stayed = a.channels@[0]@.intersect(b.channels@[0]@);
    let came = b.channels@[0]@.difference(a.channels@[0]@);
    &&& frames::text_tokens(s.departed@) == api::listing(lut::selected(left, a.luts@[0]@))
    &&& frames::text_tokens(s.retained@) == api::listing(lut::selected(stayed, a.luts@[0]@))
    &&& frames::text_tokens(s.new@) == api::listing(lut::selected(came, b.luts@[0]@))
    &&& forall|c: int| 0 <= c < 4 ==> #[trigger] s.dp@[c] == a.channels@[c]@.difference(b.channels@[c]@).len()
    &&& forall|c: int| 0 <= c < 4 ==> #[trigger] s.rp@[c] == a.channels@[c]@.intersect(b.channels@[c]@).len()
    &&& forall|c: int| 0 <= c < 4 ==> #[trigger] s.np@[c] == b.channels@[c]@.difference(a.channels@[c]@).len()
}

/// The tokens of some bits of a grid's first channel, as texts.
fn texts_behind(sketch: &HLLSet, g: &GridIngested, frame: &GridFrame) -> (out: Vec<String>)
    requires
        frame.wf(),
        grid::grid_ingest_of(
            *g,
            frames::text_tokens(frame.tokens@),
            frame.width as int,
            frame.height as int,
            PAD@,
        ),
        sketch@.subset_of(g.channels@[0]@),
    ensures
        frames::text_tokens(out@) == api::listing(lut::selected(sketch@, g.luts@[0]@)),
{
    let mut tokens = TokenSet::new();
    lut::select_into(&mut tokens, sketch, &g.luts[0]);
    let list = tokens.to_vec();
    proof {
        let cells = frames::text_tokens(frame.tokens@);
        let chosen = lut::selected(sketch@, g.luts@[0]@);
        assert(tokens@ =~= chosen);
        api::listing_is(&tokens);
        texts_are_texts(frame.tokens@);
        grid::grid_unordered_law(*g, cells, frame.width as int, frame.height as int, PAD@);
        assert forall|t: Seq<u8>| #[trigger] hllset::token_views(list@).contains(t) implies cells.contains(t) by {
            assert(api::listing(chosen).to_set().contains(t));
            materialize::selection_monotone(sketch@, g.luts@[0]@, g.channels@[0]@, g.luts@[0]@);
            assert(lut::selected(g.channels@[0]@, g.luts@[0]@).contains(t));
            assert(g.unordered().contains(t));
            assert(cells.to_set().contains(t));
        }
        texts_among(hllset::token_views(list@), cells);
    }
    texts_of_tokens(&list)
}

/// What left, stayed and came between two grids.
pub fn subframes(a: &GridFrame, b: &GridFrame) -> (s: Subframes)
    requires
        a.wf(),
        b.wf(),
    ensures
        s.pair@ == seq![a.id, b.id],
        exists|ga: GridIngested, gb: GridIngested|
            #[trigger] grid::grid_ingest_of(ga, frames::text_tokens(a.tokens@), a.width as int, a.height as int, PAD@)
                && #[trigger] grid::grid_ingest_of(gb, frames::text_tokens(b.tokens@), b.width as int, b.height as int, PAD@)
                && split_between(s, ga, gb),
{
    let ia = grid::ingest_grid(&grid_of_frame(a));
    let ib = grid::ingest_grid(&grid_of_frame(b));
    let d1 = ia.channels[0].difference(&ib.channels[0]);
    let r1 = ia.channels[0].intersection(&ib.channels[0]);
    let n1 = ib.channels[0].difference(&ia.channels[0]);
    let departed = texts_behind(&d1, &ia, a);
    let retained = texts_behind(&r1, &ia, a);
    let new = texts_behind(&n1, &ib, b);
    let mut dp: [u64; 4] = [0, 0, 0, 0];
    let mut rp: [u64; 4] = [0, 0, 0, 0];
    let mut np: [u64; 4] = [0, 0, 0, 0];
    let mut c: usize = 0;
    while c < 4
        invariant
            c <= 4,
            forall|j: int|
                0 <= j < c ==> #[trigger] dp@[j] == ia.channels@[j]@.difference(ib.channels@[j]@).len(),
            forall|j: int| 0 <= j < c ==> #[trigger] rp@[j] == ia.channels@[j]@.intersect(ib.channels@[j]@).len(),
            forall|j: int|
                0 <= j < c ==> #[trigger] np@[j] == ib.channels@[j]@.difference(ia.channels@[j]@).len(),
        decreases 4 - c,
    {
        dp[c] = ia.channels[c].difference(&ib.channels[c]).popcount();
        rp[c] = ia.channels[c].intersection(&ib.channels[c]).popcount();
        np[c] = ib.channels[c].difference(&ia.channels[c]).popcount();
        c = c + 1;
    }
    let s = Subframes { pair: [a.id, b.id], departed, retained, new, dp, rp, np };
    proof {
        assert(s.pair@ =~= seq![a.id, b.id]);
        assert(split_between(s, ia, ib));
    }
    s
}

/// How two grids are told apart: the tokens behind the bits that only the first has, that
/// both have, and that only the second has, and the numbers of such bits in each channel.
pub proof fn split_law(s: Subframes, a: GridIngested, b: GridIngested, t: Seq<u8>, c: int)
    requires
        split_between(s, a, b),
        0 <= c < 4,
        lut::selected(a.channels@[0]@, a.luts@[0]@).finite(),
        lut::selected(b.channels@[0]@, b.luts@[0]@).finite(),
    ensures
        frames::text_tokens(s.departed@).contains(t) <==> exists|x: u32| #[trigger]
            a.channels@[0]@.contains(x) && !b.channels@[0]@.contains(x) && a.luts@[0]@.contains((x, t)),
        frames::text_tokens(s.retained@).contains(t) <==> exists|x: u32| #[trigger]
            a.channels@[0]@.contains(x) && b.channels@[0]@.contains(x) && a.luts@[0]@.contains((x, t)),
        frames::text_tokens(s.new@).contains(t) <==> exists|x: u32| #[trigger]
            b.channels@[0]@.contains(x) && !a.channels@[0]@.contains(x) && b.luts@[0]@.contains((x, t)),
        s.dp@[c] == a.channels@[c]@.filter(|x: u32| !b.channels@[c]@.contains(x)).len(),
        s.rp@[c] == a.channels@[c]@.filter(|x: u32| b.channels@[c]@.contains(x)).len(),
        s.np@[c] == b.channels@[c]@.filter(|x: u32| !a.channels@[c]@.contains(x)).len(),
{
    let p = a.channels@[0]@;
    let q = b.channels@[0]@;
    part_listed(p.difference(q), p, a.luts@[0]@, t);
    part_listed(p.intersect(q), p, a.luts@[0]@, t);
    part_listed(q.difference(p), q, b.luts@[0]@, t);
    if exists|x: u32| #[trigger] p.difference(q).contains(x) && a.luts@[0]@.contains((x, t)) {
        let x = choose|x: u32| #[trigger] p.difference(q).contains(x) && a.luts@[0]@.contains((x, t));
        assert(p.contains(x));
    }
    if exists|x: u32| #[trigger] p.contains(x) && !q.contains(x) && a.luts@[0]@.contains((x, t)) {
        let x = choose|x: u32| #[trigger] p.contains(x) && !q.contains(x) && a.luts@[0]@.contains((x, t));
        assert(p.difference(q).contains(x));
    }
    if exists|x: u32| #[trigger] p.intersect(q).contains(x) && a.luts@[0]@.contains((x, t)) {
        let x = choose|x: u32| #[trigger] p.intersect(q).contains(x) && a.luts@[0]@.contains((x, t));
        assert(p.contains(x));
    }
    if exists|x: u32| #[trigger] p.contains(x) && q.contains(x) && a.luts@[0]@.contains((x, t)) {
        let x = choose|x: u32| #[trigger] p.contains(x) && q.contains(x) && a.luts@[0]@.contains((x, t));
        assert(p.intersect(q).contains(x));
    }
    if exists|x: u32| #[trigger] q.difference(p).contains(x) && b.luts@[0]@.contains((x, t)) {
        let x = choose|x: u32| #[trigger] q.difference(p).contains(x) && b.luts@[0]@.contains((x, t));
        assert(q.contains(x));
    }
    if exists|x: u32| #[trigger] q.contains(x) && !p.contains(x) && b.luts@[0]@.contains((x, t)) {
        let x = choose|x: u32| #[trigger] q.contains(x) && !p.contains(x) && b.luts@[0]@.contains((x, t));
        assert(q.difference(p).contains(x));
    }
    let u = a.channels@[c]@;
    let v = b.channels@[c]@;
    assert(u.difference(v) =~= u.filter(|x: u32| !v.contains(x)));
    assert(u.intersect(v) =~= u.filter(|x: u32| v.contains(x)));
    assert(v.difference(u) =~= v.filter(|x: u32| !u.contains(x)));
}

/// The listing of the tokens behind a part of a sketch.
proof fn part_listed(part: Set<u32>, all: Set<u32>, rows: Set<(u32, Seq<u8>)>, t: Seq<u8>)
    requires
        part.subset_of(all),
        lut::selected(all, rows).finite(),
    ensures
        api::listing(lut::selected(part, rows)).contains(t) <==> exists|x: u32| #[trigger]
            part.contains(x) && rows.contains((x, t)),
{
    let s = lut::selected(part, rows);
    assert(s.subset_of(lut::selected(all, rows))) by {
        assert forall|y: Seq<u8>| s.contains(y) implies lut::selected(all, rows).contains(y) by {
            let x = choose|x: u32| #[trigger] part.contains(x) && rows.contains((x, y));
            assert(all.contains(x));
        }
    }
    vstd::set_lib::lemma_len_subset(s, lut::selected(all, rows));
    api::listing_exists(s);
    assert(api::listing(s).to_set().contains(t) == s.contains(t));
}

/// What is restored of a line: the list of its tokens has each of them once, in byte
/// order; the restored order does not depend on the beam, and with a beam of one both
/// restored orders are the same.
pub proof fn restored_law(r: Restored, s: Restored, tokens: Seq<Seq<u8>>, beam: nat, other: nat, t: Seq<u8>)
    requires
        restored_to(r, tokens, beam),
        restored_to(s, tokens, other),
    ensures
        frames::text_tokens(r.set@).contains(t) <==> tokens.contains(t),
        lut::ascending_tokens(frames::text_tokens(r.set@)),
        frames::text_tokens(r.ordered@) == frames::text_tokens(s.ordered@),
        beam == other ==> frames::text_tokens(r.beam2@) == frames::text_tokens(s.beam2@),
        beam == 1 ==> frames::text_tokens(r.beam2@) == frames::text_tokens(r.ordered@),
{
    let a = choose|g: Ingested|
        #[trigger] api::ingest_of(g, tokens, PAD@) && frames::text_tokens(r.ordered@) == api::ordered(g, 1) && frames::text_tokens(r.set@)
            == api::listing(tokens.to_set()) && frames::text_tokens(r.beam2@) == api::ordered(g, beam);
    let b = choose|g: Ingested|
        #[trigger] api::ingest_of(g, tokens, PAD@) && frames::text_tokens(s.ordered@) == api::ordered(g, 1) && frames::text_tokens(s.set@)
            == api::listing(tokens.to_set()) && frames::text_tokens(s.beam2@) == api::ordered(g, other);
    api::restoration_determined(a, b, tokens, PAD@, 1);
    api::restoration_determined(a, b, tokens, PAD@, beam);
    vstd::seq_lib::seq_to_set_is_finite(tokens);
    api::listing_exists(tokens.to_set());
    assert(api::listing(tokens.to_set()).to_set().contains(t) == tokens.to_set().contains(t));
}

/// What is restored of a grid: the list of its tokens has each of them once, in byte
/// order; the restored order does not depend on the beam.
pub proof fn grid_restored_law(r: GridRestored, s: GridRestored, cells: Seq<Seq<u8>>, w: int, h: int, beam: nat, other: nat, t: Seq<u8>)
    requires
        grid_restored_to(r, cells, w, h, beam),
        grid_restored_to(s, cells, w, h, other),
        cells.len() == w * h,
    ensures
        frames::text_tokens(r.set@).contains(t) <==> cells.contains(t),
        lut::ascending_tokens(frames::text_tokens(r.set@)),
        frames::text_tokens(r.ordered@) == frames::text_tokens(s.ordered@),
        beam == other ==> frames::text_tokens(r.beam2@) == frames::text_tokens(s.beam2@),
        beam == 1 ==> frames::text_tokens(r.beam2@) == frames::text_tokens(r.ordered@),
{
    let a = choose|g: GridIngested|
        #[trigger] grid::grid_ingest_of(g, cells, w, h, PAD@) && frames::text_tokens(r.ordered@) == grid::placed_from(
            g,
            api::listing(g.unordered()),
            1,
        ) && frames::text_tokens(r.set@) == api::listing(cells.to_set()) && frames::text_tokens(r.beam2@) == grid::placed_from(
            g,
            api::listing(g.unordered()),
            beam,
        );
    let b = choose|g: GridIngested|
        #[trigger] grid::grid_ingest_of(g, cells, w, h, PAD@) && frames::text_tokens(s.ordered@) == grid::placed_from(
            g,
            api::listing(g.unordered()),
            1,
        ) && frames::text_tokens(s.set@) == api::listing(cells.to_set()) && frames::text_tokens(s.beam2@) == grid::placed_from(
            g,
            api::listing(g.unordered()),
            other,
        );
    grid::grid_restoration_determined(a, b, cells, w, h, PAD@, 1);
    grid::grid_restoration_determined(a, b, cells, w, h, PAD@, beam);
    vstd::seq_lib::seq_to_set_is_finite(cells);
    api::listing_exists(cells.to_set());
    assert(api::listing(cells.to_set()).to_set().contains(t) == cells.to_set().contains(t));
}

/// What is restored of a tensor: the list of its tokens has each of them once, in byte
/// order; the restored order does not depend on the beam.
pub proof fn tensor_restored_law(
    r: TensorRestored,
    s: TensorRestored,
    cells: Seq<Seq<u8>>,
    shape: Seq<usize>,
    beam: nat,
    other: nat,
    t: Seq<u8>,
)
    requires
        tensor_restored_to(r, cells, shape, beam),
        tensor_restored_to(s, cells, shape, other),
        cells.len() == tensor::volume(shape),
    ensures
        frames::text_tokens(r.set@).contains(t) <==> cells.contains(t),
        lut::ascending_tokens(frames::text_tokens(r.set@)),
        frames::text_tokens(r.ordered@) == frames::text_tokens(s.ordered@),
        beam == other ==> frames::text_tokens(r.beam2@) == frames::text_tokens(s.beam2@),
        beam == 1 ==> frames::text_tokens(r.beam2@) == frames::text_tokens(r.ordered@),
{
    let a = choose|g: TensorIngested|
        #[trigger] tensor::tensor_ingest_of(g, cells, shape, PAD@) && frames::text_tokens(r.ordered@) == grid::placed_from(
            g,
            api::listing(g.unordered()),
            1,
        ) && frames::text_tokens(r.set@) == api::listing(cells.to_set()) && frames::text_tokens(r.beam2@) == grid::placed_from(
            g,
            api::listing(g.unordered()),
            beam,
        );
    let b = choose|g: TensorIngested|
        #[trigger] tensor::tensor_ingest_of(g, cells, shape, PAD@) && frames::text_tokens(s.ordered@) == grid::placed_from(
            g,
            api::listing(g.unordered()),
            1,
        ) && frames::text_tokens(s.set@) == api::listing(cells.to_set()) && frames::text_tokens(s.beam2@) == grid::placed_from(
            g,
            api::listing(g.unordered()),
            other,
        );
    tensor::tensor_restoration_determined(a, b, cells, shape, PAD@, 1);
    tensor::tensor_restoration_determined(a, b, cells, shape, PAD@, beam);
    vstd::seq_lib::seq_to_set_is_finite(cells);
    api::listing_exists(cells.to_set());
    assert(api::listing(cells.to_set()).to_set().contains(t) == cells.to_set().contains(t));
}

} // verus!
