//! Two-dimensional collections: ingestion of the square windows of a padded
//! grid, and its restoration cell by cell.

use vstd::prelude::*;

use crate::hashing::BitAddress;
use crate::hllset::HLLSet;
use crate::lut::LutIndex;
use crate::lut::TokenSet;
use crate::morphisms::api::PAD;
use crate::morphisms::api::WALK_BUDGET;
use crate::morphisms::conv::ConvSpec;
use crate::morphisms::hllset_lut::HllsetLut;
use crate::search::Chain;
use crate::tf::TfTable;
use crate::hashing;
use crate::hllset;
use crate::lut;
use crate::morphisms::api;
use crate::morphisms::conv;
use crate::morphisms::hllset_lut;
use crate::search;
use crate::text;
use crate::tf;

verus! {

/// The largest window side.
pub const GRID_MAX_N: usize = 4;

/// Pad cells on each side of a grid.
pub const GRID_BORDER: usize = 3;

/// The seed of the windows of side `n`.
pub fn gseed(n: usize) -> (s: u64)
    requires
        1 <= n <= 4,
    ensures
        s == conv::seed_of(n as int, 2),
{
    conv::seed(ConvSpec::new(n as u8, 2))
}

/// A grid of tokens, row by row.
#[derive(Clone, Debug, PartialEq, Eq)]
pub struct Grid {
    pub width: usize,
    pub height: usize,
    pub cells: Vec<Vec<u8>>,
}

impl Grid {
    /// One cell for each place.
    pub open spec fn wf(&self) -> bool {
        self.cells.len() == self.width * self.height
    }

    pub fn new(width: usize, height: usize, cells: Vec<Vec<u8>>) -> (g: Grid)
        requires
            cells.len() == width * height,
        ensures
            g.wf(),
            g.width == width,
            g.height == height,
            g.cells == cells,
    {
        Grid { width, height, cells }
    }

    /// The cell in a row and a column.
    pub fn cell(&self, r: usize, c: usize) -> (t: &[u8])
        requires
            self.wf(),
            r < self.height,
            c < self.width,
        ensures
            t@ == self.cells@[r * self.width + c]@,
    {
        proof {
            cell_index(r as int, c as int, self.width as int, self.height as int);
        }
        self.cells[r * self.width + c].as_slice()
    }

    pub fn len(&self) -> (n: usize)
        ensures
            n == self.cells@.len(),
    {
        self.cells.len()
    }

    pub fn is_empty(&self) -> (yes: bool)
        ensures
            yes == (self.cells@.len() == 0),
    {
        self.cells.len() == 0
    }
}

/// A place in a grid lies within its cells.
pub proof fn cell_index(r: int, c: int, w: int, h: int)
    requires
        0 <= r < h,
        0 <= c < w,
    ensures
        0 <= r * w + c < w * h,
        0 <= r * w <= r * w + c,
        0 <= r * w,
{
    assert(0 <= r * w + c < w * h && 0 <= r * w) by (nonlinear_arith)
        requires
            0 <= r < h,
            0 <= c < w,
    ;
}

/// Rows above and columns to the left come no later.
proof fn earlier_index(a: int, b: int, r: int, c: int, w: int)
    requires
        0 <= a <= r,
        0 <= b <= c,
        0 <= w,
    ensures
        0 <= a * w + b <= r * w + c,
        0 <= a * w,
{
    assert(0 <= a * w + b <= r * w + c && 0 <= a * w) by (nonlinear_arith)
        requires
            0 <= a <= r,
            0 <= b <= c,
            0 <= w,
    ;
}

/// Whether a place of the padded grid lies inside the border.
pub open spec fn inside(w: int, h: int, i: int, j: int) -> bool {
    3 <= i < 3 + h && 3 <= j < 3 + w
}

/// The token at a place of the padded grid.
pub open spec fn padded_cell(cells: Seq<Seq<u8>>, w: int, h: int, pad: Seq<u8>, i: int, j: int) -> Seq<u8> {
    if inside(w, h, i, j) {
        cells[(i - 3) * w + (j - 3)]
    } else {
        pad
    }
}

/// The tokens of the window of side `n` at a place, row by row.
pub open spec fn block_parts(cells: Seq<Seq<u8>>, w: int, h: int, pad: Seq<u8>, n: nat, i: int, j: int) -> Seq<Seq<u8>> {
    Seq::new(n * n, |k: int| padded_cell(cells, w, h, pad, i + k / (n as int), j + k % (n as int)))
}

/// The joined window of side `n` at a place.
pub open spec fn block(cells: Seq<Seq<u8>>, w: int, h: int, pad: Seq<u8>, n: nat, i: int, j: int) -> Seq<u8> {
    api::gram(block_parts(cells, w, h, pad, n, i, j))
}

/// The bit of a window.
pub open spec fn block_bit(cells: Seq<Seq<u8>>, w: int, h: int, pad: Seq<u8>, n: nat, i: int, j: int) -> u32 {
    hashing::token_bit(block(cells, w, h, pad, n, i, j), conv::seed_of(n as int, 2) as u64)
}

/// The bits of all windows of side `n`.
pub open spec fn block_bits(cells: Seq<Seq<u8>>, w: int, h: int, pad: Seq<u8>, n: nat) -> Set<u32> {
    Set::new(
        |b: u32|
            exists|i: int, j: int|
                0 <= i <= h + 6 - n && 0 <= j <= w + 6 - n && #[trigger] block_bit(cells, w, h, pad, n, i, j) == b,
    )
}

/// The pairs of the windows at real cells with those cells.
pub open spec fn block_rows(cells: Seq<Seq<u8>>, w: int, h: int, pad: Seq<u8>, n: nat) -> Set<(u32, Seq<u8>)> {
    Set::new(
        |r: (u32, Seq<u8>)|
            exists|i: int, j: int|
                inside(w, h, i, j) && #[trigger] block_bit(cells, w, h, pad, n, i, j) == r.0 && cells[(i - 3) * w + (j - 3)]
                    == r.1,
    )
}

/// Reads the window of side `n` at a place; `extra` stands behind the cells.
fn read_block(
    cells: &Vec<Vec<u8>>,
    extra: &[u8],
    w: usize,
    h: usize,
    pad: &[u8],
    n: usize,
    i: usize,
    j: usize,
) -> (out: Vec<u8>)
    requires
        1 <= n <= 4,
        i + n <= usize::MAX,
        j + n <= usize::MAX,
        w + 3 <= usize::MAX,
        h + 3 <= usize::MAX,
        w * h <= usize::MAX,
        forall|a: int, b: int|
            i <= a < i + n && j <= b < j + n && #[trigger] inside(w as int, h as int, a, b) ==> (a - 3) * w + (b - 3)
                <= cells@.len(),
    ensures
        out@ == block(hllset::token_views(cells@).push(extra@), w as int, h as int, pad@, n as nat, i as int, j as int),
{
    let ghost all = hllset::token_views(cells@).push(extra@);
    let ghost goal = block_parts(all, w as int, h as int, pad@, n as nat, i as int, j as int);
    let mut parts: Vec<&[u8]> = Vec::new();
    let mut di: usize = 0;
    proof {
        assert(n * n <= 16) by (nonlinear_arith)
            requires
                1 <= n <= 4,
        ;
    }
    while di < n
        invariant
            di <= n,
            1 <= n <= 4,
            i + n <= usize::MAX,
            j + n <= usize::MAX,
            w + 3 <= usize::MAX,
            h + 3 <= usize::MAX,
            w * h <= usize::MAX,
            forall|a: int, b: int|
                i <= a < i + n && j <= b < j + n && #[trigger] inside(w as int, h as int, a, b) ==> (a - 3) * w + (b - 3)
                    <= cells@.len(),
            all == hllset::token_views(cells@).push(extra@),
            goal == block_parts(all, w as int, h as int, pad@, n as nat, i as int, j as int),
            parts@.len() == di * n,
            forall|k: int| 0 <= k < di * n ==> (#[trigger] parts@[k])@ == goal[k],
            goal.len() == n * n,
        decreases n - di,
    {
        let mut dj: usize = 0;
        while dj < n
            invariant
                di < n,
                dj <= n,
                1 <= n <= 4,
                i + n <= usize::MAX,
                j + n <= usize::MAX,
                w + 3 <= usize::MAX,
                h + 3 <= usize::MAX,
                w * h <= usize::MAX,
                forall|a: int, b: int|
                    i <= a < i + n && j <= b < j + n && #[trigger] inside(w as int, h as int, a, b) ==> (a - 3) * w + (b
                        - 3) <= cells@.len(),
                all == hllset::token_views(cells@).push(extra@),
                goal == block_parts(all, w as int, h as int, pad@, n as nat, i as int, j as int),
                parts@.len() == di * n + dj,
                forall|k: int| 0 <= k < di * n + dj ==> (#[trigger] parts@[k])@ == goal[k],
                goal.len() == n * n,
            decreases n - dj,
        {
            let pi: usize = i + di;
            let pj: usize = j + dj;
            let ghost k = di * n + dj;
            proof {
                assert(k / (n as int) == di && k % (n as int) == dj && 0 <= k < n * n) by (nonlinear_arith)
                    requires
                        k == di * n + dj,
                        0 <= di < n,
                        0 <= dj < n,
                        1 <= n,
                ;
                assert(goal[k] == padded_cell(all, w as int, h as int, pad@, pi as int, pj as int));
            }
            if pi >= 3 && pi < 3 + h && pj >= 3 && pj < 3 + w {
                proof {
                    assert(inside(w as int, h as int, pi as int, pj as int));
                    cell_index(pi - 3, pj - 3, w as int, h as int);
                }
                let at: usize = (pi - 3) * w + (pj - 3);
                if at < cells.len() {
                    parts.push(cells[at].as_slice());
                } else {
                    parts.push(extra);
                }
            } else {
                parts.push(pad);
            }
            dj = dj + 1;
        }
        proof {
            assert(di * n + n == (di + 1) * n) by (nonlinear_arith);
        }
        di = di + 1;
    }
    proof {
        assert(api::slice_views(parts@) =~= goal);
        assert(n * n >= 1) by (nonlinear_arith)
            requires
                1 <= n,
        ;
    }
    api::join(parts.as_slice())
}

/// What stands behind the cells does not matter for a window within them.
proof fn block_of_full(cells: Seq<Seq<u8>>, extra: Seq<u8>, w: int, h: int, pad: Seq<u8>, n: nat, i: int, j: int)
    requires
        cells.len() == w * h,
        w >= 0,
        h >= 0,
    ensures
        block(cells.push(extra), w, h, pad, n, i, j) == block(cells, w, h, pad, n, i, j),
{
    let a = block_parts(cells.push(extra), w, h, pad, n, i, j);
    let b = block_parts(cells, w, h, pad, n, i, j);
    assert forall|k: int| 0 <= k < n * n implies a[k] == b[k] by {
        let pi = i + k / (n as int);
        let pj = j + k % (n as int);
        if inside(w, h, pi, pj) {
            cell_index(pi - 3, pj - 3, w, h);
        }
    }
    assert(a =~= b);
}

/// The places of a full grid lie within its cells.
proof fn full_places(w: int, h: int, len: int)
    requires
        len == w * h,
        w >= 0,
        h >= 0,
    ensures
        forall|a: int, b: int| #[trigger] inside(w, h, a, b) ==> (a - 3) * w + (b - 3) < len,
{
    assert forall|a: int, b: int| #[trigger] inside(w, h, a, b) implies (a - 3) * w + (b - 3) < len by {
        cell_index(a - 3, b - 3, w, h);
    }
}

/// Adds the windows of one row of places to a sketch and an index.
fn scan_row(grid: &Grid, pad: &[u8], n: usize, i: usize, sketch: &mut HLLSet, lut: &mut LutIndex)
    requires
        grid.wf(),
        grid.width > 0,
        1 <= n <= 4,
        grid.width + 6 <= usize::MAX,
        grid.height + 6 <= usize::MAX,
        i + n <= grid.height + 6,
    ensures
        forall|b: u32|
            #[trigger] final(sketch)@.contains(b) == (old(sketch)@.contains(b) || exists|j: int|
                0 <= j <= grid.width + 6 - n && #[trigger] block_bit(
                    hllset::token_views(grid.cells@),
                    grid.width as int,
                    grid.height as int,
                    pad@,
                    n as nat,
                    i as int,
                    j,
                ) == b),
        forall|r: (u32, Seq<u8>)|
            #[trigger] final(lut)@.contains(r) == (old(lut)@.contains(r) || exists|j: int|
                inside(grid.width as int, grid.height as int, i as int, j) && #[trigger] block_bit(
                    hllset::token_views(grid.cells@),
                    grid.width as int,
                    grid.height as int,
                    pad@,
                    n as nat,
                    i as int,
                    j,
                ) == r.0 && hllset::token_views(grid.cells@)[(i - 3) * grid.width + (j - 3)] == r.1),
{
    let w = grid.width;
    let h = grid.height;
    let ghost cells = hllset::token_views(grid.cells@);
    let ghost s0 = sketch@;
    let ghost l0 = lut@;
    let s = gseed(n);
    let count: usize = w + 6 - n + 1;
    let mut j: usize = 0;
    proof {
        full_places(w as int, h as int, cells.len() as int);
        assert(cells.len() == grid.cells@.len());
        assert(w * h <= usize::MAX);
    }
    while j < count
        invariant
            j <= count,
            count == w + 6 - n + 1,
            w == grid.width,
            h == grid.height,
            w > 0,
            grid.wf(),
            1 <= n <= 4,
            w + 6 <= usize::MAX,
            h + 6 <= usize::MAX,
            w * h <= usize::MAX,
            i + n <= h + 6,
            s == conv::seed_of(n as int, 2),
            cells == hllset::token_views(grid.cells@),
            cells.len() == w * h,
            forall|a: int, b: int| #[trigger] inside(w as int, h as int, a, b) ==> (a - 3) * w + (b - 3) < cells.len(),
            forall|b: u32|
                #[trigger] sketch@.contains(b) == (s0.contains(b) || exists|q: int|
                    0 <= q < j && #[trigger] block_bit(cells, w as int, h as int, pad@, n as nat, i as int, q) == b),
            forall|r: (u32, Seq<u8>)|
                #[trigger] lut@.contains(r) == (l0.contains(r) || exists|q: int|
                    q < j && inside(w as int, h as int, i as int, q) && #[trigger] block_bit(
                        cells,
                        w as int,
                        h as int,
                        pad@,
                        n as nat,
                        i as int,
                        q,
                    ) == r.0 && cells[(i - 3) * w + (q - 3)] == r.1),
        decreases count - j,
    {
        let bytes = read_block(&grid.cells, pad, w, h, pad, n, i, j);
        let bit = BitAddress::of_token_seeded(bytes.as_slice(), s).bit();
        proof {
            block_of_full(cells, pad@, w as int, h as int, pad@, n as nat, i as int, j as int);
        }
        let ghost s1 = sketch@;
        let ghost l1 = lut@;
        let ghost here = block_bit(cells, w as int, h as int, pad@, n as nat, i as int, j as int);
        sketch.add_bit(bit);
        if i >= 3 && i < 3 + h && j >= 3 && j < 3 + w {
            proof {
                assert(inside(w as int, h as int, i as int, j as int));
                cell_index(i - 3, j - 3, w as int, h as int);
            }
            let token = lut::copy_bytes(grid.cells[(i - 3) * w + (j - 3)].as_slice());
            lut.insert_token_at(token, bit);
        }
        proof {
            assert(here == bit);
            assert forall|b: u32| #[trigger] sketch@.contains(b) == (s0.contains(b) || exists|q: int|
                0 <= q < j + 1 && #[trigger] block_bit(cells, w as int, h as int, pad@, n as nat, i as int, q) == b) by {
                assert(s1.contains(b) == (s0.contains(b) || exists|q: int|
                    0 <= q < j && #[trigger] block_bit(cells, w as int, h as int, pad@, n as nat, i as int, q) == b));
            }
            assert forall|r: (u32, Seq<u8>)| #[trigger] lut@.contains(r) == (l0.contains(r) || exists|q: int|
                q < j + 1 && inside(w as int, h as int, i as int, q) && #[trigger] block_bit(
                    cells,
                    w as int,
                    h as int,
                    pad@,
                    n as nat,
                    i as int,
                    q,
                ) == r.0 && cells[(i - 3) * w + (q - 3)] == r.1) by {
                assert(l1.contains(r) == (l0.contains(r) || exists|q: int|
                    q < j && inside(w as int, h as int, i as int, q) && #[trigger] block_bit(
                        cells,
                        w as int,
                        h as int,
                        pad@,
                        n as nat,
                        i as int,
                        q,
                    ) == r.0 && cells[(i - 3) * w + (q - 3)] == r.1));
            }
        }
        j = j + 1;
    }
}

/// The sketch and the index of the windows of side `n`.
fn grid_channel(grid: &Grid, pad: &[u8], n: usize) -> (out: (HLLSet, LutIndex))
    requires
        grid.wf(),
        grid.width > 0,
        1 <= n <= 4,
        grid.width + 6 <= usize::MAX,
        grid.height + 6 <= usize::MAX,
    ensures
        out.0@ == block_bits(hllset::token_views(grid.cells@), grid.width as int, grid.height as int, pad@, n as nat),
        out.1@ == block_rows(hllset::token_views(grid.cells@), grid.width as int, grid.height as int, pad@, n as nat),
{
    let ghost w = grid.width as int;
    let ghost h = grid.height as int;
    let ghost cells = hllset::token_views(grid.cells@);
    let mut sketch = HLLSet::new();
    let mut lut = LutIndex::new();
    let count: usize = grid.height + 6 - n + 1;
    let mut i: usize = 0;
    while i < count
        invariant
            i <= count,
            count == grid.height + 6 - n + 1,
            w == grid.width,
            h == grid.height,
            w > 0,
            grid.wf(),
            1 <= n <= 4,
            w + 6 <= usize::MAX,
            h + 6 <= usize::MAX,
            cells == hllset::token_views(grid.cells@),
            forall|b: u32|
                #[trigger] sketch@.contains(b) == exists|a: int, j: int|
                    0 <= a < i && 0 <= j <= w + 6 - n && #[trigger] block_bit(cells, w, h, pad@, n as nat, a, j) == b,
            forall|r: (u32, Seq<u8>)|
                #[trigger] lut@.contains(r) == exists|a: int, j: int|
                    a < i && inside(w, h, a, j) && #[trigger] block_bit(cells, w, h, pad@, n as nat, a, j) == r.0
                        && cells[(a - 3) * w + (j - 3)] == r.1,
        decreases count - i,
    {
        let ghost s1 = sketch@;
        let ghost l1 = lut@;
        scan_row(grid, pad, n, i, &mut sketch, &mut lut);
        proof {
            assert forall|b: u32| #[trigger] sketch@.contains(b) == exists|a: int, j: int|
                0 <= a < i + 1 && 0 <= j <= w + 6 - n && #[trigger] block_bit(cells, w, h, pad@, n as nat, a, j) == b by {
                assert(s1.contains(b) == exists|a: int, j: int|
                    0 <= a < i && 0 <= j <= w + 6 - n && #[trigger] block_bit(cells, w, h, pad@, n as nat, a, j) == b);
                if exists|j: int| 0 <= j <= w + 6 - n && #[trigger] block_bit(cells, w, h, pad@, n as nat, i as int, j) == b {
                    let j = choose|j: int|
                        0 <= j <= w + 6 - n && #[trigger] block_bit(cells, w, h, pad@, n as nat, i as int, j) == b;
                    assert(block_bit(cells, w, h, pad@, n as nat, i as int, j) == b);
                }
            }
            assert forall|r: (u32, Seq<u8>)| #[trigger] lut@.contains(r) == exists|a: int, j: int|
                a < i + 1 && inside(w, h, a, j) && #[trigger] block_bit(cells, w, h, pad@, n as nat, a, j) == r.0
                    && cells[(a - 3) * w + (j - 3)] == r.1 by {
                assert(l1.contains(r) == exists|a: int, j: int|
                    a < i && inside(w, h, a, j) && #[trigger] block_bit(cells, w, h, pad@, n as nat, a, j) == r.0
                        && cells[(a - 3) * w + (j - 3)] == r.1);
            }
        }
        i = i + 1;
    }
    proof {
        assert(sketch@ =~= block_bits(cells, w, h, pad@, n as nat));
        assert(lut@ =~= block_rows(cells, w, h, pad@, n as nat));
    }
    (sketch, lut)
}

/// What an ingestion leaves of a grid.
#[derive(Clone, Debug, PartialEq, Eq)]
pub struct GridIngested {
    /// The sketches of the windows of side one to four.
    pub channels: [HLLSet; 4],
    /// The indexes from their bits to the cells they start at.
    pub luts: [LutIndex; 4],
    pub tf: TfTable,
    pub width: usize,
    pub height: usize,
    pub pad: Vec<u8>,
    /// The union of the first three channels.
    pub projection: HLLSet,
    pub key: String,
    pub keys: [String; 4],
    pub hllset_lut: HllsetLut,
}

/// The names of the four channels.
pub open spec fn grid_names() -> Seq<Seq<char>> {
    seq![conv::name_of(1, 2), conv::name_of(2, 2), conv::name_of(3, 2), conv::name_of(4, 2)]
}

/// What an ingestion of a grid holds.
pub open spec fn grid_ingest_of(g: GridIngested, cells: Seq<Seq<u8>>, w: int, h: int, pad: Seq<u8>) -> bool {
    let some = cells.len() > 0;
    &&& g.tf.wf()
    &&& g.hllset_lut.wf()
    &&& g.width == w
    &&& g.height == h
    &&& g.pad@ == pad
    &&& forall|n: int|
        1 <= n <= 4 ==> (#[trigger] g.channels@[n - 1])@ == (if some {
            block_bits(cells, w, h, pad, n as nat)
        } else {
            Set::empty()
        })
    &&& forall|n: int|
        1 <= n <= 4 ==> (#[trigger] g.luts@[n - 1])@ == (if some {
            block_rows(cells, w, h, pad, n as nat)
        } else {
            Set::empty()
        })
    &&& forall|t: Seq<u8>| #[trigger] g.tf.tally(t) == tf::occurrences(cells, t)
    &&& g.projection@ == api::union3(g.channels@[0]@, g.channels@[1]@, g.channels@[2]@)
    &&& g.key@ == hllset::key_of(g.projection@)
    &&& forall|i: int|
        0 <= i < 4 ==> (#[trigger] g.keys@[i])@ == (if some { hllset::key_of(g.channels@[i]@) } else { Seq::empty() })
    &&& g.hllset_lut@ == (if some {
        hllset_lut::touched_all(grid_names(), text::texts(g.keys@))
    } else {
        Map::empty()
    })
}

/// Four names that differ in their second character make distinct entries.
pub proof fn four_names_differ(names: Seq<Seq<char>>, keys: Seq<Seq<char>>, dim: nat)
    requires
        names == seq![conv::name_of(1, dim), conv::name_of(2, dim), conv::name_of(3, dim), conv::name_of(4, dim)],
        keys.len() == 4,
    ensures
        hllset_lut::entries_differ(names, keys),
{
    conv::name_digit(1, dim);
    conv::name_digit(2, dim);
    conv::name_digit(3, dim);
    conv::name_digit(4, dim);
    assert forall|i: int, j: int| 0 <= i < j < names.len() implies #[trigger] hllset_lut::named(names[i], keys[i]) != #[trigger] hllset_lut::named(
        names[j],
        keys[j],
    ) by {
        assert(hllset_lut::named(names[i], keys[i])[1] == names[i][1]);
        assert(hllset_lut::named(names[j], keys[j])[1] == names[j][1]);
        assert(names[i][1] == text::digit(i + 1));
        assert(names[j][1] == text::digit(j + 1));
    }
}

impl GridIngested {
    /// Sizes that indexing can handle.
    pub open spec fn wf(&self) -> bool {
        &&& self.tf.wf()
        &&& self.width * self.height <= usize::MAX
        &&& self.width + 6 <= usize::MAX
        &&& self.height + 6 <= usize::MAX
    }

    /// The tokens behind the members of the first three channels.
    pub open spec fn unordered(&self) -> Set<Seq<u8>> {
        lut::selected(self.channels@[0]@, self.luts@[0]@).union(lut::selected(self.channels@[1]@, self.luts@[1]@)).union(
            lut::selected(self.channels@[2]@, self.luts@[2]@),
        )
    }

    /// The ingestion of an empty grid.
    pub fn new() -> (g: GridIngested)
        ensures
            grid_ingest_of(g, Seq::empty(), 0, 0, PAD@),
    {
        let empty = HLLSet::new();
        let key = empty.content_key();
        let g = GridIngested {
            channels: [HLLSet::new(), HLLSet::new(), HLLSet::new(), HLLSet::new()],
            luts: [LutIndex::new(), LutIndex::new(), LutIndex::new(), LutIndex::new()],
            tf: TfTable::new(),
            width: 0,
            height: 0,
            pad: lut::copy_bytes(vstd::array::array_as_slice(&PAD)),
            projection: empty,
            key,
            keys: [String::new(), String::new(), String::new(), String::new()],
            hllset_lut: HllsetLut::new(),
        };
        proof {
            assert(g.projection@ =~= api::union3(g.channels@[0]@, g.channels@[1]@, g.channels@[2]@));
        }
        g
    }
}

/// Ingests a grid with the pad `<PAD>`.
pub fn ingest_grid(grid: &Grid) -> (g: GridIngested)
    requires
        grid.wf(),
        grid.width + 6 <= usize::MAX,
        grid.height + 6 <= usize::MAX,
    ensures
        grid_ingest_of(g, hllset::token_views(grid.cells@), grid.width as int, grid.height as int, PAD@),
{
    ingest_grid_with_pad(grid, vstd::array::array_as_slice(&PAD))
}

/// Ingests a grid: three pads on every side, and every window of side one to four.
pub fn ingest_grid_with_pad(grid: &Grid, pad: &[u8]) -> (g: GridIngested)
    requires
        grid.wf(),
        grid.width + 6 <= usize::MAX,
        grid.height + 6 <= usize::MAX,
    ensures
        grid_ingest_of(g, hllset::token_views(grid.cells@), grid.width as int, grid.height as int, pad@),
{
    let mut g = GridIngested::new();
    g.width = grid.width;
    g.height = grid.height;
    g.pad = lut::copy_bytes(pad);
    let ghost cells = hllset::token_views(grid.cells@);
    if grid.is_empty() {
        proof {
            assert(cells =~= Seq::<Seq<u8>>::empty());
        }
        return g;
    }
    proof {
        if grid.width == 0 {
            assert(grid.width * grid.height == 0) by (nonlinear_arith)
                requires
                    grid.width == 0,
            ;
        }
    }
    let (s1, l1) = grid_channel(grid, pad, 1);
    let (s2, l2) = grid_channel(grid, pad, 2);
    let (s3, l3) = grid_channel(grid, pad, 3);
    let (s4, l4) = grid_channel(grid, pad, 4);
    g.channels = [s1, s2, s3, s4];
    g.luts = [l1, l2, l3, l4];
    g.tf = TfTable::of_tokens(&grid.cells);
    g.projection = s1.union(&s2).union(&s3);
    g.key = g.projection.content_key();
    let mut names: Vec<String> = Vec::new();
    names.push(conv::channel_name(1, 2));
    names.push(conv::channel_name(2, 2));
    names.push(conv::channel_name(3, 2));
    names.push(conv::channel_name(4, 2));
    let mut keys: Vec<String> = Vec::new();
    keys.push(s1.content_key());
    keys.push(s2.content_key());
    keys.push(s3.content_key());
    keys.push(s4.content_key());
    proof {
        assert(text::texts(names@) =~= grid_names());
        four_names_differ(text::texts(names@), text::texts(keys@), 2);
    }
    g.hllset_lut = hllset_lut::preserve(&names, &keys);
    g.keys = [keys[0].clone(), keys[1].clone(), keys[2].clone(), keys[3].clone()];
    proof {
        assert(text::texts(g.keys@) =~= text::texts(keys@));
    }
    g
}

/// Whether a channel holds the bit of a window.
pub open spec fn grid_marked(g: GridIngested, n: nat, bytes: Seq<u8>) -> bool {
    g.channels@[n - 1]@.contains(hashing::token_bit(bytes, conv::seed_of(n as int, 2) as u64))
}

/// Whether the window of side `n` that ends at the next cell is marked.
pub open spec fn corner_marked(g: GridIngested, path: Seq<Seq<u8>>, t: Seq<u8>, n: nat) -> bool {
    let w = g.width as int;
    let h = g.height as int;
    let r = path.len() as int / w;
    let c = path.len() as int % w;
    grid_marked(g, n, block(path.push(t), w, h, g.pad@, n, r + 4 - n, c + 4 - n))
}

/// Whether the window of side `n` over the last cell and the pad behind it is marked.
pub open spec fn end_marked(g: GridIngested, path: Seq<Seq<u8>>, n: nat) -> bool {
    let w = g.width as int;
    let h = g.height as int;
    grid_marked(g, n, block(path, w, h, g.pad@, n, h + 3 - n, w + 4 - n))
}

fn grid_channel_contains(g: &GridIngested, n: usize, bytes: &[u8]) -> (yes: bool)
    requires
        1 <= n <= 4,
    ensures
        yes == grid_marked(*g, n as nat, bytes@),
{
    let a = BitAddress::of_token_seeded(bytes, gseed(n));
    g.channels[n - 1].has_bit(a.reg(), a.tz())
}

/// Whether the window of side `n` that ends at the next cell is marked.
fn corner_ok(g: &GridIngested, path: &Vec<Vec<u8>>, t: &[u8], n: usize) -> (yes: bool)
    requires
        g.wf(),
        2 <= n <= 4,
        path@.len() < g.width * g.height,
    ensures
        yes == corner_marked(*g, hllset::token_views(path@), t@, n as nat),
{
    let w = g.width;
    let h = g.height;
    let ghost p = hllset::token_views(path@);
    proof {
        if w == 0 {
            assert(w * h == 0) by (nonlinear_arith)
                requires
                    w == 0,
            ;
        }
        assert(p.len() == path@.len());
    }
    let r: usize = path.len() / w;
    let c: usize = path.len() % w;
    proof {
        assert(r < h && r * w + c == path@.len() && c < w) by (nonlinear_arith)
            requires
                r == path@.len() / (w as nat),
                c == path@.len() % (w as nat),
                path@.len() < w * h,
                w > 0,
        ;
        assert forall|a: int, b: int|
            r + 4 - n <= a < r + 4 - n + n && c + 4 - n <= b < c + 4 - n + n && #[trigger] inside(
                w as int,
                h as int,
                a,
                b,
            ) implies (a - 3) * w + (b - 3) <= path@.len() by {
            earlier_index(a - 3, b - 3, r as int, c as int, w as int);
        }
    }
    let bytes = read_block(path, t, w, h, g.pad.as_slice(), n, r + 4 - n, c + 4 - n);
    grid_channel_contains(g, n, bytes.as_slice())
}

#[verifier::rlimit(40)]
fn end_ok(g: &GridIngested, path: &Vec<Vec<u8>>, n: usize) -> (yes: bool)
    requires
        g.wf(),
        2 <= n <= 4,
        path@.len() == g.width * g.height,
        path@.len() > 0,
    ensures
        yes == end_marked(*g, hllset::token_views(path@), n as nat),
{
    let w = g.width;
    let h = g.height;
    let ghost p = hllset::token_views(path@);
    proof {
        if h == 0 {
            assert(w * h == 0) by (nonlinear_arith)
                requires
                    h == 0,
            ;
        }
        assert(p.len() == path@.len());
        full_places(w as int, h as int, p.len() as int);
        block_of_full(p, g.pad@, w as int, h as int, g.pad@, n as nat, h + 3 - n, w + 4 - n);
    }
    let bytes = read_block(path, g.pad.as_slice(), w, h, g.pad.as_slice(), n, h + 3 - n, w + 4 - n);
    grid_channel_contains(g, n, bytes.as_slice())
}

/// Whether a token may stand at the next cell.
pub open spec fn grid_successor(g: GridIngested, path: Seq<Seq<u8>>, t: Seq<u8>) -> bool {
    corner_marked(g, path, t, 2) && corner_marked(g, path, t, 3) && corner_marked(g, path, t, 4)
}

/// Whether a full grid may end there.
pub open spec fn grid_termination(g: GridIngested, path: Seq<Seq<u8>>) -> bool {
    end_marked(g, path, 2) && end_marked(g, path, 3) && end_marked(g, path, 4)
}

impl Chain for GridIngested {
    open spec fn wf(&self) -> bool {
        &&& self.tf.wf()
        &&& self.width * self.height <= usize::MAX
        &&& self.width + 6 <= usize::MAX
        &&& self.height + 6 <= usize::MAX
    }

    open spec fn size(&self) -> nat {
        (self.width * self.height) as nat
    }

    open spec fn weight(&self, t: Seq<u8>) -> nat {
        self.tf.tally(t)
    }

    open spec fn extends(&self, path: Seq<Seq<u8>>, t: Seq<u8>) -> bool {
        grid_successor(*self, path, t)
    }

    open spec fn closes(&self, path: Seq<Seq<u8>>) -> bool {
        grid_termination(*self, path)
    }

    proof fn weight_fits(&self, t: Seq<u8>) {
    }

    fn total(&self) -> (n: usize) {
        self.width * self.height
    }

    fn count(&self, t: &[u8]) -> (n: u64) {
        self.tf.count(t)
    }

    fn follows(&self, path: &Vec<Vec<u8>>, t: &[u8]) -> (yes: bool) {
        proof {
            assert(self.width * self.height >= 0) by (nonlinear_arith);
        }
        corner_ok(self, path, t, 2) && corner_ok(self, path, t, 3) && corner_ok(self, path, t, 4)
    }

    fn ends(&self, path: &Vec<Vec<u8>>) -> (yes: bool) {
        proof {
            assert(self.width * self.height >= 0) by (nonlinear_arith);
            if self.height == 0 {
                assert(self.width * self.height == 0) by (nonlinear_arith)
                    requires
                        self.height == 0,
                ;
            }
        }
        end_ok(self, path, 2) && end_ok(self, path, 3) && end_ok(self, path, 4)
    }
}

/// The restored order of the given tokens over a chain: by beam search where the
/// beam is wider than one, else by the walk; the tokens themselves where neither
/// succeeds.
pub open spec fn placed_from<C: Chain>(m: C, tokens: Seq<Seq<u8>>, beam: nat) -> Seq<Seq<u8>> {
    let wide = search::beam_result(m, tokens, beam);
    let deep = search::explore(m, tokens, Seq::empty(), WALK_BUDGET as nat).0;
    if tokens.len() == 0 || m.size() == 0 {
        Seq::empty()
    } else if beam > 1 && wide is Some {
        wide->0
    } else if deep is Some {
        deep->0
    } else {
        tokens
    }
}

/// Restores the order of the given tokens over a chain.
pub fn place_tokens<C: Chain>(tokens: &TokenSet, m: &C, beam: usize) -> (out: Vec<Vec<u8>>)
    requires
        tokens.wf(),
        m.wf(),
        beam > 1 ==> m.size() < usize::MAX,
    ensures
        hllset::token_views(out@) == placed_from(*m, tokens.list(), beam as nat),
{
    proof {
        tokens.list_facts();
    }
    let ghost all = tokens.list();
    if tokens.is_empty() || m.total() == 0 {
        let out: Vec<Vec<u8>> = Vec::new();
        proof {
            assert(hllset::token_views(out@) =~= Seq::<Seq<u8>>::empty());
        }
        return out;
    }
    let list = tokens.to_vec();
    if beam > 1 {
        match search::beam_search(m, &list, beam) {
            Some(path) => {
                return path;
            },
            None => {},
        }
    }
    let mut left: Vec<u64> = Vec::new();
    let mut i: usize = 0;
    while i < list.len()
        invariant
            i <= list.len(),
            m.wf(),
            all == hllset::token_views(list@),
            left@.len() == i,
            forall|k: int| 0 <= k < i ==> #[trigger] left@[k] == m.weight(all[k]),
        decreases list.len() - i,
    {
        proof {
            assert(all[i as int] == list@[i as int]@);
        }
        left.push(m.count(list[i].as_slice()));
        i = i + 1;
    }
    let mut path: Vec<Vec<u8>> = Vec::new();
    proof {
        assert(hllset::token_views(path@) =~= Seq::<Seq<u8>>::empty());
        assert(search::counts_left(*m, all, hllset::token_views(path@), left@));
    }
    let mut budget: usize = WALK_BUDGET;
    if search::walk(m, &list, &mut path, &mut left, &mut budget) {
        path
    } else {
        list
    }
}

/// The tokens of a grid.
pub fn materialize_grid_no_order(g: &GridIngested) -> (tokens: TokenSet)
    ensures
        tokens.wf(),
        tokens@ == g.unordered(),
{
    let mut out = TokenSet::new();
    lut::select_into(&mut out, &g.channels[0], &g.luts[0]);
    lut::select_into(&mut out, &g.channels[1], &g.luts[1]);
    lut::select_into(&mut out, &g.channels[2], &g.luts[2]);
    proof {
        assert(out@ =~= g.unordered());
    }
    out
}

fn materialize_grid_with(g: &GridIngested, beam: usize) -> (grid: Grid)
    requires
        g.wf(),
        beam > 1 ==> g.width * g.height < usize::MAX,
    ensures
        grid.width == g.width,
        grid.height == g.height,
        hllset::token_views(grid.cells@) == placed_from(*g, api::listing(g.unordered()), beam as nat),
{
    let tokens = materialize_grid_no_order(g);
    proof {
        api::listing_is(&tokens);
        assert(g.width * g.height >= 0) by (nonlinear_arith);
    }
    let cells = place_tokens(&tokens, g, beam);
    Grid { width: g.width, height: g.height, cells }
}

/// Restores a grid.
pub fn materialize_grid(g: &GridIngested) -> (grid: Grid)
    requires
        g.wf(),
    ensures
        grid.width == g.width,
        grid.height == g.height,
        hllset::token_views(grid.cells@) == placed_from(*g, api::listing(g.unordered()), 1),
{
    materialize_grid_with(g, 1)
}

/// Restores a grid with a beam of the given width.
pub fn materialize_grid_beam(g: &GridIngested, width: usize) -> (grid: Grid)
    requires
        g.wf(),
        width > 1 ==> g.width * g.height < usize::MAX,
    ensures
        grid.width == g.width,
        grid.height == g.height,
        hllset::token_views(grid.cells@) == placed_from(*g, api::listing(g.unordered()), if width > 1 { width as nat } else { 1 }),
{
    let beam: usize = if width > 1 {
        width
    } else {
        1
    };
    materialize_grid_with(g, beam)
}

/// What placing tokens over a chain ends with: nothing, a full chain, or the
/// tokens themselves.
pub proof fn placed_law<C: Chain>(m: C, tokens: Seq<Seq<u8>>, beam: nat)
    ensures
        tokens.len() == 0 || m.size() == 0 ==> placed_from(m, tokens, beam).len() == 0,
        tokens.len() > 0 && m.size() > 0 ==> placed_from(m, tokens, beam) == tokens || search::full_chain(
            m,
            placed_from(m, tokens, beam),
        ),
{
    let empty = Seq::<Seq<u8>>::empty();
    if tokens.len() > 0 && m.size() > 0 {
        if beam > 1 && search::beam_result(m, tokens, beam) is Some {
            search::beam_result_sound(m, tokens, beam);
        } else {
            search::explore_sound(m, tokens, empty, WALK_BUDGET as nat);
        }
    }
}

/// The window that ends at a cell only shows cells up to it.
proof fn block_of_prefix(cells: Seq<Seq<u8>>, w: int, h: int, pad: Seq<u8>, n: nat, k: int)
    requires
        cells.len() == w * h,
        w > 0,
        0 <= k < cells.len(),
        1 <= n <= 4,
    ensures
        0 <= k / w < h,
        0 <= k % w < w,
        block(cells.take(k).push(cells[k]), w, h, pad, n, k / w + 4 - n, k % w + 4 - n) == block(
            cells,
            w,
            h,
            pad,
            n,
            k / w + 4 - n,
            k % w + 4 - n,
        ),
{
    let r = k / w;
    let c = k % w;
    assert(0 <= r < h && r * w + c == k && 0 <= c < w) by (nonlinear_arith)
        requires
            r == k / w,
            c == k % w,
            0 <= k < w * h,
            w > 0,
    ;
    let p = cells.take(k).push(cells[k]);
    let i = r + 4 - n;
    let j = c + 4 - n;
    let x = block_parts(p, w, h, pad, n, i, j);
    let y = block_parts(cells, w, h, pad, n, i, j);
    assert forall|q: int| 0 <= q < n * n implies x[q] == y[q] by {
        let a = i + q / (n as int);
        let b = j + q % (n as int);
        assert(0 <= q / (n as int) < n && 0 <= q % (n as int) < n) by (nonlinear_arith)
            requires
                0 <= q < n * n,
                1 <= n,
        ;
        if inside(w, h, a, b) {
            earlier_index(a - 3, b - 3, r, c, w);
        }
    }
    assert(x =~= y);
}

/// An ingested grid is a full chain of its ingestion.
pub proof fn grid_is_chain(g: GridIngested, cells: Seq<Seq<u8>>, w: int, h: int, pad: Seq<u8>)
    requires
        grid_ingest_of(g, cells, w, h, pad),
        cells.len() == w * h,
        cells.len() > 0,
    ensures
        search::full_chain(g, cells),
{
    if w == 0 {
        assert(w * h == 0) by (nonlinear_arith)
            requires
                w == 0,
        ;
    }
    if h == 0 {
        assert(w * h == 0) by (nonlinear_arith)
            requires
                h == 0,
        ;
    }
    assert forall|k: int| 0 <= k < cells.len() implies g.extends(cells.take(k), #[trigger] cells[k]) by {
        corner_of_grid(g, cells, w, h, pad, 2, k);
        corner_of_grid(g, cells, w, h, pad, 3, k);
        corner_of_grid(g, cells, w, h, pad, 4, k);
    }
    end_of_grid(g, cells, w, h, pad, 2);
    end_of_grid(g, cells, w, h, pad, 3);
    end_of_grid(g, cells, w, h, pad, 4);
    assert forall|t: Seq<u8>| cells.contains(t) implies #[trigger] tf::occurrences(cells, t) <= g.weight(t) by {
        assert(g.tf.tally(t) == tf::occurrences(cells, t));
    }
}

proof fn corner_of_grid(g: GridIngested, cells: Seq<Seq<u8>>, w: int, h: int, pad: Seq<u8>, n: nat, k: int)
    requires
        grid_ingest_of(g, cells, w, h, pad),
        cells.len() == w * h,
        w > 0,
        0 <= k < cells.len(),
        2 <= n <= 4,
    ensures
        corner_marked(g, cells.take(k), cells[k], n),
{
    block_of_prefix(cells, w, h, pad, n, k);
    let i = k / w + 4 - n;
    let j = k % w + 4 - n;
    assert(g.channels@[n - 1]@ == block_bits(cells, w, h, pad, n));
    assert(block_bits(cells, w, h, pad, n).contains(block_bit(cells, w, h, pad, n, i, j)));
    assert(cells.take(k).len() == k);
}

proof fn end_of_grid(g: GridIngested, cells: Seq<Seq<u8>>, w: int, h: int, pad: Seq<u8>, n: nat)
    requires
        grid_ingest_of(g, cells, w, h, pad),
        cells.len() > 0,
        w > 0,
        h > 0,
        2 <= n <= 4,
    ensures
        end_marked(g, cells, n),
{
    assert(g.channels@[n - 1]@ == block_bits(cells, w, h, pad, n));
    assert(block_bits(cells, w, h, pad, n).contains(block_bit(cells, w, h, pad, n, h + 3 - n, w + 4 - n)));
}

/// The plain restoration of an ingested grid is exactly its set of tokens.
pub proof fn grid_unordered_law(g: GridIngested, cells: Seq<Seq<u8>>, w: int, h: int, pad: Seq<u8>)
    requires
        grid_ingest_of(g, cells, w, h, pad),
        cells.len() == w * h,
    ensures
        g.unordered() == cells.to_set(),
{
    assert forall|t: Seq<u8>| g.unordered().contains(t) == cells.to_set().contains(t) by {
        assert(g.channels@[1 - 1]@ == (if cells.len() > 0 { block_bits(cells, w, h, pad, 1) } else { Set::empty() }));
        assert(g.luts@[1 - 1]@ == (if cells.len() > 0 { block_rows(cells, w, h, pad, 1) } else { Set::empty() }));
        assert(g.luts@[2 - 1]@ == (if cells.len() > 0 { block_rows(cells, w, h, pad, 2) } else { Set::empty() }));
        assert(g.luts@[3 - 1]@ == (if cells.len() > 0 { block_rows(cells, w, h, pad, 3) } else { Set::empty() }));
        if cells.contains(t) {
            let k = choose|k: int| 0 <= k < cells.len() && cells[k] == t;
            if w == 0 {
                assert(w * h == 0) by (nonlinear_arith)
                    requires
                        w == 0,
                ;
            }
            block_of_prefix(cells, w, h, pad, 1, k);
            let i = k / w + 3;
            let j = k % w + 3;
            assert((i - 3) * w + (j - 3) == k) by (nonlinear_arith)
                requires
                    i == k / w + 3,
                    j == k % w + 3,
                    w > 0,
            ;
            let b = block_bit(cells, w, h, pad, 1, i, j);
            assert(inside(w, h, i, j));
            assert(block_bits(cells, w, h, pad, 1).contains(b));
            assert(block_rows(cells, w, h, pad, 1).contains((b, t)));
            assert(lut::selected(g.channels@[0]@, g.luts@[0]@).contains(t));
        }
        if g.unordered().contains(t) {
            if lut::selected(g.channels@[0]@, g.luts@[0]@).contains(t) {
                let b = choose|b: u32| #[trigger] g.channels@[0]@.contains(b) && g.luts@[0]@.contains((b, t));
                grid_row_token(cells, w, h, pad, 1, (b, t));
            } else if lut::selected(g.channels@[1]@, g.luts@[1]@).contains(t) {
                let b = choose|b: u32| #[trigger] g.channels@[1]@.contains(b) && g.luts@[1]@.contains((b, t));
                grid_row_token(cells, w, h, pad, 2, (b, t));
            } else {
                let b = choose|b: u32| #[trigger] g.channels@[2]@.contains(b) && g.luts@[2]@.contains((b, t));
                grid_row_token(cells, w, h, pad, 3, (b, t));
            }
        }
    }
    assert(g.unordered() =~= cells.to_set());
}

proof fn grid_row_token(cells: Seq<Seq<u8>>, w: int, h: int, pad: Seq<u8>, n: nat, r: (u32, Seq<u8>))
    requires
        block_rows(cells, w, h, pad, n).contains(r),
        cells.len() == w * h,
    ensures
        cells.contains(r.1),
{
    let (i, j) = choose|i: int, j: int|
        inside(w, h, i, j) && #[trigger] block_bit(cells, w, h, pad, n, i, j) == r.0 && cells[(i - 3) * w + (j - 3)] == r.1;
    cell_index(i - 3, j - 3, w, h);
}

/// What the restoration of an ingested grid gives back: a rearrangement of its
/// cells, or its distinct tokens in byte order.
pub proof fn grid_restoration_law(g: GridIngested, cells: Seq<Seq<u8>>, w: int, h: int, pad: Seq<u8>, beam: nat)
    requires
        grid_ingest_of(g, cells, w, h, pad),
        cells.len() == w * h,
    ensures
        ({
            let out = placed_from(g, api::listing(g.unordered()), beam);
            out.to_multiset() == cells.to_multiset() || out == api::listing(cells.to_set())
        }),
{
    grid_unordered_law(g, cells, w, h, pad);
    vstd::seq_lib::seq_to_set_is_finite(cells);
    api::listing_exists(cells.to_set());
    let all = api::listing(g.unordered());
    let out = placed_from(g, all, beam);
    placed_law(g, all, beam);
    if cells.len() == 0 || all.len() == 0 {
        if cells.len() > 0 {
            assert(cells.to_set().contains(cells[0]));
            assert(all.contains(cells[0]));
        }
        assert(out =~= cells);
    } else if search::full_chain(g, out) {
        assert forall|t: Seq<u8>| #[trigger] g.weight(t) == tf::occurrences(cells, t) by {
            assert(g.tf.tally(t) == tf::occurrences(cells, t));
        }
        search::chain_rearranges(g, cells, out);
    }
}

/// What is restored depends on the cells, the size, the padding and the beam
/// alone.
pub proof fn grid_restoration_determined(
    a: GridIngested,
    b: GridIngested,
    cells: Seq<Seq<u8>>,
    w: int,
    h: int,
    pad: Seq<u8>,
    beam: nat,
)
    requires
        grid_ingest_of(a, cells, w, h, pad),
        grid_ingest_of(b, cells, w, h, pad),
        cells.len() == w * h,
    ensures
        a.unordered() == b.unordered(),
        placed_from(a, api::listing(a.unordered()), beam) == placed_from(b, api::listing(b.unordered()), beam),
{
    grid_unordered_law(a, cells, w, h, pad);
    grid_unordered_law(b, cells, w, h, pad);
    assert forall|n: nat, bytes: Seq<u8>| 1 <= n <= 4 implies #[trigger] grid_marked(a, n, bytes) == grid_marked(
        b,
        n,
        bytes,
    ) by {
        assert(a.channels@[n - 1]@ == b.channels@[n - 1]@);
    }
    assert(search::alike(a, b));
    search::alike_searches(a, b, api::listing(a.unordered()), beam, WALK_BUDGET as nat);
}

/// Whether the walk over a chain ends within its budget.
pub open spec fn placing_ends<C: Chain>(m: C, tokens: Seq<Seq<u8>>) -> bool {
    search::explore(m, tokens, Seq::empty(), WALK_BUDGET as nat).1 > 0
}

/// Where the walk ends within its budget, what is placed is a full chain.
pub proof fn complete_placing<C: Chain>(m: C, tokens: Seq<Seq<u8>>, full: Seq<Seq<u8>>, beam: nat)
    requires
        search::full_chain(m, full),
        full.len() > 0,
        forall|t: Seq<u8>| #[trigger] full.contains(t) ==> tokens.contains(t),
        placing_ends(m, tokens),
    ensures
        search::full_chain(m, placed_from(m, tokens, beam)),
        search::sole(m, full) ==> placed_from(m, tokens, beam) == full,
{
    let empty = Seq::<Seq<u8>>::empty();
    assert(full.contains(full[0]));
    assert(full.take(0) =~= empty);
    search::first_candidate(m, tokens, full);
    search::beam_result_sound(m, tokens, beam);
    search::explore_sound(m, tokens, empty, WALK_BUDGET as nat);
    search::explore_complete(m, tokens, full, 0, WALK_BUDGET as nat);
}

/// A path that can be walked without a choice within the budget is what is placed.
pub proof fn exact_placing<C: Chain>(m: C, tokens: Seq<Seq<u8>>, full: Seq<Seq<u8>>, beam: nat)
    requires
        search::straight(m, tokens, full),
        tokens.len() > 0,
        0 < full.len() < WALK_BUDGET,
    ensures
        placed_from(m, tokens, beam) == full,
{
    assert(full.take(0) =~= Seq::empty());
    search::straight_walk(m, tokens, full, 0, WALK_BUDGET as nat);
    if beam > 1 {
        search::straight_beam(m, tokens, full, beam);
    }
}

/// Where the walk over a grid ends within its budget, every cell is restored as
/// often as the grid has it; where the grid is the only full chain, the grid itself
/// is.
pub proof fn complete_grid_restoration(g: GridIngested, cells: Seq<Seq<u8>>, w: int, h: int, pad: Seq<u8>, beam: nat)
    requires
        grid_ingest_of(g, cells, w, h, pad),
        cells.len() == w * h,
        cells.len() > 0,
        placing_ends(g, api::listing(g.unordered())),
    ensures
        ({
            let out = placed_from(g, api::listing(g.unordered()), beam);
            &&& out.to_multiset() == cells.to_multiset()
            &&& search::sole(g, cells) ==> out == cells
        }),
{
    grid_unordered_law(g, cells, w, h, pad);
    vstd::seq_lib::seq_to_set_is_finite(cells);
    api::listing_exists(cells.to_set());
    grid_is_chain(g, cells, w, h, pad);
    let all = api::listing(g.unordered());
    assert forall|t: Seq<u8>| #[trigger] cells.contains(t) implies all.contains(t) by {
        assert(cells.to_set().contains(t));
        assert(all.to_set().contains(t));
    }
    complete_placing(g, all, cells, beam);
    assert forall|t: Seq<u8>| #[trigger] g.weight(t) == tf::occurrences(cells, t) by {
        assert(g.tf.tally(t) == tf::occurrences(cells, t));
    }
    search::chain_rearranges(g, cells, placed_from(g, all, beam));
}

/// A grid that can be walked without a choice, and has fewer cells than the budget,
/// is restored exactly.
pub proof fn exact_grid_restoration(g: GridIngested, cells: Seq<Seq<u8>>, w: int, h: int, pad: Seq<u8>, beam: nat)
    requires
        grid_ingest_of(g, cells, w, h, pad),
        cells.len() == w * h,
        search::straight(g, api::listing(cells.to_set()), cells),
        cells.len() < WALK_BUDGET,
    ensures
        placed_from(g, api::listing(g.unordered()), beam) == cells,
{
    grid_unordered_law(g, cells, w, h, pad);
    vstd::seq_lib::seq_to_set_is_finite(cells);
    api::listing_exists(cells.to_set());
    let all = api::listing(cells.to_set());
    if cells.len() > 0 {
        assert(cells.to_set().contains(cells[0]));
        assert(all.to_set().contains(cells[0]));
        assert(all.contains(cells[0]));
        exact_placing(g, all, cells, beam);
    } else {
        assert(cells =~= Seq::empty());
    }
}

/// The cell of a grid in a row and a column, the pad outside.
pub open spec fn cell_or_pad(cells: Seq<Seq<u8>>, w: int, h: int, pad: Seq<u8>, row: int, column: int) -> Seq<u8> {
    if 0 <= row < h && 0 <= column < w {
        cells[row * w + column]
    } else {
        pad
    }
}

/// The joined cells of a square of `n` by `n` cells, row by row, whose upper left
/// corner stands in the given row and column.
pub open spec fn square(cells: Seq<Seq<u8>>, w: int, h: int, pad: Seq<u8>, n: int, row: int, column: int) -> Seq<u8> {
    api::gram(Seq::new((n * n) as nat, |k: int| cell_or_pad(cells, w, h, pad, row + k / n, column + k % n)))
}

/// Whether the channels of two, three and four hold all squares of a grid that end in
/// one of its cells, and the three that reach one column past its last cell.
pub open spec fn squares_marked(g: GridIngested, q: Seq<Seq<u8>>) -> bool {
    let w = g.width as int;
    let h = g.height as int;
    &&& forall|n: int, row: int, column: int|
        2 <= n <= 4 && 0 <= row < h && 0 <= column < w ==> g.channels@[n - 1]@.contains(
            hashing::token_bit(#[trigger] square(q, w, h, g.pad@, n, row + 1 - n, column + 1 - n), (n + 2) as u64),
        )
    &&& forall|n: int|
        2 <= n <= 4 ==> g.channels@[n - 1]@.contains(
            hashing::token_bit(#[trigger] square(q, w, h, g.pad@, n, h - n, w + 1 - n), (n + 2) as u64),
        )
}

proof fn block_is_square(cells: Seq<Seq<u8>>, w: int, h: int, pad: Seq<u8>, n: int, i: int, j: int)
    requires
        1 <= n <= 4,
    ensures
        block(cells, w, h, pad, n as nat, i, j) == square(cells, w, h, pad, n, i - 3, j - 3),
{
    let x = block_parts(cells, w, h, pad, n as nat, i, j);
    let y = Seq::new((n * n) as nat, |k: int| cell_or_pad(cells, w, h, pad, i - 3 + k / n, j - 3 + k % n));
    assert(n * n >= 0) by (nonlinear_arith)
        requires
            n >= 1,
    ;
    assert(x =~= y);
}

/// The squares that decide whether a cell may stand where it does.
proof fn corner_squares(g: GridIngested, q: Seq<Seq<u8>>, n: int, row: int, column: int)
    requires
        2 <= n <= 4,
        q.len() == g.width * g.height,
        0 <= row < g.height,
        0 <= column < g.width,
    ensures
        0 <= row * g.width + column < q.len(),
        corner_marked(g, q.take(row * g.width + column), q[row * g.width + column], n as nat) == g.channels@[n - 1]@.contains(
            hashing::token_bit(
                square(q, g.width as int, g.height as int, g.pad@, n, row + 1 - n, column + 1 - n),
                (n + 2) as u64,
            ),
        ),
{
    let w = g.width as int;
    let h = g.height as int;
    let k = row * w + column;
    assert(0 <= k < w * h && k / w == row && k % w == column) by (nonlinear_arith)
        requires
            k == row * w + column,
            0 <= row < h,
            0 <= column < w,
    ;
    block_of_prefix(q, w, h, g.pad@, n as nat, k);
    block_is_square(q, w, h, g.pad@, n, row + 4 - n, column + 4 - n);
    assert(q.take(k).len() == k);
}

/// A full chain over a grid is a list of as many cells as the grid has, none more
/// often than it was counted, all of whose squares are marked; and every such list is
/// a full chain.
pub proof fn grid_chain_law(g: GridIngested, q: Seq<Seq<u8>>)
    requires
        g.width > 0,
        g.height > 0,
    ensures
        search::full_chain(g, q) <==> {
            &&& q.len() == g.width * g.height
            &&& forall|t: Seq<u8>| q.contains(t) ==> #[trigger] tf::occurrences(q, t) <= g.tf.tally(t)
            &&& squares_marked(g, q)
        },
{
    let w = g.width as int;
    let h = g.height as int;
    assert(w * h > 0) by (nonlinear_arith)
        requires
            w > 0,
            h > 0,
    ;
    assert forall|n: int| 2 <= n <= 4 implies #[trigger] end_marked(g, q, n as nat) == g.channels@[n - 1]@.contains(
        hashing::token_bit(square(q, w, h, g.pad@, n, h - n, w + 1 - n), (n + 2) as u64),
    ) by {
        block_is_square(q, w, h, g.pad@, n, h + 3 - n, w + 4 - n);
    }
    assert(end_marked(g, q, 2int as nat) == end_marked(g, q, 2));
    assert(end_marked(g, q, 3int as nat) == end_marked(g, q, 3));
    assert(end_marked(g, q, 4int as nat) == end_marked(g, q, 4));
    if search::full_chain(g, q) {
        assert forall|t: Seq<u8>| q.contains(t) implies #[trigger] tf::occurrences(q, t) <= g.tf.tally(t) by {
            assert(g.weight(t) == g.tf.tally(t));
        }
        assert forall|n: int, row: int, column: int|
            2 <= n <= 4 && 0 <= row < h && 0 <= column < w implies g.channels@[n - 1]@.contains(
            hashing::token_bit(#[trigger] square(q, w, h, g.pad@, n, row + 1 - n, column + 1 - n), (n + 2) as u64),
        ) by {
            corner_squares(g, q, n, row, column);
            let k = row * w + column;
            assert(g.extends(q.take(k), q[k]));
            if n == 2 {
                assert(corner_marked(g, q.take(k), q[k], 2));
            } else if n == 3 {
                assert(corner_marked(g, q.take(k), q[k], 3));
            } else {
                assert(corner_marked(g, q.take(k), q[k], 4));
            }
        }
        assert forall|n: int| 2 <= n <= 4 implies g.channels@[n - 1]@.contains(
            hashing::token_bit(#[trigger] square(q, w, h, g.pad@, n, h - n, w + 1 - n), (n + 2) as u64),
        ) by {
            assert(end_marked(g, q, n as nat));
        }
    }
    if q.len() == w * h && squares_marked(g, q) {
        assert forall|k: int| 0 <= k < q.len() implies g.extends(q.take(k), #[trigger] q[k]) by {
            let row = k / w;
            let column = k % w;
            assert(0 <= row < h && row * w + column == k && 0 <= column < w) by (nonlinear_arith)
                requires
                    row == k / w,
                    column == k % w,
                    0 <= k < w * h,
                    w > 0,
            ;
            corner_squares(g, q, 2, row, column);
            corner_squares(g, q, 3, row, column);
            corner_squares(g, q, 4, row, column);
            assert(square(q, w, h, g.pad@, 2, row + 1 - 2, column + 1 - 2).len() >= 0);
            assert(square(q, w, h, g.pad@, 3, row + 1 - 3, column + 1 - 3).len() >= 0);
            assert(square(q, w, h, g.pad@, 4, row + 1 - 4, column + 1 - 4).len() >= 0);
        }
        assert(square(q, w, h, g.pad@, 2, h - 2, w + 1 - 2).len() >= 0);
        assert(square(q, w, h, g.pad@, 3, h - 3, w + 1 - 3).len() >= 0);
        assert(square(q, w, h, g.pad@, 4, h - 4, w + 1 - 4).len() >= 0);
        assert(g.closes(q));
    }
}

/// What is restored of a grid, other than the plain list of its tokens, fills the grid
/// with no token more often than it was counted and with marked squares only. Every
/// other such filling parts from one that was walked to at a token that is tried
/// later.
pub proof fn restored_squares(g: GridIngested, beam: nat)
    requires
        g.width > 0,
        g.height > 0,
        placed_from(g, api::listing(g.unordered()), beam) != api::listing(g.unordered()),
    ensures
        ({
            let out = placed_from(g, api::listing(g.unordered()), beam);
            &&& out.len() == g.width * g.height
            &&& squares_marked(g, out)
            &&& forall|t: Seq<u8>| out.contains(t) ==> #[trigger] tf::occurrences(out, t) <= g.tf.tally(t)
            &&& beam <= 1 ==> forall|q: Seq<Seq<u8>>|
                q.len() == g.width * g.height && (forall|t: Seq<u8>|
                    q.contains(t) ==> #[trigger] tf::occurrences(q, t) <= g.tf.tally(t)) && #[trigger] squares_marked(g, q) && (
                forall|t: Seq<u8>| #[trigger] q.contains(t) ==> api::listing(g.unordered()).contains(t)) ==> search::no_later(
                    g,
                    out,
                    q,
                )
        }),
{
    let all = api::listing(g.unordered());
    let out = placed_from(g, all, beam);
    let w = g.width as int;
    let h = g.height as int;
    assert(w * h > 0) by (nonlinear_arith)
        requires
            w > 0,
            h > 0,
    ;
    placed_law(g, all, beam);
    if all.len() == 0 {
        assert(out =~= all);
    }
    grid_chain_law(g, out);
    if beam <= 1 {
        assert forall|q: Seq<Seq<u8>>|
            q.len() == g.width * g.height && (forall|t: Seq<u8>|
                q.contains(t) ==> #[trigger] tf::occurrences(q, t) <= g.tf.tally(t)) && #[trigger] squares_marked(g, q) && (
            forall|t: Seq<u8>| #[trigger] q.contains(t) ==> all.contains(t)) implies search::no_later(g, out, q) by {
            grid_chain_law(g, q);
            assert(q.take(0) =~= Seq::empty());
            search::explore_first(g, all, q, 0, WALK_BUDGET as nat);
        }
    }
}

/// What an ingestion marks of a grid: in the channel of size `n` the bit of every
/// square of `n` by `n` cells that lies within three pads around the grid, and no
/// other; each square that starts at a cell points at that cell.
pub proof fn grid_ingestion_law(g: GridIngested, cells: Seq<Seq<u8>>, w: int, h: int, pad: Seq<u8>, n: int)
    requires
        grid_ingest_of(g, cells, w, h, pad),
        cells.len() > 0,
        1 <= n <= 4,
    ensures
        ({
            let seed: u64 = if n == 1 { 0 } else { (n + 2) as u64 };
            &&& forall|i: int, j: int|
                -3 <= i <= h + 3 - n && -3 <= j <= w + 3 - n ==> g.channels@[n - 1]@.contains(
                    hashing::token_bit(#[trigger] square(cells, w, h, pad, n, i, j), seed),
                )
            &&& forall|b: u32| #[trigger]
                g.channels@[n - 1]@.contains(b) ==> exists|i: int, j: int|
                    -3 <= i <= h + 3 - n && -3 <= j <= w + 3 - n && b == hashing::token_bit(
                        #[trigger] square(cells, w, h, pad, n, i, j),
                        seed,
                    )
            &&& forall|i: int, j: int|
                0 <= i < h && 0 <= j < w ==> g.luts@[n - 1]@.contains(
                    (hashing::token_bit(#[trigger] square(cells, w, h, pad, n, i, j), seed), cells[i * w + j]),
                )
        }),
{
    let seed: u64 = if n == 1 { 0 } else { (n + 2) as u64 };
    assert(conv::seed_of(n, 2) as u64 == seed);
    assert(g.channels@[n - 1]@ == block_bits(cells, w, h, pad, n as nat));
    assert(g.luts@[n - 1]@ == block_rows(cells, w, h, pad, n as nat));
    assert forall|i: int, j: int| -3 <= i <= h + 3 - n && -3 <= j <= w + 3 - n implies g.channels@[n - 1]@.contains(
        hashing::token_bit(#[trigger] square(cells, w, h, pad, n, i, j), seed),
    ) by {
        block_is_square(cells, w, h, pad, n, i + 3, j + 3);
        assert(block_bit(cells, w, h, pad, n as nat, i + 3, j + 3) == hashing::token_bit(square(cells, w, h, pad, n, i, j), seed));
    }
    assert forall|b: u32| #[trigger] g.channels@[n - 1]@.contains(b) implies exists|i: int, j: int|
        -3 <= i <= h + 3 - n && -3 <= j <= w + 3 - n && b == hashing::token_bit(
            #[trigger] square(cells, w, h, pad, n, i, j),
            seed,
        ) by {
        let (i, j) = choose|i: int, j: int|
            0 <= i <= h + 6 - n && 0 <= j <= w + 6 - n && #[trigger] block_bit(cells, w, h, pad, n as nat, i, j) == b;
        block_is_square(cells, w, h, pad, n, i, j);
        assert(b == hashing::token_bit(square(cells, w, h, pad, n, i - 3, j - 3), seed));
    }
    assert forall|i: int, j: int| 0 <= i < h && 0 <= j < w implies g.luts@[n - 1]@.contains(
        (hashing::token_bit(#[trigger] square(cells, w, h, pad, n, i, j), seed), cells[i * w + j]),
    ) by {
        block_is_square(cells, w, h, pad, n, i + 3, j + 3);
        assert(inside(w, h, i + 3, j + 3));
        assert(block_bit(cells, w, h, pad, n as nat, i + 3, j + 3) == hashing::token_bit(square(cells, w, h, pad, n, i, j), seed));
    }
}

/// What is restored over a chain: what a beam wider than one ends with, else the first
/// full chain that the walk comes to, else the tokens as they are; the walk does not
/// depend on the beam.
pub proof fn placed_by_beam<C: Chain>(m: C, tokens: Seq<Seq<u8>>, beam: nat)
    requires
        tokens.len() > 0,
        m.size() > 0,
    ensures
        beam <= 1 ==> placed_from(m, tokens, beam) == placed_from(m, tokens, 1),
        beam > 1 && search::beam_result(m, tokens, beam) is None ==> placed_from(m, tokens, beam) == placed_from(m, tokens, 1),
        beam > 1 ==> (search::beam_result(m, tokens, beam) matches Some(q) ==> placed_from(m, tokens, beam) == q),
        placed_from(m, tokens, 1) == tokens || search::full_chain(m, placed_from(m, tokens, 1)),
{
    search::explore_sound(m, tokens, Seq::empty(), WALK_BUDGET as nat);
}

} // verus!
