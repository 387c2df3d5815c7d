//! Collections in any number of dimensions: ingestion of the cubic windows of a
//! padded tensor, and its restoration cell by cell.

use vstd::prelude::*;

use crate::morphisms::api::WALK_BUDGET;
use crate::hashing::BitAddress;
use crate::hllset::HLLSet;
use crate::lut::LutIndex;
use crate::lut::TokenSet;
use crate::morphisms::api::PAD;
use crate::morphisms::conv::ConvSpec;
use crate::morphisms::hllset_lut::HllsetLut;
use crate::search::Chain;
use crate::tf::TfTable;
use crate::hashing;
use crate::hllset;
use crate::lut;
use crate::morphisms::api;
use crate::morphisms::conv;
use crate::morphisms::grid;
use crate::morphisms::hllset_lut;
use crate::search;
use crate::text;
use crate::tf;

verus! {

/// The largest window side.
pub const TENSOR_MAX_N: usize = 4;

/// Pad cells on each side of every axis.
pub const TENSOR_BORDER: usize = 3;

/// The number of cells of a shape.
pub open spec fn volume(shape: Seq<usize>) -> nat
    decreases shape.len(),
{
    if shape.len() == 0 {
        1
    } else {
        volume(shape.drop_last()) * (shape.last() as nat)
    }
}

/// `n` to the power `dim`.
pub open spec fn cube(n: nat, dim: nat) -> nat
    decreases dim,
{
    if dim == 0 {
        1
    } else {
        cube(n, (dim - 1) as nat) * n
    }
}

/// The place of a position in the order of cells, the last axis fastest.
pub open spec fn flat(shape: Seq<usize>, pos: Seq<int>) -> int
    decreases shape.len(),
{
    if shape.len() == 0 {
        0
    } else {
        flat(shape.drop_last(), pos.drop_last()) * shape.last() + pos.last()
    }
}

/// The position of a cell, given its place.
pub open spec fn multi(shape: Seq<usize>, k: int) -> Seq<int>
    decreases shape.len(),
{
    if shape.len() == 0 {
        Seq::empty()
    } else {
        multi(shape.drop_last(), k / (shape.last() as int)).push(k % (shape.last() as int))
    }
}

/// The offset of a cell of a window of side `n`, given its place in the window.
pub open spec fn offset(n: nat, dim: nat, k: int) -> Seq<int>
    decreases dim,
{
    if dim == 0 {
        Seq::empty()
    } else {
        offset(n, (dim - 1) as nat, k / (n as int)).push(k % (n as int))
    }
}

/// Positions within a shape.
pub open spec fn within(shape: Seq<usize>, pos: Seq<int>) -> bool {
    pos.len() == shape.len() && forall|a: int| 0 <= a < shape.len() ==> 0 <= #[trigger] pos[a] < shape[a]
}

/// A position moved by the same amount along every axis.
pub open spec fn moved(pos: Seq<int>, by: int) -> Seq<int> {
    Seq::new(pos.len(), |a: int| pos[a] + by)
}

/// The sum of two positions.
pub open spec fn plus(a: Seq<int>, b: Seq<int>) -> Seq<int> {
    Seq::new(a.len(), |i: int| a[i] + b[i])
}

/// The token at a position of the padded tensor.
pub open spec fn padded_at(cells: Seq<Seq<u8>>, shape: Seq<usize>, pad: Seq<u8>, pos: Seq<int>) -> Seq<u8> {
    if within(shape, moved(pos, -3)) {
        cells[flat(shape, moved(pos, -3))]
    } else {
        pad
    }
}

/// The tokens of the window of side `n` at an anchor, in order.
pub open spec fn cube_parts(cells: Seq<Seq<u8>>, shape: Seq<usize>, pad: Seq<u8>, n: nat, anchor: Seq<int>) -> Seq<
    Seq<u8>,
> {
    Seq::new(cube(n, shape.len()), |k: int| padded_at(cells, shape, pad, plus(anchor, offset(n, shape.len(), k))))
}

/// The bit of a window.
pub open spec fn cube_bit(cells: Seq<Seq<u8>>, shape: Seq<usize>, pad: Seq<u8>, n: nat, anchor: Seq<int>) -> u32 {
    hashing::token_bit(api::gram(cube_parts(cells, shape, pad, n, anchor)), conv::seed_of(n as int, shape.len() as int) as u64)
}

/// The anchors at which a window of side `n` fits into the padded tensor.
pub open spec fn anchored(shape: Seq<usize>, n: nat, anchor: Seq<int>) -> bool {
    anchor.len() == shape.len() && forall|a: int|
        0 <= a < shape.len() ==> 0 <= #[trigger] anchor[a] && anchor[a] <= shape[a] + 6 - n
}

/// The bits of all windows of side `n`.
pub open spec fn cube_bits(cells: Seq<Seq<u8>>, shape: Seq<usize>, pad: Seq<u8>, n: nat) -> Set<u32> {
    Set::new(
        |b: u32|
            exists|anchor: Seq<int>|
                anchored(shape, n, anchor) && #[trigger] cube_bit(cells, shape, pad, n, anchor) == b,
    )
}

/// The pairs of the windows at real cells with those cells.
pub open spec fn cube_rows(cells: Seq<Seq<u8>>, shape: Seq<usize>, pad: Seq<u8>, n: nat) -> Set<(u32, Seq<u8>)> {
    Set::new(
        |r: (u32, Seq<u8>)|
            exists|anchor: Seq<int>|
                within(shape, moved(anchor, -3)) && #[trigger] cube_bit(cells, shape, pad, n, anchor) == r.0
                    && cells[flat(shape, moved(anchor, -3))] == r.1,
    )
}

/// The values of a list of positions.
pub open spec fn places(v: Seq<usize>) -> Seq<int> {
    v.map_values(|x: usize| x as int)
}

/// A tensor of tokens, the last axis fastest.
#[derive(Clone, Debug, PartialEq, Eq)]
pub struct Tensor {
    pub shape: Vec<usize>,
    pub cells: Vec<Vec<u8>>,
}

impl Tensor {
    /// One cell for each place.
    pub open spec fn wf(&self) -> bool {
        self.cells.len() == volume(self.shape@)
    }

    /// Sizes that indexing can handle.
    pub open spec fn fits(&self) -> bool {
        sizes_fit(self.shape@)
    }

    pub fn new(shape: Vec<usize>, cells: Vec<Vec<u8>>) -> (t: Tensor)
        requires
            cells.len() == volume(shape@),
        ensures
            t.wf(),
            t.shape == shape,
            t.cells == cells,
    {
        Tensor { shape, cells }
    }

    /// The number of axes.
    pub fn dims(&self) -> (n: usize)
        ensures
            n == self.shape@.len(),
    {
        self.shape.len()
    }

    pub fn len(&self) -> (n: usize)
        ensures
            n == self.cells@.len(),
    {
        self.cells.len()
    }

    pub fn is_empty(&self) -> (yes: bool)
        ensures
            yes == (self.cells@.len() == 0),
    {
        self.cells.len() == 0
    }
}

/// Shapes whose padded sizes and largest windows a `usize` can count.
pub open spec fn sizes_fit(shape: Seq<usize>) -> bool {
    &&& cube(4, shape.len()) <= usize::MAX
    &&& forall|a: int| 0 <= a < shape.len() ==> #[trigger] shape[a] + 6 <= usize::MAX
}

/// Powers grow with the base and the exponent.
proof fn cube_grows(n: nat, m: nat, d: nat, e: nat)
    requires
        1 <= n <= m,
        d <= e,
    ensures
        1 <= cube(n, d) <= cube(m, e),
        cube(n, d) <= cube(n, e),
    decreases e,
{
    if e == 0 {
    } else if d == e {
        cube_grows(n, m, (d - 1) as nat, (e - 1) as nat);
        let x = cube(n, (d - 1) as nat);
        let y = cube(m, (e - 1) as nat);
        assert(1 <= x * n <= y * m) by (nonlinear_arith)
            requires
                1 <= x <= y,
                1 <= n <= m,
        ;
    } else {
        cube_grows(n, m, d, (e - 1) as nat);
        cube_grows(n, n, d, (e - 1) as nat);
        let y = cube(m, (e - 1) as nat);
        let x = cube(n, (e - 1) as nat);
        assert(y <= y * m && x <= x * n) by (nonlinear_arith)
            requires
                1 <= m,
                1 <= n,
        ;
    }
}

/// Windows of side four that a `usize` can count have at most 31 axes.
proof fn few_axes(dim: nat)
    requires
        cube(4, dim) <= usize::MAX,
    ensures
        dim <= 31,
{
    if dim >= 32 {
        cube_grows(4, 4, 32, dim);
        assert(cube(4, 32) == 0x1_0000_0000_0000_0000) by {
            reveal_with_fuel(cube, 33);
        }
    }
}

/// Places of positions within a shape lie below its volume, and no later
/// position has a smaller place.
proof fn flat_bounds(shape: Seq<usize>, pos: Seq<int>)
    requires
        within(shape, pos),
    ensures
        0 <= flat(shape, pos) < volume(shape),
    decreases shape.len(),
{
    if shape.len() > 0 {
        let s = shape.drop_last();
        let p = pos.drop_last();
        assert(within(s, p)) by {
            assert forall|a: int| 0 <= a < s.len() implies 0 <= #[trigger] p[a] < s[a] by {
                assert(p[a] == pos[a]);
            }
        }
        flat_bounds(s, p);
        let f = flat(s, p);
        let v = volume(s) as int;
        let l = shape.last() as int;
        let q = pos.last();
        assert(pos[shape.len() - 1] == q);
        assert(0 <= f * l + q < v * l) by (nonlinear_arith)
            requires
                0 <= f < v,
                0 <= q < l,
        ;
    }
}

proof fn flat_monotone(shape: Seq<usize>, a: Seq<int>, b: Seq<int>)
    requires
        within(shape, a),
        within(shape, b),
        forall|i: int| 0 <= i < shape.len() ==> #[trigger] a[i] <= b[i],
    ensures
        flat(shape, a) <= flat(shape, b),
    decreases shape.len(),
{
    if shape.len() > 0 {
        let s = shape.drop_last();
        let x = a.drop_last();
        let y = b.drop_last();
        assert forall|i: int| 0 <= i < s.len() implies 0 <= #[trigger] x[i] < s[i] by {
            assert(x[i] == a[i]);
        }
        assert forall|i: int| 0 <= i < s.len() implies 0 <= #[trigger] y[i] < s[i] by {
            assert(y[i] == b[i]);
        }
        assert forall|i: int| 0 <= i < s.len() implies #[trigger] x[i] <= y[i] by {
            assert(x[i] == a[i]);
        }
        flat_monotone(s, x, y);
        let f = flat(s, x);
        let g = flat(s, y);
        let l = shape.last() as int;
        assert(a[shape.len() - 1] <= b[shape.len() - 1]);
        assert(f * l <= g * l) by (nonlinear_arith)
            requires
                f <= g,
                0 <= l,
        ;
    }
}

/// The position of a place has that place.
proof fn multi_facts(shape: Seq<usize>, k: int)
    requires
        0 <= k < volume(shape),
    ensures
        within(shape, multi(shape, k)),
        flat(shape, multi(shape, k)) == k,
    decreases shape.len(),
{
    if shape.len() > 0 {
        let s = shape.drop_last();
        let v = volume(s) as int;
        let l = shape.last() as int;
        assert(l > 0) by (nonlinear_arith)
            requires
                0 <= k < v * l,
                l >= 0,
        ;
        let q = k / l;
        let r = k % l;
        assert(0 <= q < v && q * l + r == k && 0 <= r < l) by (nonlinear_arith)
            requires
                q == k / l,
                r == k % l,
                0 <= k < v * l,
                l > 0,
        ;
        multi_facts(s, q);
        let m = multi(shape, k);
        assert(m.drop_last() =~= multi(s, q));
        assert forall|a: int| 0 <= a < shape.len() implies 0 <= #[trigger] m[a] < shape[a] by {
            if a < s.len() {
                assert(m[a] == multi(s, q)[a]);
                assert(s[a] == shape[a]);
            }
        }
    }
}

/// A shape with cells has no empty axis, and its leading axes span no more.
proof fn volume_facts(shape: Seq<usize>, d: nat)
    requires
        volume(shape) > 0,
        d <= shape.len(),
    ensures
        0 < volume(shape.take(d as int)) <= volume(shape),
        forall|a: int| 0 <= a < shape.len() ==> #[trigger] shape[a] > 0,
    decreases shape.len(),
{
    if shape.len() == 0 {
        assert(shape.take(0) =~= shape);
    } else {
        let s = shape.drop_last();
        let v = volume(s);
        let l = shape.last() as nat;
        assert(v > 0 && l > 0 && v <= v * l) by (nonlinear_arith)
            requires
                v * l > 0,
        ;
        if d < shape.len() {
            volume_facts(s, d);
            assert(s.take(d as int) =~= shape.take(d as int));
        } else {
            volume_facts(s, s.len());
            assert(shape.take(d as int) =~= shape);
        }
        assert forall|a: int| 0 <= a < shape.len() implies #[trigger] shape[a] > 0 by {
            if a < s.len() {
                assert(s[a] == shape[a]);
            }
        }
    }
}

proof fn offset_facts(n: nat, dim: nat, k: int)
    requires
        n >= 1,
        0 <= k < cube(n, dim),
    ensures
        offset(n, dim, k).len() == dim,
        forall|a: int| 0 <= a < dim ==> 0 <= #[trigger] offset(n, dim, k)[a] < n,
    decreases dim,
{
    if dim > 0 {
        let c = cube(n, (dim - 1) as nat);
        let q = k / (n as int);
        assert(0 <= q < c && 0 <= k % (n as int) < n) by (nonlinear_arith)
            requires
                q == k / (n as int),
                0 <= k < c * n,
                n >= 1,
        ;
        offset_facts(n, (dim - 1) as nat, q);
    }
}

/// The offset of a cell of a window, given its place in the window.
fn window_offset(n: usize, dim: usize, k: usize) -> (off: Vec<usize>)
    requires
        1 <= n,
        k < cube(n as nat, dim as nat),
    ensures
        places(off@) == offset(n as nat, dim as nat, k as int),
    decreases dim,
{
    if dim == 0 {
        let off: Vec<usize> = Vec::new();
        proof {
            assert(places(off@) =~= Seq::empty());
        }
        off
    } else {
        proof {
            let c = cube(n as nat, (dim - 1) as nat);
            assert(k / n < c) by (nonlinear_arith)
                requires
                    k < c * n,
                    n >= 1,
            ;
        }
        let mut off = window_offset(n, dim - 1, k / n);
        let ghost before = off@;
        off.push(k % n);
        proof {
            assert(places(off@) =~= places(before).push((k % n) as int));
        }
        off
    }
}

/// The place of a padded position, where it is a real one.
fn place_of(shape: &Vec<usize>, pos: &Vec<usize>) -> (k: Option<usize>)
    requires
        pos@.len() == shape@.len(),
        0 < volume(shape@) <= usize::MAX,
        sizes_fit(shape@),
    ensures
        k is Some == within(shape@, moved(places(pos@), -3)),
        k is Some ==> k->0 == flat(shape@, moved(places(pos@), -3)) && k->0 < volume(shape@),
{
    let ghost target = moved(places(pos@), -3);
    let mut k: usize = 0;
    let mut a: usize = 0;
    while a < shape.len()
        invariant
            a <= shape.len(),
            pos@.len() == shape@.len(),
            0 < volume(shape@) <= usize::MAX,
            sizes_fit(shape@),
            target == moved(places(pos@), -3),
            within(shape@.take(a as int), target.take(a as int)),
            k == flat(shape@.take(a as int), target.take(a as int)),
        decreases shape.len() - a,
    {
        let p = pos[a];
        let s = shape[a];
        proof {
            assert(target[a as int] == p - 3);
            assert(shape@[a as int] + 6 <= usize::MAX);
        }
        if p < 3 || p >= 3 + s {
            proof {
                if within(shape@, target) {
                    assert(0 <= target[a as int] < shape@[a as int]);
                }
            }
            return None;
        }
        proof {
            let s1 = shape@.take(a as int + 1);
            let t1 = target.take(a as int + 1);
            assert(s1.drop_last() =~= shape@.take(a as int));
            assert(t1.drop_last() =~= target.take(a as int));
            assert forall|i: int| 0 <= i < s1.len() implies 0 <= #[trigger] t1[i] < s1[i] by {
                if i < a {
                    assert(target.take(a as int)[i] == t1[i]);
                    assert(shape@.take(a as int)[i] == s1[i]);
                }
            }
            flat_bounds(s1, t1);
            volume_facts(shape@, (a + 1) as nat);
            flat_bounds(shape@.take(a as int), target.take(a as int));
            let f = k as int;
            assert(0 <= f * (s as int)) by (nonlinear_arith)
                requires
                    0 <= f,
                    0 <= s,
            ;
        }
        k = k * s + (p - 3);
        a = a + 1;
    }
    proof {
        assert(shape@.take(a as int) =~= shape@);
        assert(target.take(a as int) =~= target);
        flat_bounds(shape@, target);
    }
    Some(k)
}

/// Reads the window of side `n` at an anchor; `extra` stands behind the cells.
fn read_cube(
    cells: &Vec<Vec<u8>>,
    extra: &[u8],
    shape: &Vec<usize>,
    pad: &[u8],
    n: usize,
    anchor: &Vec<usize>,
) -> (out: Vec<u8>)
    requires
        1 <= n <= 4,
        anchor@.len() == shape@.len(),
        0 < volume(shape@) <= usize::MAX,
        sizes_fit(shape@),
        forall|a: int| 0 <= a < anchor@.len() ==> #[trigger] anchor@[a] + n <= usize::MAX,
        forall|pos: Seq<int>|
            #[trigger] within(shape@, pos) && (forall|a: int|
                0 <= a < pos.len() ==> #[trigger] pos[a] + 3 < anchor@[a] + n) ==> flat(shape@, pos) <= cells@.len(),
    ensures
        out@ == api::gram(cube_parts(hllset::token_views(cells@).push(extra@), shape@, pad@, n as nat, places(anchor@))),
{
    let dim = shape.len();
    let ghost all = hllset::token_views(cells@).push(extra@);
    let ghost goal = cube_parts(all, shape@, pad@, n as nat, places(anchor@));
    let mut count: usize = 1;
    let mut d: usize = 0;
    while d < dim
        invariant
            d <= dim,
            1 <= n <= 4,
            dim == shape@.len(),
            sizes_fit(shape@),
            count == cube(n as nat, d as nat),
        decreases dim - d,
    {
        proof {
            cube_grows(n as nat, 4, (d + 1) as nat, dim as nat);
        }
        count = count * n;
        d = d + 1;
    }
    let mut parts: Vec<&[u8]> = Vec::new();
    let mut k: usize = 0;
    while k < count
        invariant
            k <= count,
            1 <= n <= 4,
            dim == shape@.len(),
            count == cube(n as nat, dim as nat),
            anchor@.len() == shape@.len(),
            0 < volume(shape@) <= usize::MAX,
            sizes_fit(shape@),
            forall|a: int| 0 <= a < anchor@.len() ==> #[trigger] anchor@[a] + n <= usize::MAX,
            forall|pos: Seq<int>|
                #[trigger] within(shape@, pos) && (forall|a: int|
                    0 <= a < pos.len() ==> #[trigger] pos[a] + 3 < anchor@[a] + n) ==> flat(shape@, pos) <= cells@.len(),
            all == hllset::token_views(cells@).push(extra@),
            goal == cube_parts(all, shape@, pad@, n as nat, places(anchor@)),
            parts@.len() == k,
            forall|i: int| 0 <= i < k ==> (#[trigger] parts@[i])@ == goal[i],
        decreases count - k,
    {
        let off = window_offset(n, dim, k);
        let ghost o = offset(n as nat, dim as nat, k as int);
        proof {
            offset_facts(n as nat, dim as nat, k as int);
            assert(off@.len() == places(off@).len());
        }
        let mut pos: Vec<usize> = Vec::new();
        let mut a: usize = 0;
        while a < dim
            invariant
                a <= dim,
                1 <= n <= 4,
                dim == anchor@.len(),
                dim == off@.len(),
                places(off@) == o,
                forall|i: int| 0 <= i < dim ==> 0 <= #[trigger] o[i] < n,
                forall|i: int| 0 <= i < anchor@.len() ==> #[trigger] anchor@[i] + n <= usize::MAX,
                pos@.len() == a,
                forall|i: int| 0 <= i < a ==> #[trigger] pos@[i] == anchor@[i] + o[i],
            decreases dim - a,
        {
            proof {
                assert(o[a as int] == off@[a as int]);
                assert(anchor@[a as int] + n <= usize::MAX);
            }
            pos.push(anchor[a] + off[a]);
            a = a + 1;
        }
        let ghost at = plus(places(anchor@), o);
        proof {
            assert(places(pos@) =~= at);
            assert(goal[k as int] == padded_at(all, shape@, pad@, at));
        }
        match place_of(shape, &pos) {
            Some(i) => {
                proof {
                    let p = moved(at, -3);
                    assert(within(shape@, p));
                    assert forall|a: int| 0 <= a < p.len() implies #[trigger] p[a] + 3 < anchor@[a] + n by {
                        assert(0 <= o[a] < n);
                    }
                    assert(flat(shape@, p) <= cells@.len());
                }
                if i < cells.len() {
                    parts.push(cells[i].as_slice());
                } else {
                    parts.push(extra);
                }
            },
            None => {
                parts.push(pad);
            },
        }
        k = k + 1;
    }
    proof {
        assert(api::slice_views(parts@) =~= goal);
        cube_grows(n as nat, 4, 0, dim as nat);
        cube_grows(n as nat, n as nat, dim as nat, dim as nat);
    }
    api::join(parts.as_slice())
}

/// What stands behind the cells does not matter for a window within them.
proof fn cube_of_full(cells: Seq<Seq<u8>>, extra: Seq<u8>, shape: Seq<usize>, pad: Seq<u8>, n: nat, anchor: Seq<int>)
    requires
        cells.len() == volume(shape),
    ensures
        cube_parts(cells.push(extra), shape, pad, n, anchor) == cube_parts(cells, shape, pad, n, anchor),
{
    let a = cube_parts(cells.push(extra), shape, pad, n, anchor);
    let b = cube_parts(cells, shape, pad, n, anchor);
    assert forall|k: int| 0 <= k < a.len() implies a[k] == b[k] by {
        let p = moved(plus(anchor, offset(n, shape.len(), k)), -3);
        if within(shape, p) {
            flat_bounds(shape, p);
        }
    }
    assert(a =~= b);
}

/// Every place of a full tensor lies within its cells.
proof fn all_places(shape: Seq<usize>)
    ensures
        forall|pos: Seq<int>| #[trigger] within(shape, pos) ==> flat(shape, pos) < volume(shape),
{
    assert forall|pos: Seq<int>| #[trigger] within(shape, pos) implies flat(shape, pos) < volume(shape) by {
        flat_bounds(shape, pos);
    }
}

/// The seed of the windows of side `n`.
fn tseed(n: usize, dim: usize) -> (s: u64)
    requires
        1 <= n <= 4,
        dim <= 31,
    ensures
        s == conv::seed_of(n as int, dim as int),
{
    conv::seed(ConvSpec::new(n as u8, dim as u8))
}

/// Anchors that begin with the given places.
pub open spec fn begins(anchor: Seq<int>, prefix: Seq<int>) -> bool {
    anchor.len() >= prefix.len() && anchor.take(prefix.len() as int) == prefix
}

/// The places of a list with one more place.
proof fn places_push(v: Seq<usize>, x: usize)
    ensures
        places(v.push(x)) == places(v).push(x as int),
{
    assert(places(v.push(x)) =~= places(v).push(x as int));
}

/// Adds the window of one anchor to a sketch and an index.
fn scan_anchor(tensor: &Tensor, pad: &[u8], n: usize, anchor: &Vec<usize>, sketch: &mut HLLSet, lut: &mut LutIndex)
    requires
        tensor.wf(),
        tensor.cells@.len() > 0,
        tensor.fits(),
        1 <= n <= 4,
        anchor@.len() == tensor.shape@.len(),
        forall|a: int| 0 <= a < anchor@.len() ==> #[trigger] anchor@[a] <= tensor.shape@[a] + 6 - n,
    ensures
        final(sketch)@ == old(sketch)@.insert(
            cube_bit(hllset::token_views(tensor.cells@), tensor.shape@, pad@, n as nat, places(anchor@)),
        ),
        final(lut)@ == (if within(tensor.shape@, moved(places(anchor@), -3)) {
            old(lut)@.insert(
                (
                    cube_bit(hllset::token_views(tensor.cells@), tensor.shape@, pad@, n as nat, places(anchor@)),
                    hllset::token_views(tensor.cells@)[flat(tensor.shape@, moved(places(anchor@), -3))],
                ),
            )
        } else {
            old(lut)@
        }),
{
    let dim = tensor.shape.len();
    let ghost shape = tensor.shape@;
    let ghost cells = hllset::token_views(tensor.cells@);
    proof {
        few_axes(dim as nat);
        all_places(shape);
        assert(cells.len() == volume(shape));
        assert(cells.len() == tensor.cells.len());
        assert forall|a: int| 0 <= a < anchor@.len() implies #[trigger] anchor@[a] + n <= usize::MAX by {
            assert(shape[a] + 6 <= usize::MAX);
        }
        cube_of_full(cells, pad@, shape, pad@, n as nat, places(anchor@));
    }
    let bytes = read_cube(&tensor.cells, pad, &tensor.shape, pad, n, anchor);
    let bit = BitAddress::of_token_seeded(bytes.as_slice(), tseed(n, dim)).bit();
    sketch.add_bit(bit);
    match place_of(&tensor.shape, anchor) {
        Some(i) => {
            let token = lut::copy_bytes(tensor.cells[i].as_slice());
            lut.insert_token_at(token, bit);
        },
        None => {},
    }
}

/// The bits of the windows at the anchors that begin with `prefix`, and go on
/// below `bound`.
pub open spec fn branch_bits(
    cells: Seq<Seq<u8>>,
    shape: Seq<usize>,
    pad: Seq<u8>,
    n: nat,
    prefix: Seq<int>,
    bound: int,
) -> Set<u32> {
    Set::new(
        |b: u32|
            exists|anchor: Seq<int>|
                anchored(shape, n, anchor) && begins(anchor, prefix) && (prefix.len() < shape.len()
                    ==> anchor[prefix.len() as int] < bound) && #[trigger] cube_bit(cells, shape, pad, n, anchor) == b,
    )
}

/// The pairs of the real anchors that begin with `prefix`, and go on below `bound`.
pub open spec fn branch_rows(
    cells: Seq<Seq<u8>>,
    shape: Seq<usize>,
    pad: Seq<u8>,
    n: nat,
    prefix: Seq<int>,
    bound: int,
) -> Set<(u32, Seq<u8>)> {
    Set::new(
        |r: (u32, Seq<u8>)|
            exists|anchor: Seq<int>|
                within(shape, moved(anchor, -3)) && begins(anchor, prefix) && (prefix.len() < shape.len()
                    ==> anchor[prefix.len() as int] < bound) && #[trigger] cube_bit(cells, shape, pad, n, anchor) == r.0
                    && cells[flat(shape, moved(anchor, -3))] == r.1,
    )
}

/// How many places an axis of the padded tensor offers to windows of side `n`.
pub open spec fn span(shape: Seq<usize>, n: nat, axis: int) -> int {
    shape[axis] + 7 - n
}

/// Longer beginnings.
proof fn begins_push(anchor: Seq<int>, prefix: Seq<int>, a: int)
    requires
        prefix.len() < anchor.len(),
    ensures
        begins(anchor, prefix.push(a)) == (begins(anchor, prefix) && anchor[prefix.len() as int] == a),
{
    let longer = prefix.push(a);
    let t = anchor.take(longer.len() as int);
    assert(t.drop_last() =~= anchor.take(prefix.len() as int));
    assert(longer.drop_last() =~= prefix);
    if begins(anchor, longer) {
        assert(t.last() == longer.last());
    } else if begins(anchor, prefix) && anchor[prefix.len() as int] == a {
        assert(t =~= longer);
    }
}

/// The whole span of an axis, one place of it after the other.
proof fn branch_step(cells: Seq<Seq<u8>>, shape: Seq<usize>, pad: Seq<u8>, n: nat, prefix: Seq<int>, a: int)
    requires
        prefix.len() < shape.len(),
        0 <= a < span(shape, n, prefix.len() as int),
    ensures
        branch_bits(cells, shape, pad, n, prefix, a + 1) == branch_bits(cells, shape, pad, n, prefix, a).union(
            whole_bits(cells, shape, pad, n, prefix.push(a)),
        ),
        branch_rows(cells, shape, pad, n, prefix, a + 1) == branch_rows(cells, shape, pad, n, prefix, a).union(
            whole_rows(cells, shape, pad, n, prefix.push(a)),
        ),
{
    let axis = prefix.len() as int;
    let longer = prefix.push(a);
    let x = branch_bits(cells, shape, pad, n, prefix, a + 1);
    let y = branch_bits(cells, shape, pad, n, prefix, a);
    let z = whole_bits(cells, shape, pad, n, longer);
    assert forall|b: u32| x.contains(b) == (y.contains(b) || z.contains(b)) by {
        if x.contains(b) {
            let anchor = choose|anchor: Seq<int>|
                anchored(shape, n, anchor) && begins(anchor, prefix) && (prefix.len() < shape.len()
                    ==> anchor[prefix.len() as int] < a + 1) && #[trigger] cube_bit(cells, shape, pad, n, anchor) == b;
            begins_push(anchor, prefix, a);
            if anchor[axis] < a {
                assert(y.contains(b));
            } else {
                assert(z.contains(b));
            }
        }
        if z.contains(b) {
            let anchor = choose|anchor: Seq<int>|
                anchored(shape, n, anchor) && begins(anchor, longer) && #[trigger] cube_bit(cells, shape, pad, n, anchor)
                    == b;
            begins_push(anchor, prefix, a);
            assert(x.contains(b));
        }
    }
    assert(x =~= y.union(z));
    let u = branch_rows(cells, shape, pad, n, prefix, a + 1);
    let v = branch_rows(cells, shape, pad, n, prefix, a);
    let w = whole_rows(cells, shape, pad, n, longer);
    assert forall|r: (u32, Seq<u8>)| u.contains(r) == (v.contains(r) || w.contains(r)) by {
        if u.contains(r) {
            let anchor = choose|anchor: Seq<int>|
                within(shape, moved(anchor, -3)) && begins(anchor, prefix) && (prefix.len() < shape.len()
                    ==> anchor[prefix.len() as int] < a + 1) && #[trigger] cube_bit(cells, shape, pad, n, anchor) == r.0
                    && cells[flat(shape, moved(anchor, -3))] == r.1;
            assert(moved(anchor, -3).len() == anchor.len());
            begins_push(anchor, prefix, a);
            if anchor[axis] < a {
                assert(v.contains(r));
            } else {
                assert(w.contains(r));
            }
        }
        if w.contains(r) {
            let anchor = choose|anchor: Seq<int>|
                within(shape, moved(anchor, -3)) && begins(anchor, longer) && #[trigger] cube_bit(
                    cells,
                    shape,
                    pad,
                    n,
                    anchor,
                ) == r.0 && cells[flat(shape, moved(anchor, -3))] == r.1;
            assert(moved(anchor, -3).len() == anchor.len());
            begins_push(anchor, prefix, a);
            assert(u.contains(r));
        }
    }
    assert(u =~= v.union(w));
}

/// The bits of the windows at the anchors that begin with `prefix`.
pub open spec fn whole_bits(cells: Seq<Seq<u8>>, shape: Seq<usize>, pad: Seq<u8>, n: nat, prefix: Seq<int>) -> Set<u32> {
    Set::new(
        |b: u32|
            exists|anchor: Seq<int>|
                anchored(shape, n, anchor) && begins(anchor, prefix) && #[trigger] cube_bit(cells, shape, pad, n, anchor)
                    == b,
    )
}

/// The pairs of the real anchors that begin with `prefix`.
pub open spec fn whole_rows(cells: Seq<Seq<u8>>, shape: Seq<usize>, pad: Seq<u8>, n: nat, prefix: Seq<int>) -> Set<
    (u32, Seq<u8>),
> {
    Set::new(
        |r: (u32, Seq<u8>)|
            exists|anchor: Seq<int>|
                within(shape, moved(anchor, -3)) && begins(anchor, prefix) && #[trigger] cube_bit(
                    cells,
                    shape,
                    pad,
                    n,
                    anchor,
                ) == r.0 && cells[flat(shape, moved(anchor, -3))] == r.1,
    )
}

/// No place is left out at the end of the span; none is in at its start.
proof fn branch_ends(cells: Seq<Seq<u8>>, shape: Seq<usize>, pad: Seq<u8>, n: nat, prefix: Seq<int>)
    requires
        prefix.len() < shape.len(),
        1 <= n <= 4,
    ensures
        branch_bits(cells, shape, pad, n, prefix, 0) == Set::<u32>::empty(),
        branch_rows(cells, shape, pad, n, prefix, 0) == Set::<(u32, Seq<u8>)>::empty(),
        branch_bits(cells, shape, pad, n, prefix, span(shape, n, prefix.len() as int)) == whole_bits(
            cells,
            shape,
            pad,
            n,
            prefix,
        ),
        branch_rows(cells, shape, pad, n, prefix, span(shape, n, prefix.len() as int)) == whole_rows(
            cells,
            shape,
            pad,
            n,
            prefix,
        ),
{
    let axis = prefix.len() as int;
    let top = span(shape, n, axis);
    assert forall|anchor: Seq<int>| #[trigger] anchored(shape, n, anchor) implies 0 <= anchor[axis] < top by {}
    assert forall|anchor: Seq<int>| #[trigger] within(shape, moved(anchor, -3)) implies 0 <= anchor[axis] < top by {
        assert(0 <= moved(anchor, -3)[axis] < shape[axis]);
    }
    assert(branch_bits(cells, shape, pad, n, prefix, 0) =~= Set::<u32>::empty());
    assert(branch_rows(cells, shape, pad, n, prefix, 0) =~= Set::<(u32, Seq<u8>)>::empty());
    assert(branch_bits(cells, shape, pad, n, prefix, top) =~= whole_bits(cells, shape, pad, n, prefix));
    assert(branch_rows(cells, shape, pad, n, prefix, top) =~= whole_rows(cells, shape, pad, n, prefix));
}

/// An anchor is its only continuation.
proof fn branch_leaf(cells: Seq<Seq<u8>>, shape: Seq<usize>, pad: Seq<u8>, n: nat, anchor: Seq<int>)
    requires
        anchored(shape, n, anchor),
    ensures
        whole_bits(cells, shape, pad, n, anchor) == Set::<u32>::empty().insert(cube_bit(cells, shape, pad, n, anchor)),
        whole_rows(cells, shape, pad, n, anchor) == (if within(shape, moved(anchor, -3)) {
            Set::<(u32, Seq<u8>)>::empty().insert(
                (cube_bit(cells, shape, pad, n, anchor), cells[flat(shape, moved(anchor, -3))]),
            )
        } else {
            Set::<(u32, Seq<u8>)>::empty()
        }),
{
    assert(begins(anchor, anchor)) by {
        assert(anchor.take(anchor.len() as int) =~= anchor);
    }
    assert forall|other: Seq<int>| other.len() == shape.len() && #[trigger] begins(other, anchor) implies other
        == anchor by {
        assert(other.take(anchor.len() as int) =~= other);
    }
    assert forall|other: Seq<int>| #[trigger] within(shape, moved(other, -3)) implies other.len() == shape.len() by {
        assert(moved(other, -3).len() == other.len());
    }
    assert(whole_bits(cells, shape, pad, n, anchor) =~= Set::<u32>::empty().insert(
        cube_bit(cells, shape, pad, n, anchor),
    ));
    if within(shape, moved(anchor, -3)) {
        assert(whole_rows(cells, shape, pad, n, anchor) =~= Set::<(u32, Seq<u8>)>::empty().insert(
            (cube_bit(cells, shape, pad, n, anchor), cells[flat(shape, moved(anchor, -3))]),
        ));
    } else {
        assert(whole_rows(cells, shape, pad, n, anchor) =~= Set::<(u32, Seq<u8>)>::empty());
    }
}

/// Adds the windows of all anchors that begin with `prefix` to a sketch and an index.
fn scan_from(tensor: &Tensor, pad: &[u8], n: usize, prefix: &mut Vec<usize>, sketch: &mut HLLSet, lut: &mut LutIndex)
    requires
        tensor.wf(),
        tensor.cells@.len() > 0,
        tensor.fits(),
        1 <= n <= 4,
        old(prefix)@.len() <= tensor.shape@.len(),
        forall|a: int|
            0 <= a < old(prefix)@.len() ==> #[trigger] old(prefix)@[a] <= tensor.shape@[a] + 6 - n,
    ensures
        final(prefix)@ == old(prefix)@,
        final(sketch)@ == old(sketch)@.union(
            whole_bits(hllset::token_views(tensor.cells@), tensor.shape@, pad@, n as nat, places(old(prefix)@)),
        ),
        final(lut)@ == old(lut)@.union(
            whole_rows(hllset::token_views(tensor.cells@), tensor.shape@, pad@, n as nat, places(old(prefix)@)),
        ),
    decreases tensor.shape@.len() - old(prefix)@.len(),
{
    let dim = tensor.shape.len();
    let ghost shape = tensor.shape@;
    let ghost cells = hllset::token_views(tensor.cells@);
    let ghost head = places(prefix@);
    let ghost s0 = sketch@;
    let ghost l0 = lut@;
    let ghost p0 = prefix@;
    if prefix.len() == dim {
        scan_anchor(tensor, pad, n, prefix, sketch, lut);
        proof {
            assert(anchored(shape, n as nat, head));
            branch_leaf(cells, shape, pad@, n as nat, head);
            assert(sketch@ =~= s0.union(whole_bits(cells, shape, pad@, n as nat, head)));
            assert(lut@ =~= l0.union(whole_rows(cells, shape, pad@, n as nat, head)));
        }
        return;
    }
    let axis = prefix.len();
    proof {
        assert(shape[axis as int] + 6 <= usize::MAX);
        assert(head.len() == axis);
        branch_ends(cells, shape, pad@, n as nat, head);
        assert(sketch@ =~= s0.union(branch_bits(cells, shape, pad@, n as nat, head, 0)));
        assert(lut@ =~= l0.union(branch_rows(cells, shape, pad@, n as nat, head, 0)));
    }
    let count: usize = tensor.shape[axis] + (7 - n);
    let mut a: usize = 0;
    while a < count
        invariant
            a <= count,
            count == span(shape, n as nat, axis as int),
            axis < dim,
            dim == shape.len(),
            shape == tensor.shape@,
            cells == hllset::token_views(tensor.cells@),
            tensor.wf(),
            tensor.cells@.len() > 0,
            tensor.fits(),
            1 <= n <= 4,
            prefix@ == p0,
            p0 == old(prefix)@,
            axis == p0.len(),
            head == places(p0),
            head.len() == axis,
            forall|i: int| 0 <= i < p0.len() ==> #[trigger] p0[i] <= shape[i] + 6 - n,
            sketch@ == s0.union(branch_bits(cells, shape, pad@, n as nat, head, a as int)),
            lut@ == l0.union(branch_rows(cells, shape, pad@, n as nat, head, a as int)),
        decreases count - a,
    {
        prefix.push(a);
        proof {
            places_push(p0, a);
            branch_step(cells, shape, pad@, n as nat, head, a as int);
        }
        scan_from(tensor, pad, n, prefix, sketch, lut);
        prefix.pop();
        proof {
            assert(prefix@ =~= p0);
            assert(sketch@ =~= s0.union(branch_bits(cells, shape, pad@, n as nat, head, a + 1)));
            assert(lut@ =~= l0.union(branch_rows(cells, shape, pad@, n as nat, head, a + 1)));
        }
        a = a + 1;
    }
    proof {
        branch_ends(cells, shape, pad@, n as nat, head);
    }
}

/// The sketch and the index of the windows of side `n`.
fn tensor_channel(tensor: &Tensor, pad: &[u8], n: usize) -> (out: (HLLSet, LutIndex))
    requires
        tensor.wf(),
        tensor.cells@.len() > 0,
        tensor.fits(),
        1 <= n <= 4,
    ensures
        out.0@ == cube_bits(hllset::token_views(tensor.cells@), tensor.shape@, pad@, n as nat),
        out.1@ == cube_rows(hllset::token_views(tensor.cells@), tensor.shape@, pad@, n as nat),
{
    let mut sketch = HLLSet::new();
    let mut lut = LutIndex::new();
    let mut prefix: Vec<usize> = Vec::new();
    scan_from(tensor, pad, n, &mut prefix, &mut sketch, &mut lut);
    proof {
        assert(places(prefix@) =~= Seq::empty());
        assert forall|anchor: Seq<int>| #[trigger] begins(anchor, Seq::empty()) by {
            assert(anchor.take(0) =~= Seq::empty());
        }
        assert(sketch@ =~= cube_bits(hllset::token_views(tensor.cells@), tensor.shape@, pad@, n as nat));
        assert(lut@ =~= cube_rows(hllset::token_views(tensor.cells@), tensor.shape@, pad@, n as nat));
    }
    (sketch, lut)
}

/// What an ingestion leaves of a tensor.
#[derive(Clone, Debug, PartialEq, Eq)]
pub struct TensorIngested {
    /// The sketches of the windows of side one to four.
    pub channels: [HLLSet; 4],
    /// The indexes from their bits to the cells they start at.
    pub luts: [LutIndex; 4],
    pub tf: TfTable,
    pub shape: Vec<usize>,
    pub pad: Vec<u8>,
    /// The union of the first three channels.
    pub projection: HLLSet,
    pub key: String,
    pub keys: [String; 4],
    pub hllset_lut: HllsetLut,
}

/// The names of the four channels.
pub open spec fn tensor_names(dim: nat) -> Seq<Seq<char>> {
    seq![conv::name_of(1, dim), conv::name_of(2, dim), conv::name_of(3, dim), conv::name_of(4, dim)]
}

/// What an ingestion of a tensor holds.
pub open spec fn tensor_ingest_of(g: TensorIngested, cells: Seq<Seq<u8>>, shape: Seq<usize>, pad: Seq<u8>) -> bool {
    let some = cells.len() > 0;
    &&& g.tf.wf()
    &&& g.hllset_lut.wf()
    &&& g.shape@ == shape
    &&& g.pad@ == pad
    &&& forall|n: int|
        1 <= n <= 4 ==> (#[trigger] g.channels@[n - 1])@ == (if some {
            cube_bits(cells, shape, pad, n as nat)
        } else {
            Set::empty()
        })
    &&& forall|n: int|
        1 <= n <= 4 ==> (#[trigger] g.luts@[n - 1])@ == (if some {
            cube_rows(cells, shape, pad, n as nat)
        } else {
            Set::empty()
        })
    &&& forall|t: Seq<u8>| #[trigger] g.tf.tally(t) == tf::occurrences(cells, t)
    &&& g.projection@ == api::union3(g.channels@[0]@, g.channels@[1]@, g.channels@[2]@)
    &&& g.key@ == hllset::key_of(g.projection@)
    &&& forall|i: int|
        0 <= i < 4 ==> (#[trigger] g.keys@[i])@ == (if some { hllset::key_of(g.channels@[i]@) } else { Seq::empty() })
    &&& g.hllset_lut@ == (if some {
        hllset_lut::touched_all(tensor_names(shape.len()), text::texts(g.keys@))
    } else {
        Map::empty()
    })
}

impl TensorIngested {
    /// The tokens behind the members of the first three channels.
    pub open spec fn unordered(&self) -> Set<Seq<u8>> {
        lut::selected(self.channels@[0]@, self.luts@[0]@).union(lut::selected(self.channels@[1]@, self.luts@[1]@)).union(
            lut::selected(self.channels@[2]@, self.luts@[2]@),
        )
    }

    /// The ingestion of no tensor at all.
    pub fn new() -> (g: TensorIngested)
        ensures
            tensor_ingest_of(g, Seq::empty(), Seq::empty(), PAD@),
    {
        let empty = HLLSet::new();
        let key = empty.content_key();
        let shape: Vec<usize> = Vec::new();
        let g = TensorIngested {
            channels: [HLLSet::new(), HLLSet::new(), HLLSet::new(), HLLSet::new()],
            luts: [LutIndex::new(), LutIndex::new(), LutIndex::new(), LutIndex::new()],
            tf: TfTable::new(),
            shape,
            pad: lut::copy_bytes(vstd::array::array_as_slice(&PAD)),
            projection: empty,
            key,
            keys: [String::new(), String::new(), String::new(), String::new()],
            hllset_lut: HllsetLut::new(),
        };
        proof {
            assert(g.projection@ =~= api::union3(g.channels@[0]@, g.channels@[1]@, g.channels@[2]@));
            assert(g.shape@ =~= Seq::<usize>::empty());
        }
        g
    }
}

/// A copy of a shape.
fn copy_shape(shape: &Vec<usize>) -> (out: Vec<usize>)
    ensures
        out@ == shape@,
{
    let mut out: Vec<usize> = Vec::new();
    let mut i: usize = 0;
    while i < shape.len()
        invariant
            i <= shape.len(),
            out@ == shape@.take(i as int),
        decreases shape.len() - i,
    {
        out.push(shape[i]);
        i = i + 1;
        proof {
            assert(out@ =~= shape@.take(i as int));
        }
    }
    proof {
        assert(shape@.take(i as int) =~= shape@);
    }
    out
}

/// Ingests a tensor with the pad `<PAD>`.
pub fn ingest_tensor(tensor: &Tensor) -> (g: TensorIngested)
    requires
        tensor.wf(),
        tensor.cells@.len() > 0 ==> tensor.fits(),
    ensures
        tensor_ingest_of(g, hllset::token_views(tensor.cells@), tensor.shape@, PAD@),
{
    ingest_tensor_with_pad(tensor, vstd::array::array_as_slice(&PAD))
}

/// Ingests a tensor: three pads on every side of every axis, and every window of
/// side one to four.
pub fn ingest_tensor_with_pad(tensor: &Tensor, pad: &[u8]) -> (g: TensorIngested)
    requires
        tensor.wf(),
        tensor.cells@.len() > 0 ==> tensor.fits(),
    ensures
        tensor_ingest_of(g, hllset::token_views(tensor.cells@), tensor.shape@, pad@),
{
    let mut g = TensorIngested::new();
    g.shape = copy_shape(&tensor.shape);
    g.pad = lut::copy_bytes(pad);
    let ghost cells = hllset::token_views(tensor.cells@);
    if tensor.is_empty() {
        proof {
            assert(cells =~= Seq::<Seq<u8>>::empty());
        }
        return g;
    }
    let (s1, l1) = tensor_channel(tensor, pad, 1);
    let (s2, l2) = tensor_channel(tensor, pad, 2);
    let (s3, l3) = tensor_channel(tensor, pad, 3);
    let (s4, l4) = tensor_channel(tensor, pad, 4);
    g.channels = [s1, s2, s3, s4];
    g.luts = [l1, l2, l3, l4];
    g.tf = TfTable::of_tokens(&tensor.cells);
    g.projection = s1.union(&s2).union(&s3);
    g.key = g.projection.content_key();
    let dim = tensor.shape.len();
    proof {
        few_axes(dim as nat);
    }
    let mut names: Vec<String> = Vec::new();
    names.push(conv::channel_name(1, dim as u8));
    names.push(conv::channel_name(2, dim as u8));
    names.push(conv::channel_name(3, dim as u8));
    names.push(conv::channel_name(4, dim as u8));
    let mut keys: Vec<String> = Vec::new();
    keys.push(s1.content_key());
    keys.push(s2.content_key());
    keys.push(s3.content_key());
    keys.push(s4.content_key());
    proof {
        assert(text::texts(names@) =~= tensor_names(dim as nat));
        grid::four_names_differ(text::texts(names@), text::texts(keys@), dim as nat);
    }
    g.hllset_lut = hllset_lut::preserve(&names, &keys);
    g.keys = [keys[0].clone(), keys[1].clone(), keys[2].clone(), keys[3].clone()];
    proof {
        assert(text::texts(g.keys@) =~= text::texts(keys@));
    }
    g
}

/// Whether a channel holds the bit of a window.
pub open spec fn cube_marked(g: TensorIngested, path: Seq<Seq<u8>>, n: nat, anchor: Seq<int>) -> bool {
    g.channels@[n - 1]@.contains(cube_bit(path, g.shape@, g.pad@, n, anchor))
}

/// Whether the window of side `n` that ends at the next cell is marked.
pub open spec fn tail_marked(g: TensorIngested, path: Seq<Seq<u8>>, t: Seq<u8>, n: nat) -> bool {
    cube_marked(g, path.push(t), n, moved(multi(g.shape@, path.len() as int), 4 - n))
}

/// The anchor of the window of side `n` over the last cell and the pad behind it.
pub open spec fn end_anchor(shape: Seq<usize>, n: nat) -> Seq<int> {
    Seq::new(
        shape.len(),
        |a: int|
            if a == shape.len() - 1 {
                shape[a] + 4 - n
            } else {
                shape[a] + 3 - n
            },
    )
}

/// Whether a token may stand at the next cell.
pub open spec fn tensor_successor(g: TensorIngested, path: Seq<Seq<u8>>, t: Seq<u8>) -> bool {
    tail_marked(g, path, t, 2) && tail_marked(g, path, t, 3) && tail_marked(g, path, t, 4)
}

/// Whether a full tensor may end there.
pub open spec fn tensor_termination(g: TensorIngested, path: Seq<Seq<u8>>) -> bool {
    &&& cube_marked(g, path, 2, end_anchor(g.shape@, 2))
    &&& cube_marked(g, path, 3, end_anchor(g.shape@, 3))
    &&& cube_marked(g, path, 4, end_anchor(g.shape@, 4))
}

fn tensor_channel_contains(g: &TensorIngested, n: usize, bytes: &[u8]) -> (yes: bool)
    requires
        1 <= n <= 4,
        sizes_fit(g.shape@),
    ensures
        yes == g.channels@[n - 1]@.contains(hashing::token_bit(bytes@, conv::seed_of(n as int, g.shape@.len() as int) as u64)),
{
    proof {
        few_axes(g.shape@.len());
    }
    let a = BitAddress::of_token_seeded(bytes, tseed(n, g.shape.len()));
    g.channels[n - 1].has_bit(a.reg(), a.tz())
}

/// The position of a place.
fn to_multi(k: usize, shape: &Vec<usize>, dim: usize) -> (out: Vec<usize>)
    requires
        dim <= shape@.len(),
        k < volume(shape@.take(dim as int)),
    ensures
        places(out@) == multi(shape@.take(dim as int), k as int),
    decreases dim,
{
    let ghost part = shape@.take(dim as int);
    if dim == 0 {
        let out: Vec<usize> = Vec::new();
        proof {
            assert(places(out@) =~= Seq::empty());
        }
        out
    } else {
        let s = shape[dim - 1];
        proof {
            assert(part.drop_last() =~= shape@.take(dim as int - 1));
            assert(part.last() == s);
            multi_facts(part, k as int);
            let v = volume(part.drop_last());
            assert(s > 0 && k / s < v) by (nonlinear_arith)
                requires
                    k < v * s,
                    s >= 0,
            ;
        }
        let mut out = to_multi(k / s, shape, dim - 1);
        let ghost before = out@;
        out.push(k % s);
        proof {
            assert(places(out@) =~= places(before).push((k % s) as int));
        }
        out
    }
}

/// Whether the window of side `n` that ends at the next cell is marked.
fn tail_ok(g: &TensorIngested, path: &Vec<Vec<u8>>, t: &[u8], n: usize) -> (yes: bool)
    requires
        sizes_fit(g.shape@),
        volume(g.shape@) <= usize::MAX,
        2 <= n <= 4,
        path@.len() < volume(g.shape@),
    ensures
        yes == tail_marked(*g, hllset::token_views(path@), t@, n as nat),
{
    let ghost shape = g.shape@;
    let ghost p = hllset::token_views(path@);
    let ghost m = multi(shape, path@.len() as int);
    let dim = g.shape.len();
    proof {
        assert(p.len() == path@.len());
        assert(shape.take(dim as int) =~= shape);
        multi_facts(shape, path@.len() as int);
    }
    let at = to_multi(path.len(), &g.shape, dim);
    let mut anchor: Vec<usize> = Vec::new();
    let mut a: usize = 0;
    proof {
        assert(at@.len() == places(at@).len());
    }
    while a < dim
        invariant
            a <= dim,
            dim == shape.len(),
            dim == at@.len(),
            2 <= n <= 4,
            sizes_fit(shape),
            within(shape, m),
            places(at@) == m,
            anchor@.len() == a,
            forall|i: int| 0 <= i < a ==> #[trigger] anchor@[i] == m[i] + 4 - n,
        decreases dim - a,
    {
        proof {
            assert(m[a as int] == at@[a as int]);
            assert(shape[a as int] + 6 <= usize::MAX);
        }
        anchor.push(at[a] + 4 - n);
        a = a + 1;
    }
    proof {
        assert(places(anchor@) =~= moved(m, 4 - n));
        assert forall|pos: Seq<int>|
            #[trigger] within(shape, pos) && (forall|a: int|
                0 <= a < pos.len() ==> #[trigger] pos[a] + 3 < anchor@[a] + n) implies flat(shape, pos) <= path@.len() by {
            assert forall|i: int| 0 <= i < shape.len() implies #[trigger] pos[i] <= m[i] by {
                assert(pos[i] + 3 < anchor@[i] + n);
            }
            flat_monotone(shape, pos, m);
        }
        assert forall|i: int| 0 <= i < anchor@.len() implies #[trigger] anchor@[i] + n <= usize::MAX by {
            assert(0 <= m[i] < shape[i]);
            assert(shape[i] + 6 <= usize::MAX);
        }
    }
    let bytes = read_cube(path, t, &g.shape, g.pad.as_slice(), n, &anchor);
    tensor_channel_contains(g, n, bytes.as_slice())
}

fn final_ok(g: &TensorIngested, path: &Vec<Vec<u8>>, n: usize) -> (yes: bool)
    requires
        sizes_fit(g.shape@),
        volume(g.shape@) <= usize::MAX,
        2 <= n <= 4,
        path@.len() == volume(g.shape@),
        path@.len() > 0,
    ensures
        yes == cube_marked(*g, hllset::token_views(path@), n as nat, end_anchor(g.shape@, n as nat)),
{
    let ghost shape = g.shape@;
    let ghost p = hllset::token_views(path@);
    let dim = g.shape.len();
    proof {
        assert(p.len() == path@.len());
        volume_facts(shape, shape.len());
        all_places(shape);
    }
    let mut anchor: Vec<usize> = Vec::new();
    let mut a: usize = 0;
    while a < dim
        invariant
            a <= dim,
            dim == shape.len(),
            shape == g.shape@,
            2 <= n <= 4,
            sizes_fit(shape),
            forall|i: int| 0 <= i < shape.len() ==> #[trigger] shape[i] > 0,
            anchor@.len() == a,
            forall|i: int| 0 <= i < a ==> #[trigger] anchor@[i] == end_anchor(shape, n as nat)[i],
        decreases dim - a,
    {
        proof {
            assert(shape[a as int] + 6 <= usize::MAX);
            assert(shape[a as int] > 0);
        }
        let last: usize = if a + 1 == dim {
            g.shape[a] + 3
        } else {
            g.shape[a] + 2
        };
        anchor.push(last - (n - 1));
        a = a + 1;
    }
    proof {
        assert(places(anchor@) =~= end_anchor(shape, n as nat));
        cube_of_full(p, g.pad@, shape, g.pad@, n as nat, end_anchor(shape, n as nat));
        assert forall|i: int| 0 <= i < anchor@.len() implies #[trigger] anchor@[i] + n <= usize::MAX by {
            assert(anchor@[i] == end_anchor(shape, n as nat)[i]);
            assert(shape[i] + 6 <= usize::MAX);
        }
    }
    let bytes = read_cube(path, g.pad.as_slice(), &g.shape, g.pad.as_slice(), n, &anchor);
    tensor_channel_contains(g, n, bytes.as_slice())
}

impl Chain for TensorIngested {
    open spec fn wf(&self) -> bool {
        &&& self.tf.wf()
        &&& volume(self.shape@) <= usize::MAX
        &&& volume(self.shape@) > 0 ==> sizes_fit(self.shape@)
    }

    open spec fn size(&self) -> nat {
        volume(self.shape@)
    }

    open spec fn weight(&self, t: Seq<u8>) -> nat {
        self.tf.tally(t)
    }

    open spec fn extends(&self, path: Seq<Seq<u8>>, t: Seq<u8>) -> bool {
        tensor_successor(*self, path, t)
    }

    open spec fn closes(&self, path: Seq<Seq<u8>>) -> bool {
        tensor_termination(*self, path)
    }

    proof fn weight_fits(&self, t: Seq<u8>) {
    }

    fn total(&self) -> (n: usize) {
        shape_volume(&self.shape)
    }

    fn count(&self, t: &[u8]) -> (n: u64) {
        self.tf.count(t)
    }

    fn follows(&self, path: &Vec<Vec<u8>>, t: &[u8]) -> (yes: bool) {
        tail_ok(self, path, t, 2) && tail_ok(self, path, t, 3) && tail_ok(self, path, t, 4)
    }

    fn ends(&self, path: &Vec<Vec<u8>>) -> (yes: bool) {
        final_ok(self, path, 2) && final_ok(self, path, 3) && final_ok(self, path, 4)
    }
}

/// The number of cells of a shape.
fn shape_volume(shape: &Vec<usize>) -> (n: usize)
    requires
        volume(shape@) <= usize::MAX,
    ensures
        n == volume(shape@),
{
    let mut i: usize = 0;
    while i < shape.len()
        invariant
            i <= shape.len(),
            forall|a: int| 0 <= a < i ==> #[trigger] shape@[a] > 0,
        decreases shape.len() - i,
    {
        if shape[i] == 0 {
            proof {
                if volume(shape@) > 0 {
                    volume_facts(shape@, 0);
                    assert(shape@[i as int] > 0);
                }
            }
            return 0;
        }
        i = i + 1;
    }
    proof {
        positive_volume(shape@);
    }
    let mut n: usize = 1;
    let mut d: usize = 0;
    while d < shape.len()
        invariant
            d <= shape.len(),
            0 < volume(shape@) <= usize::MAX,
            n == volume(shape@.take(d as int)),
        decreases shape.len() - d,
    {
        proof {
            volume_facts(shape@, (d + 1) as nat);
            assert(shape@.take(d as int + 1).drop_last() =~= shape@.take(d as int));
        }
        n = n * shape[d];
        d = d + 1;
    }
    proof {
        assert(shape@.take(d as int) =~= shape@);
    }
    n
}

proof fn positive_volume(shape: Seq<usize>)
    requires
        forall|a: int| 0 <= a < shape.len() ==> #[trigger] shape[a] > 0,
    ensures
        volume(shape) > 0,
    decreases shape.len(),
{
    if shape.len() > 0 {
        let s = shape.drop_last();
        assert forall|a: int| 0 <= a < s.len() implies #[trigger] s[a] > 0 by {
            assert(s[a] == shape[a]);
        }
        positive_volume(s);
        let v = volume(s);
        let l = shape.last() as nat;
        assert(shape[shape.len() - 1] > 0);
        assert(v * l > 0) by (nonlinear_arith)
            requires
                v > 0,
                l > 0,
        ;
    }
}

/// The tokens of a tensor.
pub fn materialize_tensor_no_order(g: &TensorIngested) -> (tokens: TokenSet)
    ensures
        tokens.wf(),
        tokens@ == g.unordered(),
{
    let mut out = TokenSet::new();
    lut::select_into(&mut out, &g.channels[0], &g.luts[0]);
    lut::select_into(&mut out, &g.channels[1], &g.luts[1]);
    lut::select_into(&mut out, &g.channels[2], &g.luts[2]);
    proof {
        assert(out@ =~= g.unordered());
    }
    out
}

fn materialize_tensor_with(g: &TensorIngested, beam: usize) -> (t: Tensor)
    requires
        g.wf(),
        beam > 1 ==> g.size() < usize::MAX,
    ensures
        t.shape@ == g.shape@,
        hllset::token_views(t.cells@) == grid::placed_from(*g, api::listing(g.unordered()), beam as nat),
{
    let tokens = materialize_tensor_no_order(g);
    proof {
        api::listing_is(&tokens);
    }
    let cells = grid::place_tokens(&tokens, g, beam);
    Tensor { shape: copy_shape(&g.shape), cells }
}

/// Restores a tensor.
pub fn materialize_tensor(g: &TensorIngested) -> (t: Tensor)
    requires
        g.wf(),
    ensures
        t.shape@ == g.shape@,
        hllset::token_views(t.cells@) == grid::placed_from(*g, api::listing(g.unordered()), 1),
{
    materialize_tensor_with(g, 1)
}

/// Restores a tensor with a beam of the given width.
pub fn materialize_tensor_beam(g: &TensorIngested, width: usize) -> (t: Tensor)
    requires
        g.wf(),
        width > 1 ==> g.size() < usize::MAX,
    ensures
        t.shape@ == g.shape@,
        hllset::token_views(t.cells@) == grid::placed_from(*g, api::listing(g.unordered()), if width > 1 { width as nat } else { 1 }),
{
    let beam: usize = if width > 1 {
        width
    } else {
        1
    };
    materialize_tensor_with(g, beam)
}

/// The window that ends at a cell only shows cells up to it.
proof fn cube_of_prefix(cells: Seq<Seq<u8>>, shape: Seq<usize>, pad: Seq<u8>, n: nat, k: int)
    requires
        cells.len() == volume(shape),
        0 <= k < cells.len(),
        1 <= n <= 4,
    ensures
        within(shape, multi(shape, k)),
        flat(shape, multi(shape, k)) == k,
        cube_parts(cells.take(k).push(cells[k]), shape, pad, n, moved(multi(shape, k), 4 - n)) == cube_parts(
            cells,
            shape,
            pad,
            n,
            moved(multi(shape, k), 4 - n),
        ),
{
    multi_facts(shape, k);
    let m = multi(shape, k);
    let anchor = moved(m, 4 - n);
    let x = cube_parts(cells.take(k).push(cells[k]), shape, pad, n, anchor);
    let y = cube_parts(cells, shape, pad, n, anchor);
    assert forall|q: int| 0 <= q < x.len() implies x[q] == y[q] by {
        let o = offset(n, shape.len(), q);
        offset_facts(n, shape.len(), q);
        let p = moved(plus(anchor, o), -3);
        if within(shape, p) {
            assert forall|i: int| 0 <= i < shape.len() implies #[trigger] p[i] <= m[i] by {
                assert(o[i] < n);
            }
            flat_monotone(shape, p, m);
            flat_bounds(shape, p);
        }
    }
    assert(x =~= y);
}

/// An ingested tensor is a full chain of its ingestion.
pub proof fn tensor_is_chain(g: TensorIngested, cells: Seq<Seq<u8>>, shape: Seq<usize>, pad: Seq<u8>)
    requires
        tensor_ingest_of(g, cells, shape, pad),
        cells.len() == volume(shape),
        cells.len() > 0,
    ensures
        search::full_chain(g, cells),
{
    volume_facts(shape, shape.len());
    assert forall|k: int| 0 <= k < cells.len() implies g.extends(cells.take(k), #[trigger] cells[k]) by {
        tail_of_tensor(g, cells, shape, pad, 2, k);
        tail_of_tensor(g, cells, shape, pad, 3, k);
        tail_of_tensor(g, cells, shape, pad, 4, k);
    }
    end_of_tensor(g, cells, shape, pad, 2);
    end_of_tensor(g, cells, shape, pad, 3);
    end_of_tensor(g, cells, shape, pad, 4);
    assert forall|t: Seq<u8>| cells.contains(t) implies #[trigger] tf::occurrences(cells, t) <= g.weight(t) by {
        assert(g.tf.tally(t) == tf::occurrences(cells, t));
    }
}

proof fn tail_of_tensor(g: TensorIngested, cells: Seq<Seq<u8>>, shape: Seq<usize>, pad: Seq<u8>, n: nat, k: int)
    requires
        tensor_ingest_of(g, cells, shape, pad),
        cells.len() == volume(shape),
        0 <= k < cells.len(),
        2 <= n <= 4,
    ensures
        tail_marked(g, cells.take(k), cells[k], n),
{
    cube_of_prefix(cells, shape, pad, n, k);
    let m = multi(shape, k);
    let anchor = moved(m, 4 - n);
    assert forall|a: int| 0 <= a < shape.len() implies 0 <= #[trigger] anchor[a] && anchor[a] <= shape[a] + 6 - n by {
        assert(0 <= m[a] < shape[a]);
    }
    assert(g.channels@[n - 1]@ == cube_bits(cells, shape, pad, n));
    assert(anchored(shape, n, anchor));
    assert(cube_bits(cells, shape, pad, n).contains(cube_bit(cells, shape, pad, n, anchor)));
    assert(cells.take(k).len() == k);
}

proof fn end_of_tensor(g: TensorIngested, cells: Seq<Seq<u8>>, shape: Seq<usize>, pad: Seq<u8>, n: nat)
    requires
        tensor_ingest_of(g, cells, shape, pad),
        cells.len() > 0,
        forall|a: int| 0 <= a < shape.len() ==> #[trigger] shape[a] > 0,
        2 <= n <= 4,
    ensures
        cube_marked(g, cells, n, end_anchor(shape, n)),
{
    let anchor = end_anchor(shape, n);
    assert forall|a: int| 0 <= a < shape.len() implies 0 <= #[trigger] anchor[a] && anchor[a] <= shape[a] + 6 - n by {
        assert(shape[a] > 0);
    }
    assert(g.channels@[n - 1]@ == cube_bits(cells, shape, pad, n));
    assert(anchored(shape, n, anchor));
    assert(cube_bits(cells, shape, pad, n).contains(cube_bit(cells, shape, pad, n, anchor)));
}

/// The plain restoration of an ingested tensor is exactly its set of tokens.
pub proof fn tensor_unordered_law(g: TensorIngested, cells: Seq<Seq<u8>>, shape: Seq<usize>, pad: Seq<u8>)
    requires
        tensor_ingest_of(g, cells, shape, pad),
        cells.len() == volume(shape),
    ensures
        g.unordered() == cells.to_set(),
{
    assert forall|t: Seq<u8>| g.unordered().contains(t) == cells.to_set().contains(t) by {
        assert(g.channels@[1 - 1]@ == (if cells.len() > 0 { cube_bits(cells, shape, pad, 1) } else { Set::empty() }));
        assert(g.luts@[1 - 1]@ == (if cells.len() > 0 { cube_rows(cells, shape, pad, 1) } else { Set::empty() }));
        assert(g.luts@[2 - 1]@ == (if cells.len() > 0 { cube_rows(cells, shape, pad, 2) } else { Set::empty() }));
        assert(g.luts@[3 - 1]@ == (if cells.len() > 0 { cube_rows(cells, shape, pad, 3) } else { Set::empty() }));
        if cells.contains(t) {
            let k = choose|k: int| 0 <= k < cells.len() && cells[k] == t;
            multi_facts(shape, k);
            let m = multi(shape, k);
            let anchor = moved(m, 3);
            assert(moved(anchor, -3) =~= m);
            assert forall|a: int| 0 <= a < shape.len() implies 0 <= #[trigger] anchor[a] && anchor[a] <= shape[a] + 5 by {
                assert(0 <= m[a] < shape[a]);
            }
            assert(anchored(shape, 1, anchor));
            let b = cube_bit(cells, shape, pad, 1, anchor);
            assert(cube_bits(cells, shape, pad, 1).contains(b));
            assert(cube_rows(cells, shape, pad, 1).contains((b, t)));
            assert(lut::selected(g.channels@[0]@, g.luts@[0]@).contains(t));
        }
        if g.unordered().contains(t) {
            if lut::selected(g.channels@[0]@, g.luts@[0]@).contains(t) {
                let b = choose|b: u32| #[trigger] g.channels@[0]@.contains(b) && g.luts@[0]@.contains((b, t));
                tensor_row_token(cells, shape, pad, 1, (b, t));
            } else if lut::selected(g.channels@[1]@, g.luts@[1]@).contains(t) {
                let b = choose|b: u32| #[trigger] g.channels@[1]@.contains(b) && g.luts@[1]@.contains((b, t));
                tensor_row_token(cells, shape, pad, 2, (b, t));
            } else {
                let b = choose|b: u32| #[trigger] g.channels@[2]@.contains(b) && g.luts@[2]@.contains((b, t));
                tensor_row_token(cells, shape, pad, 3, (b, t));
            }
        }
    }
    assert(g.unordered() =~= cells.to_set());
}

proof fn tensor_row_token(cells: Seq<Seq<u8>>, shape: Seq<usize>, pad: Seq<u8>, n: nat, r: (u32, Seq<u8>))
    requires
        cube_rows(cells, shape, pad, n).contains(r),
        cells.len() == volume(shape),
    ensures
        cells.contains(r.1),
{
    let anchor = choose|anchor: Seq<int>|
        within(shape, moved(anchor, -3)) && #[trigger] cube_bit(cells, shape, pad, n, anchor) == r.0 && cells[flat(
            shape,
            moved(anchor, -3),
        )] == r.1;
    flat_bounds(shape, moved(anchor, -3));
}

/// What the restoration of an ingested tensor gives back: a rearrangement of its
/// cells, or its distinct tokens in byte order.
pub proof fn tensor_restoration_law(
    g: TensorIngested,
    cells: Seq<Seq<u8>>,
    shape: Seq<usize>,
    pad: Seq<u8>,
    beam: nat,
)
    requires
        tensor_ingest_of(g, cells, shape, pad),
        cells.len() == volume(shape),
    ensures
        ({
            let out = grid::placed_from(g, api::listing(g.unordered()), beam);
            out.to_multiset() == cells.to_multiset() || out == api::listing(cells.to_set())
        }),
{
    tensor_unordered_law(g, cells, shape, pad);
    vstd::seq_lib::seq_to_set_is_finite(cells);
    api::listing_exists(cells.to_set());
    let all = api::listing(g.unordered());
    let out = grid::placed_from(g, all, beam);
    grid::placed_law(g, all, beam);
    if cells.len() == 0 || all.len() == 0 {
        if cells.len() > 0 {
            assert(cells.to_set().contains(cells[0]));
            assert(all.contains(cells[0]));
        }
        assert(out =~= cells);
    } else if search::full_chain(g, out) {
        assert forall|t: Seq<u8>| #[trigger] g.weight(t) == tf::occurrences(cells, t) by {
            assert(g.tf.tally(t) == tf::occurrences(cells, t));
        }
        search::chain_rearranges(g, cells, out);
    }
}

/// What is restored depends on the cells, the shape, the padding and the beam
/// alone.
pub proof fn tensor_restoration_determined(
    a: TensorIngested,
    b: TensorIngested,
    cells: Seq<Seq<u8>>,
    shape: Seq<usize>,
    pad: Seq<u8>,
    beam: nat,
)
    requires
        tensor_ingest_of(a, cells, shape, pad),
        tensor_ingest_of(b, cells, shape, pad),
        cells.len() == volume(shape),
    ensures
        a.unordered() == b.unordered(),
        grid::placed_from(a, api::listing(a.unordered()), beam) == grid::placed_from(b, api::listing(b.unordered()), beam),
{
    tensor_unordered_law(a, cells, shape, pad);
    tensor_unordered_law(b, cells, shape, pad);
    assert forall|n: int| 1 <= n <= 4 implies (#[trigger] a.channels@[n - 1])@ == b.channels@[n - 1]@ by {}
    assert(search::alike(a, b));
    search::alike_searches(a, b, api::listing(a.unordered()), beam, crate::morphisms::api::WALK_BUDGET as nat);
}

/// Where the walk over a tensor ends within its budget, every cell is restored as
/// often as the tensor has it; where the tensor is the only full chain, the tensor
/// itself is.
pub proof fn complete_tensor_restoration(
    g: TensorIngested,
    cells: Seq<Seq<u8>>,
    shape: Seq<usize>,
    pad: Seq<u8>,
    beam: nat,
)
    requires
        tensor_ingest_of(g, cells, shape, pad),
        cells.len() == volume(shape),
        cells.len() > 0,
        grid::placing_ends(g, api::listing(g.unordered())),
    ensures
        ({
            let out = grid::placed_from(g, api::listing(g.unordered()), beam);
            &&& out.to_multiset() == cells.to_multiset()
            &&& search::sole(g, cells) ==> out == cells
        }),
{
    tensor_unordered_law(g, cells, shape, pad);
    vstd::seq_lib::seq_to_set_is_finite(cells);
    api::listing_exists(cells.to_set());
    tensor_is_chain(g, cells, shape, pad);
    let all = api::listing(g.unordered());
    assert forall|t: Seq<u8>| #[trigger] cells.contains(t) implies all.contains(t) by {
        assert(cells.to_set().contains(t));
        assert(all.to_set().contains(t));
    }
    grid::complete_placing(g, all, cells, beam);
    assert forall|t: Seq<u8>| #[trigger] g.weight(t) == tf::occurrences(cells, t) by {
        assert(g.tf.tally(t) == tf::occurrences(cells, t));
    }
    search::chain_rearranges(g, cells, grid::placed_from(g, all, beam));
}

/// A tensor that can be walked without a choice, and has fewer cells than the
/// budget, is restored exactly.
pub proof fn exact_tensor_restoration(
    g: TensorIngested,
    cells: Seq<Seq<u8>>,
    shape: Seq<usize>,
    pad: Seq<u8>,
    beam: nat,
)
    requires
        tensor_ingest_of(g, cells, shape, pad),
        cells.len() == volume(shape),
        search::straight(g, api::listing(cells.to_set()), cells),
        cells.len() < WALK_BUDGET,
    ensures
        grid::placed_from(g, api::listing(g.unordered()), beam) == cells,
{
    tensor_unordered_law(g, cells, shape, pad);
    vstd::seq_lib::seq_to_set_is_finite(cells);
    api::listing_exists(cells.to_set());
    let all = api::listing(cells.to_set());
    if cells.len() > 0 {
        assert(cells.to_set().contains(cells[0]));
        assert(all.to_set().contains(cells[0]));
        assert(all.contains(cells[0]));
        grid::exact_placing(g, all, cells, beam);
    } else {
        assert(cells =~= Seq::empty());
    }
}

/// The cell of a tensor at a position, the pad outside.
pub open spec fn cell_or_pad(cells: Seq<Seq<u8>>, shape: Seq<usize>, pad: Seq<u8>, pos: Seq<int>) -> Seq<u8> {
    if pos.len() == shape.len() && forall|a: int| 0 <= a < shape.len() ==> 0 <= #[trigger] pos[a] < shape[a] {
        cells[flat(shape, pos)]
    } else {
        pad
    }
}

/// The joined cells of a cube of `n` cells along each axis, the last axis first to
/// move, whose lowest corner stands at the given position.
pub open spec fn cube_at(cells: Seq<Seq<u8>>, shape: Seq<usize>, pad: Seq<u8>, n: nat, corner: Seq<int>) -> Seq<u8> {
    api::gram(
        Seq::new(
            cube(n, shape.len()),
            |k: int|
                cell_or_pad(
                    cells,
                    shape,
                    pad,
                    Seq::new(shape.len(), |a: int| corner[a] + offset(n, shape.len(), k)[a]),
                ),
        ),
    )
}

/// The corner from which a cube of `n` reaches one place past the last cell along the
/// last axis.
pub open spec fn past_end(shape: Seq<usize>, n: int) -> Seq<int> {
    Seq::new(shape.len(), |a: int| shape[a] - n + (if a == shape.len() - 1 { 1int } else { 0 }))
}

/// Whether the channels of two, three and four hold all cubes of a tensor that end in
/// one of its cells, and the three that reach one place past its last cell.
pub open spec fn cubes_marked(g: TensorIngested, q: Seq<Seq<u8>>) -> bool {
    let shape = g.shape@;
    &&& forall|n: int, k: int|
        2 <= n <= 4 && 0 <= k < q.len() ==> g.channels@[n - 1]@.contains(
            hashing::token_bit(
                #[trigger] cube_at(
                    q,
                    shape,
                    g.pad@,
                    n as nat,
                    moved(multi(shape, k), 1 - n),
                ),
                conv::seed_of(n, shape.len() as int) as u64,
            ),
        )
    &&& forall|n: int|
        2 <= n <= 4 ==> g.channels@[n - 1]@.contains(
            hashing::token_bit(
                #[trigger] cube_at(
                    q,
                    shape,
                    g.pad@,
                    n as nat,
                    past_end(shape, n),
                ),
                conv::seed_of(n, shape.len() as int) as u64,
            ),
        )
}

proof fn bit_of_cube(cells: Seq<Seq<u8>>, shape: Seq<usize>, pad: Seq<u8>, n: nat, anchor: Seq<int>, corner: Seq<int>)
    requires
        n >= 1,
        anchor.len() == shape.len(),
        corner.len() == shape.len(),
        forall|a: int| 0 <= a < shape.len() ==> #[trigger] anchor[a] == corner[a] + 3,
    ensures
        cube_bit(cells, shape, pad, n, anchor) == hashing::token_bit(
            cube_at(cells, shape, pad, n, corner),
            conv::seed_of(n as int, shape.len() as int) as u64,
        ),
{
    let x = cube_parts(cells, shape, pad, n, anchor);
    let y = Seq::new(
        cube(n, shape.len()),
        |k: int|
            cell_or_pad(cells, shape, pad, Seq::new(shape.len(), |a: int| corner[a] + offset(n, shape.len(), k)[a])),
    );
    assert forall|k: int| 0 <= k < x.len() implies x[k] == y[k] by {
        let o = offset(n, shape.len(), k);
        offset_facts(n, shape.len(), k);
        let p = moved(plus(anchor, o), -3);
        let r = Seq::new(shape.len(), |a: int| corner[a] + o[a]);
        assert(p =~= r) by {
            assert forall|a: int| 0 <= a < shape.len() implies p[a] == r[a] by {
                assert(anchor[a] == corner[a] + 3);
            }
        }
        assert(r =~= Seq::new(shape.len(), |a: int| corner[a] + offset(n, shape.len(), k)[a]));
        assert(within(shape, p) == (r.len() == shape.len() && forall|a: int| 0 <= a < shape.len() ==> 0 <= #[trigger] r[a] < shape[a]));
    }
    assert(x =~= y);
}

/// A full chain over a tensor is a list of as many cells as the tensor has, none more
/// often than it was counted, all of whose cubes are marked; and every such list is a
/// full chain.
pub proof fn tensor_chain_law(g: TensorIngested, q: Seq<Seq<u8>>)
    ensures
        search::full_chain(g, q) <==> {
            &&& q.len() == volume(g.shape@)
            &&& forall|t: Seq<u8>| q.contains(t) ==> #[trigger] tf::occurrences(q, t) <= g.tf.tally(t)
            &&& cubes_marked(g, q)
        },
{
    let shape = g.shape@;
    let pad = g.pad@;
    let channel_seed = |n: int| conv::seed_of(n, shape.len() as int) as u64;
    assert forall|n: int| 2 <= n <= 4 implies #[trigger] cube_marked(g, q, n as nat, end_anchor(shape, n as nat))
        == g.channels@[n - 1]@.contains(hashing::token_bit(cube_at(q, shape, pad, n as nat, past_end(shape, n)), channel_seed(n))) by {
        bit_of_cube(q, shape, pad, n as nat, end_anchor(shape, n as nat), past_end(shape, n));
    }
    assert(cube_marked(g, q, 2int as nat, end_anchor(shape, 2int as nat)) == cube_marked(g, q, 2, end_anchor(shape, 2)));
    assert(cube_marked(g, q, 3int as nat, end_anchor(shape, 3int as nat)) == cube_marked(g, q, 3, end_anchor(shape, 3)));
    assert(cube_marked(g, q, 4int as nat, end_anchor(shape, 4int as nat)) == cube_marked(g, q, 4, end_anchor(shape, 4)));
    if q.len() == volume(shape) {
        assert forall|n: int, k: int| 2 <= n <= 4 && 0 <= k < q.len() implies #[trigger] tail_marked(g, q.take(k), q[k], n as nat)
            == g.channels@[n - 1]@.contains(hashing::token_bit(cube_at(q, shape, pad, n as nat, moved(multi(shape, k), 1 - n)), channel_seed(n))) by {
            cube_of_prefix(q, shape, pad, n as nat, k);
            assert(q.take(k).len() == k);
            bit_of_cube(q, shape, pad, n as nat, moved(multi(shape, k), 4 - n), moved(multi(shape, k), 1 - n));
        }
        if search::full_chain(g, q) {
            assert forall|t: Seq<u8>| q.contains(t) implies #[trigger] tf::occurrences(q, t) <= g.tf.tally(t) by {
                assert(g.weight(t) == g.tf.tally(t));
            }
            assert forall|n: int, k: int| 2 <= n <= 4 && 0 <= k < q.len() implies g.channels@[n - 1]@.contains(
                hashing::token_bit(
                    #[trigger] cube_at(
                        q,
                        shape,
                        g.pad@,
                        n as nat,
                        moved(multi(shape, k), 1 - n),
                    ),
                    conv::seed_of(n, shape.len() as int) as u64,
                ),
            ) by {
                assert(g.extends(q.take(k), q[k]));
                assert(n == 2 || n == 3 || n == 4);
                assert(tail_marked(g, q.take(k), q[k], n as nat));
            }
            assert forall|n: int| 2 <= n <= 4 implies g.channels@[n - 1]@.contains(
                hashing::token_bit(
                    #[trigger] cube_at(
                        q,
                        shape,
                        g.pad@,
                        n as nat,
                        past_end(shape, n),
                    ),
                    conv::seed_of(n, shape.len() as int) as u64,
                ),
            ) by {
                assert(cube_marked(g, q, n as nat, end_anchor(shape, n as nat)));
            }
        }
        if cubes_marked(g, q) {
            assert forall|k: int| 0 <= k < q.len() implies g.extends(q.take(k), #[trigger] q[k]) by {
                chain_cube(g, q, 2, k);
                chain_cube(g, q, 3, k);
                chain_cube(g, q, 4, k);
                assert(tail_marked(g, q.take(k), q[k], 2int as nat));
                assert(tail_marked(g, q.take(k), q[k], 3int as nat));
                assert(tail_marked(g, q.take(k), q[k], 4int as nat));
            }
            end_cube(g, q, 2);
            end_cube(g, q, 3);
            end_cube(g, q, 4);
            assert(cube_marked(g, q, 2int as nat, end_anchor(shape, 2int as nat)));
            assert(cube_marked(g, q, 3int as nat, end_anchor(shape, 3int as nat)));
            assert(cube_marked(g, q, 4int as nat, end_anchor(shape, 4int as nat)));
            assert(g.closes(q));
        }
    }
}

proof fn chain_cube(g: TensorIngested, q: Seq<Seq<u8>>, n: int, k: int)
    requires
        cubes_marked(g, q),
        2 <= n <= 4,
        0 <= k < q.len(),
    ensures
        g.channels@[n - 1]@.contains(
            hashing::token_bit(
                cube_at(
                    q,
                    g.shape@,
                    g.pad@,
                    n as nat,
                    moved(multi(g.shape@, k), 1 - n),
                ),
                conv::seed_of(n, g.shape@.len() as int) as u64,
            ),
        ),
{
}

proof fn end_cube(g: TensorIngested, q: Seq<Seq<u8>>, n: int)
    requires
        cubes_marked(g, q),
        2 <= n <= 4,
    ensures
        g.channels@[n - 1]@.contains(
            hashing::token_bit(
                cube_at(
                    q,
                    g.shape@,
                    g.pad@,
                    n as nat,
                    past_end(g.shape@, n),
                ),
                conv::seed_of(n, g.shape@.len() as int) as u64,
            ),
        ),
{
}

/// What is restored of a tensor, other than the plain list of its tokens, fills the
/// tensor with no token more often than it was counted and with marked cubes only.
/// Every other such filling parts from one that was walked to at a token that is tried
/// later.
pub proof fn restored_cubes(g: TensorIngested, beam: nat)
    requires
        volume(g.shape@) > 0,
        grid::placed_from(g, api::listing(g.unordered()), beam) != api::listing(g.unordered()),
    ensures
        ({
            let out = grid::placed_from(g, api::listing(g.unordered()), beam);
            &&& out.len() == volume(g.shape@)
            &&& cubes_marked(g, out)
            &&& forall|t: Seq<u8>| out.contains(t) ==> #[trigger] tf::occurrences(out, t) <= g.tf.tally(t)
            &&& beam <= 1 ==> forall|q: Seq<Seq<u8>>|
                q.len() == volume(g.shape@) && (forall|t: Seq<u8>|
                    q.contains(t) ==> #[trigger] tf::occurrences(q, t) <= g.tf.tally(t)) && #[trigger] cubes_marked(g, q) && (
                forall|t: Seq<u8>| #[trigger] q.contains(t) ==> api::listing(g.unordered()).contains(t)) ==> search::no_later(
                    g,
                    out,
                    q,
                )
        }),
{
    let all = api::listing(g.unordered());
    let out = grid::placed_from(g, all, beam);
    grid::placed_law(g, all, beam);
    if all.len() == 0 {
        assert(out =~= all);
    }
    tensor_chain_law(g, out);
    if beam <= 1 {
        assert forall|q: Seq<Seq<u8>>|
            q.len() == volume(g.shape@) && (forall|t: Seq<u8>|
                q.contains(t) ==> #[trigger] tf::occurrences(q, t) <= g.tf.tally(t)) && #[trigger] cubes_marked(g, q) && (
            forall|t: Seq<u8>| #[trigger] q.contains(t) ==> all.contains(t)) implies search::no_later(g, out, q) by {
            tensor_chain_law(g, q);
            assert(q.take(0) =~= Seq::empty());
            search::explore_first(g, all, q, 0, WALK_BUDGET as nat);
        }
    }
}

/// The cells of a tensor stand row by row: one place along the last axis is one cell,
/// one place along an axis is as many as all places along the axes behind it. With two
/// axes that is the order of a grid, and cubes are its squares.
pub proof fn tensor_as_grid(cells: Seq<Seq<u8>>, h: usize, w: usize, pad: Seq<u8>, n: nat, i: int, j: int)
    requires
        1 <= n <= 4,
    ensures
        volume(seq![h, w]) == h * w,
        flat(seq![h, w], seq![i, j]) == i * w + j,
        cube_bit(cells, seq![h, w], pad, n, seq![i, j]) == grid::block_bit(cells, w as int, h as int, pad, n, i, j),
{
    let shape = seq![h, w];
    reveal_with_fuel(flat, 3);
    reveal_with_fuel(volume, 3);
    reveal_with_fuel(cube, 3);
    reveal_with_fuel(offset, 3);
    assert(shape.drop_last() =~= seq![h]);
    assert(seq![h].drop_last() =~= Seq::<usize>::empty());
    assert(volume(seq![h]) == volume(Seq::<usize>::empty()) * (h as nat));
    assert(volume(seq![h]) == h) by {
        assert(1 * (h as nat) == h) by (nonlinear_arith);
    }
    plane_index(h, w, i, j);
    assert(cube(n, 2) == n * n) by {
        assert(cube(n, 1) == cube(n, 0) * n);
        assert(1 * n == n) by (nonlinear_arith);
    }
    let x = cube_parts(cells, shape, pad, n, seq![i, j]);
    let y = grid::block_parts(cells, w as int, h as int, pad, n, i, j);
    assert forall|k: int| 0 <= k < n * n implies x[k] == y[k] by {
        let o = offset(n, 2, k);
        let m = n as int;
        assert(k / m / 1 == k / m);
        assert(offset(n, 0, k / m / m) =~= Seq::<int>::empty());
        assert((k / m) % m == k / m) by (nonlinear_arith)
            requires
                0 <= k < m * m,
                m >= 1,
        ;
        assert(offset(n, 1, k / m) =~= seq![(k / m) % m]);
        assert(o =~= seq![k / m, k % m]);
        let p = plus(seq![i, j], o);
        assert(p =~= seq![i + k / m, j + k % m]);
        let a = i + k / m;
        let b = j + k % m;
        let r = moved(p, -3);
        assert(r =~= seq![a - 3, b - 3]);
        plane_index(h, w, a - 3, b - 3);
        assert(within(shape, r) == grid::inside(w as int, h as int, a, b)) by {
            if within(shape, r) {
                assert(0 <= r[0] < shape[0]);
                assert(0 <= r[1] < shape[1]);
            }
        }
    }
    assert(x =~= y);
}

proof fn plane_index(h: usize, w: usize, i: int, j: int)
    ensures
        flat(seq![h, w], seq![i, j]) == i * w + j,
{
    reveal_with_fuel(flat, 3);
    assert(seq![h, w].drop_last() =~= seq![h]);
    assert(seq![h].drop_last() =~= Seq::<usize>::empty());
    assert(seq![i, j].drop_last() =~= seq![i]);
    assert(seq![i].drop_last() =~= Seq::<int>::empty());
    assert(flat(seq![h], seq![i]) == flat(Seq::<usize>::empty(), Seq::<int>::empty()) * h + i);
    assert(0 * (h as int) == 0);
    assert(flat(seq![h], seq![i]) == i);
}

/// The corners at which a cube of side `n` lies over a tensor with three pads on every
/// side.
pub open spec fn over_tensor(shape: Seq<usize>, n: int, corner: Seq<int>) -> bool {
    corner.len() == shape.len() && forall|a: int| 0 <= a < shape.len() ==> -3 <= #[trigger] corner[a] <= shape[a] + 3 - n
}

/// A channel of a tensor holds the bit of every cube of its side over the padded tensor,
/// and no other bit; its index has each cell under the bit of the cube that begins there.
pub proof fn tensor_ingestion_law(g: TensorIngested, cells: Seq<Seq<u8>>, shape: Seq<usize>, pad: Seq<u8>, n: int)
    requires
        tensor_ingest_of(g, cells, shape, pad),
        cells.len() > 0,
        1 <= n <= 4,
    ensures
        forall|corner: Seq<int>|
            over_tensor(shape, n, corner) ==> g.channels@[n - 1]@.contains(
                hashing::token_bit(
                    #[trigger] cube_at(cells, shape, pad, n as nat, corner),
                    conv::seed_of(n, shape.len() as int) as u64,
                ),
            ),
        forall|b: u32| #[trigger]
            g.channels@[n - 1]@.contains(b) ==> exists|corner: Seq<int>|
                over_tensor(shape, n, corner) && b == hashing::token_bit(
                    #[trigger] cube_at(cells, shape, pad, n as nat, corner),
                    conv::seed_of(n, shape.len() as int) as u64,
                ),
        forall|pos: Seq<int>|
            within(shape, pos) ==> g.luts@[n - 1]@.contains(
                (
                    hashing::token_bit(
                        #[trigger] cube_at(cells, shape, pad, n as nat, pos),
                        conv::seed_of(n, shape.len() as int) as u64,
                    ),
                    cells[flat(shape, pos)],
                ),
            ),
{
    let seed = conv::seed_of(n, shape.len() as int) as u64;
    assert(g.channels@[n - 1]@ == cube_bits(cells, shape, pad, n as nat));
    assert(g.luts@[n - 1]@ == cube_rows(cells, shape, pad, n as nat));
    assert forall|corner: Seq<int>| over_tensor(shape, n, corner) implies g.channels@[n - 1]@.contains(
        hashing::token_bit(#[trigger] cube_at(cells, shape, pad, n as nat, corner), seed),
    ) by {
        let anchor = moved(corner, 3);
        assert forall|a: int| 0 <= a < shape.len() implies 0 <= #[trigger] anchor[a] && anchor[a] <= shape[a] + 6 - n by {
            assert(-3 <= corner[a] <= shape[a] + 3 - n);
        }
        bit_of_cube(cells, shape, pad, n as nat, anchor, corner);
        assert(anchored(shape, n as nat, anchor));
        assert(cube_bits(cells, shape, pad, n as nat).contains(cube_bit(cells, shape, pad, n as nat, anchor)));
    }
    assert forall|b: u32| #[trigger] g.channels@[n - 1]@.contains(b) implies exists|corner: Seq<int>|
        over_tensor(shape, n, corner) && b == hashing::token_bit(#[trigger] cube_at(cells, shape, pad, n as nat, corner), seed) by {
        let anchor = choose|anchor: Seq<int>|
            anchored(shape, n as nat, anchor) && #[trigger] cube_bit(cells, shape, pad, n as nat, anchor) == b;
        let corner = moved(anchor, -3);
        assert forall|a: int| 0 <= a < shape.len() implies -3 <= #[trigger] corner[a] <= shape[a] + 3 - n by {
            assert(0 <= anchor[a] && anchor[a] <= shape[a] + 6 - n);
        }
        bit_of_cube(cells, shape, pad, n as nat, anchor, corner);
        assert(over_tensor(shape, n, corner));
        assert(b == hashing::token_bit(cube_at(cells, shape, pad, n as nat, corner), seed));
    }
    assert forall|pos: Seq<int>| within(shape, pos) implies g.luts@[n - 1]@.contains(
        (hashing::token_bit(#[trigger] cube_at(cells, shape, pad, n as nat, pos), seed), cells[flat(shape, pos)]),
    ) by {
        let anchor = moved(pos, 3);
        assert(moved(anchor, -3) =~= pos);
        bit_of_cube(cells, shape, pad, n as nat, anchor, pos);
        let r = (cube_bit(cells, shape, pad, n as nat, anchor), cells[flat(shape, pos)]);
        assert(cube_rows(cells, shape, pad, n as nat).contains(r));
    }
}

} // verus!
