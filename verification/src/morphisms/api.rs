//! The n-gram scheme: ingestion of an ordered collection into three pointer
//! channels and an order channel, and its restoration.

use vstd::prelude::*;

use crate::hashing::BitAddress;
use crate::hllset::HLLSet;
use crate::lut::LutIndex;
use crate::lut::TokenSet;
use crate::morphisms::hllset_lut::HllsetLut;
use crate::search::Chain;
use crate::tf::TfTable;
use crate::hashing;
use crate::hllset;
use crate::lut;
use crate::morphisms::hllset_lut;
use crate::morphisms::scheme;
use crate::order;
use crate::search;
use crate::text;
use crate::tf;

verus! {

/// The pad token: `<PAD>`.
pub const PAD: [u8; 5] = [60, 80, 65, 68, 62];

/// The number of pointer channels.
pub const CHANNELS: usize = 3;

/// The names of the channels.
pub const CHANNEL_NAMES: [&'static str; 3] = ["G1", "G2", "G3"];

/// The seeds of the channels.
pub const CHANNEL_SEEDS: [u64; 3] = [0, 1, 2];

/// Paths that the ordering walk may visit.
pub const WALK_BUDGET: usize = 20_000;

/// Byte strings joined with a zero byte between neighbours.
pub open spec fn gram(parts: Seq<Seq<u8>>) -> Seq<u8>
    decreases parts.len(),
{
    if parts.len() == 0 {
        Seq::empty()
    } else if parts.len() == 1 {
        parts[0]
    } else {
        gram(parts.drop_last()) + seq![0u8] + parts.last()
    }
}

/// The views of a list of byte slices.
pub open spec fn slice_views(parts: Seq<&[u8]>) -> Seq<Seq<u8>> {
    parts.map_values(|p: &[u8]| p@)
}

/// Joins byte strings with a zero byte between neighbours.
pub fn join(parts: &[&[u8]]) -> (out: Vec<u8>)
    requires
        parts@.len() > 0,
    ensures
        out@ == gram(slice_views(parts@)),
{
    let ghost all = slice_views(parts@);
    let mut out = lut::copy_bytes(parts[0]);
    let mut i: usize = 1;
    proof {
        assert(all.take(1).len() == 1);
        assert(all.take(1)[0] == parts@[0]@);
    }
    while i < parts.len()
        invariant
            1 <= i <= parts.len(),
            all == slice_views(parts@),
            out@ == gram(all.take(i as int)),
        decreases parts.len() - i,
    {
        out.push(0u8);
        let mut next = lut::copy_bytes(parts[i]);
        out.append(&mut next);
        proof {
            let t = all.take(i as int + 1);
            assert(t.drop_last() =~= all.take(i as int));
            assert(t.last() == parts@[i as int]@);
            assert(out@ =~= gram(all.take(i as int)) + seq![0u8] + parts@[i as int]@);
        }
        i = i + 1;
    }
    proof {
        assert(all.take(i as int) =~= all);
    }
    out
}

/// Joins two byte strings.
pub fn join2(a: &[u8], b: &[u8]) -> (out: Vec<u8>)
    ensures
        out@ == gram(seq![a@, b@]),
{
    let parts: [&[u8]; 2] = [a, b];
    let out = join(vstd::array::array_as_slice(&parts));
    proof {
        assert(slice_views(parts@) =~= seq![a@, b@]);
    }
    out
}

/// Joins three byte strings.
pub fn join3(a: &[u8], b: &[u8], c: &[u8]) -> (out: Vec<u8>)
    ensures
        out@ == gram(seq![a@, b@, c@]),
{
    let parts: [&[u8]; 3] = [a, b, c];
    let out = join(vstd::array::array_as_slice(&parts));
    proof {
        assert(slice_views(parts@) =~= seq![a@, b@, c@]);
    }
    out
}

/// Joins four byte strings.
pub fn join4(a: &[u8], b: &[u8], c: &[u8], d: &[u8]) -> (out: Vec<u8>)
    ensures
        out@ == gram(seq![a@, b@, c@, d@]),
{
    let parts: [&[u8]; 4] = [a, b, c, d];
    let out = join(vstd::array::array_as_slice(&parts));
    proof {
        assert(slice_views(parts@) =~= seq![a@, b@, c@, d@]);
    }
    out
}

/// The collection with one pad before it and two behind it.
pub open spec fn padded(tokens: Seq<Seq<u8>>, pad: Seq<u8>) -> Seq<Seq<u8>> {
    seq![pad] + tokens + seq![pad, pad]
}

/// The joined window of `n` tokens from index `i` on.
pub open spec fn window(p: Seq<Seq<u8>>, i: int, n: int) -> Seq<u8> {
    gram(p.subrange(i, i + n))
}

/// The bits of all windows of `n` tokens.
pub open spec fn window_bits(p: Seq<Seq<u8>>, n: int, seed: u64) -> Set<u32> {
    Set::new(|b: u32| exists|i: int| 0 <= i && i + n <= p.len() && hashing::token_bit(#[trigger] window(p, i, n), seed) == b)
}

/// The pairs of the windows at the first `k` real tokens with those tokens.
pub open spec fn window_rows(p: Seq<Seq<u8>>, n: int, seed: u64, k: int) -> Set<(u32, Seq<u8>)> {
    Set::new(
        |r: (u32, Seq<u8>)|
            exists|i: int|
                1 <= i <= k && i + n <= p.len() && hashing::token_bit(#[trigger] window(p, i, n), seed) == r.0 && p[i] == r.1,
    )
}

fn read_window(p: &Vec<Vec<u8>>, i: usize, n: usize) -> (out: Vec<u8>)
    requires
        n >= 1,
        i + n <= p.len(),
    ensures
        out@ == window(hllset::token_views(p@), i as int, n as int),
{
    let mut parts: Vec<&[u8]> = Vec::new();
    let mut k: usize = 0;
    while k < n
        invariant
            k <= n,
            i + n <= p.len(),
            parts@.len() == k,
            forall|j: int| 0 <= j < k ==> (#[trigger] parts@[j])@ == p@[i + j]@,
        decreases n - k,
    {
        parts.push(p[i + k].as_slice());
        k = k + 1;
    }
    proof {
        assert(slice_views(parts@) =~= hllset::token_views(p@).subrange(i as int, i + n));
    }
    join(parts.as_slice())
}

/// The sketch and the index of the windows of `n` tokens of a padded collection
/// with `k` real tokens.
fn pointer_channel(p: &Vec<Vec<u8>>, n: usize, seed: u64, k: usize) -> (out: (HLLSet, LutIndex))
    requires
        1 <= n <= 3,
        k + 3 == p.len(),
    ensures
        out.0@ == window_bits(hllset::token_views(p@), n as int, seed),
        out.1@ == window_rows(hllset::token_views(p@), n as int, seed, k as int),
{
    let ghost v = hllset::token_views(p@);
    let mut sketch = HLLSet::new();
    let mut lut = LutIndex::new();
    let mut i: usize = 0;
    let count: usize = p.len() - n + 1;
    while i < count
        invariant
            i <= count,
            count == p.len() - n + 1,
            1 <= n <= 3,
            k + 3 == p.len(),
            v == hllset::token_views(p@),
            forall|b: u32|
                #[trigger] sketch@.contains(b) == exists|j: int|
                    0 <= j < i && hashing::token_bit(#[trigger] window(v, j, n as int), seed) == b,
            forall|r: (u32, Seq<u8>)|
                #[trigger] lut@.contains(r) == exists|j: int|
                    1 <= j <= k && j < i && hashing::token_bit(#[trigger] window(v, j, n as int), seed) == r.0 && v[j] == r.1,
        decreases count - i,
    {
        let w = read_window(p, i, n);
        let bit = BitAddress::of_token_seeded(w.as_slice(), seed).bit();
        let ghost old_sketch = sketch@;
        let ghost old_lut = lut@;
        sketch.add_bit(bit);
        if i >= 1 && i <= k {
            lut.insert_token_at(lut::copy_bytes(p[i].as_slice()), bit);
        }
        proof {
            assert(hashing::token_bit(window(v, i as int, n as int), seed) == bit);
            assert(v[i as int] == p@[i as int]@);
            assert forall|b: u32| #[trigger] sketch@.contains(b) == exists|j: int|
                0 <= j < i + 1 && hashing::token_bit(#[trigger] window(v, j, n as int), seed) == b by {
                if old_sketch.contains(b) {
                    let j = choose|j: int| 0 <= j < i && hashing::token_bit(#[trigger] window(v, j, n as int), seed) == b;
                    assert(0 <= j < i + 1);
                }
                if exists|j: int| 0 <= j < i + 1 && hashing::token_bit(#[trigger] window(v, j, n as int), seed) == b {
                    let j = choose|j: int| 0 <= j < i + 1 && hashing::token_bit(#[trigger] window(v, j, n as int), seed) == b;
                    if j < i {
                        assert(old_sketch.contains(b));
                    }
                }
            }
            assert forall|r: (u32, Seq<u8>)| #[trigger] lut@.contains(r) == exists|j: int|
                1 <= j <= k && j < i + 1 && hashing::token_bit(#[trigger] window(v, j, n as int), seed) == r.0 && v[j] == r.1 by {
                if old_lut.contains(r) {
                    let j = choose|j: int|
                        1 <= j <= k && j < i && hashing::token_bit(#[trigger] window(v, j, n as int), seed) == r.0 && v[j]
                            == r.1;
                    assert(j < i + 1);
                }
                if exists|j: int|
                    1 <= j <= k && j < i + 1 && hashing::token_bit(#[trigger] window(v, j, n as int), seed) == r.0 && v[j]
                        == r.1 {
                    let j = choose|j: int|
                        1 <= j <= k && j < i + 1 && hashing::token_bit(#[trigger] window(v, j, n as int), seed) == r.0 && v[j]
                            == r.1;
                    if j < i {
                        assert(old_lut.contains(r));
                    }
                }
            }
        }
        i = i + 1;
    }
    proof {
        assert(sketch@ =~= window_bits(v, n as int, seed));
        assert(lut@ =~= window_rows(v, n as int, seed, k as int));
    }
    (sketch, lut)
}

/// The sketch of the windows of four tokens.
fn order_channel(p: &Vec<Vec<u8>>) -> (sketch: HLLSet)
    requires
        p.len() >= 4,
    ensures
        sketch@ == window_bits(hllset::token_views(p@), 4, 3),
{
    let ghost v = hllset::token_views(p@);
    let mut sketch = HLLSet::new();
    let mut i: usize = 0;
    let count: usize = p.len() - 3;
    while i < count
        invariant
            i <= count,
            count == p.len() - 3,
            p.len() >= 4,
            v == hllset::token_views(p@),
            forall|b: u32|
                #[trigger] sketch@.contains(b) == exists|j: int|
                    0 <= j < i && hashing::token_bit(#[trigger] window(v, j, 4), 3) == b,
        decreases count - i,
    {
        let w = read_window(p, i, 4);
        let bit = BitAddress::of_token_seeded(w.as_slice(), 3).bit();
        let ghost old_sketch = sketch@;
        sketch.add_bit(bit);
        proof {
            assert(hashing::token_bit(window(v, i as int, 4), 3) == bit);
            assert forall|b: u32| #[trigger] sketch@.contains(b) == exists|j: int|
                0 <= j < i + 1 && hashing::token_bit(#[trigger] window(v, j, 4), 3) == b by {
                if old_sketch.contains(b) {
                    let j = choose|j: int| 0 <= j < i && hashing::token_bit(#[trigger] window(v, j, 4), 3) == b;
                    assert(0 <= j < i + 1);
                }
                if exists|j: int| 0 <= j < i + 1 && hashing::token_bit(#[trigger] window(v, j, 4), 3) == b {
                    let j = choose|j: int| 0 <= j < i + 1 && hashing::token_bit(#[trigger] window(v, j, 4), 3) == b;
                    if j < i {
                        assert(old_sketch.contains(b));
                    }
                }
            }
        }
        i = i + 1;
    }
    proof {
        assert(sketch@ =~= window_bits(v, 4, 3));
    }
    sketch
}

/// What an ingestion leaves of a collection.
#[derive(Clone, Debug, PartialEq, Eq)]
pub struct Ingested {
    /// The sketches of the windows of one, two and three tokens.
    pub sketches: [HLLSet; 3],
    /// The indexes from their bits to the tokens they point at.
    pub luts: [LutIndex; 3],
    /// The counts of the real tokens.
    pub tf: TfTable,
    /// The number of real tokens.
    pub tokens: usize,
    pub pad: Vec<u8>,
    /// The order channel: the sketch of the windows of four tokens.
    pub g4: HLLSet,
    /// The union of the three sketches.
    pub projection: HLLSet,
    /// The content key of the projection.
    pub key: String,
    /// The content keys of the three sketches; empty for an empty collection.
    pub keys: [String; 3],
    /// The three sketches, registered under their names and touched once.
    pub hllset_lut: HllsetLut,
}

/// The union of three sets.
pub open spec fn union3(a: Set<u32>, b: Set<u32>, c: Set<u32>) -> Set<u32> {
    a.union(b).union(c)
}

/// The registry after three named sketches were registered and touched.
pub open spec fn touched_three(k0: Seq<char>, k1: Seq<char>, k2: Seq<char>) -> Map<Seq<u8>, u64> {
    Map::<Seq<u8>, u64>::empty().insert(text::utf8(hllset_lut::named("G1"@, k0)), 1).insert(text::utf8(hllset_lut::named("G2"@, k1)), 1).insert(
        text::utf8(hllset_lut::named("G3"@, k2)),
        1,
    )
}

/// The registry entries of the three names differ.
proof fn names_differ(k0: Seq<char>, k1: Seq<char>, k2: Seq<char>)
    ensures
        text::utf8(hllset_lut::named("G1"@, k0)) != text::utf8(hllset_lut::named("G2"@, k1)),
        text::utf8(hllset_lut::named("G1"@, k0)) != text::utf8(hllset_lut::named("G3"@, k2)),
        text::utf8(hllset_lut::named("G2"@, k1)) != text::utf8(hllset_lut::named("G3"@, k2)),
{
    reveal_strlit("G1");
    reveal_strlit("G2");
    reveal_strlit("G3");
    let a = hllset_lut::named("G1"@, k0);
    let b = hllset_lut::named("G2"@, k1);
    let c = hllset_lut::named("G3"@, k2);
    assert(a[1] == '1' && b[1] == '2' && c[1] == '3');
    if text::utf8(a) == text::utf8(b) {
        text::utf8_injective(a, b);
    }
    if text::utf8(a) == text::utf8(c) {
        text::utf8_injective(a, c);
    }
    if text::utf8(b) == text::utf8(c) {
        text::utf8_injective(b, c);
    }
}

/// What an ingestion of a collection holds.
pub open spec fn ingest_of(g: Ingested, tokens: Seq<Seq<u8>>, pad: Seq<u8>) -> bool {
    let p = padded(tokens, pad);
    let some = tokens.len() > 0;
    let none = Set::<u32>::empty();
    let no_rows = Set::<(u32, Seq<u8>)>::empty();
    let k = tokens.len() as int;
    &&& g.wf()
    &&& g.pad@ == pad
    &&& g.tokens == tokens.len()
    &&& g.sketches@[0]@ == (if some { window_bits(p, 1, 0) } else { none })
    &&& g.sketches@[1]@ == (if some { window_bits(p, 2, 1) } else { none })
    &&& g.sketches@[2]@ == (if some { window_bits(p, 3, 2) } else { none })
    &&& g.luts@[0]@ == (if some { window_rows(p, 1, 0, k) } else { no_rows })
    &&& g.luts@[1]@ == (if some { window_rows(p, 2, 1, k) } else { no_rows })
    &&& g.luts@[2]@ == (if some { window_rows(p, 3, 2, k) } else { no_rows })
    &&& g.g4@ == (if some { window_bits(p, 4, 3) } else { none })
    &&& forall|t: Seq<u8>| #[trigger] g.tf.tally(t) == tf::occurrences(tokens, t)
    &&& g.projection@ == union3(g.sketches@[0]@, g.sketches@[1]@, g.sketches@[2]@)
    &&& g.key@ == hllset::key_of(g.projection@)
    &&& forall|i: int|
        0 <= i < 3 ==> (#[trigger] g.keys@[i])@ == (if some { hllset::key_of(g.sketches@[i]@) } else { Seq::empty() })
    &&& g.hllset_lut@ == (if some {
        touched_three(g.keys@[0]@, g.keys@[1]@, g.keys@[2]@)
    } else {
        Map::empty()
    })
}

impl Ingested {
    /// Counts and registry are well formed.
    pub open spec fn wf(&self) -> bool {
        self.tf.wf() && self.hllset_lut.wf()
    }

    /// The tokens behind the members of the three sketches.
    pub open spec fn unordered(&self) -> Set<Seq<u8>> {
        lut::selected(self.sketches@[0]@, self.luts@[0]@).union(lut::selected(self.sketches@[1]@, self.luts@[1]@)).union(
            lut::selected(self.sketches@[2]@, self.luts@[2]@),
        )
    }

    /// The ingestion of an empty collection.
    pub fn new() -> (g: Ingested)
        ensures
            ingest_of(g, Seq::empty(), PAD@),
    {
        let empty = HLLSet::new();
        let key = empty.content_key();
        let g = Ingested {
            sketches: [HLLSet::new(), HLLSet::new(), HLLSet::new()],
            luts: [LutIndex::new(), LutIndex::new(), LutIndex::new()],
            tf: TfTable::new(),
            tokens: 0,
            pad: lut::copy_bytes(vstd::array::array_as_slice(&PAD)),
            g4: HLLSet::new(),
            projection: empty,
            key,
            keys: [String::new(), String::new(), String::new()],
            hllset_lut: HllsetLut::new(),
        };
        proof {
            assert(g.projection@ =~= union3(g.sketches@[0]@, g.sketches@[1]@, g.sketches@[2]@));
        }
        g
    }

    /// Restores the collection in order.
    pub fn materialize(&self) -> (out: Vec<Vec<u8>>)
        requires
            self.wf(),
        ensures
            hllset::token_views(out@) == ordered(*self, 1),
    {
        materialize(self)
    }

    /// The tokens of the collection.
    pub fn materialize_no_order(&self) -> (tokens: TokenSet)
        ensures
            tokens.wf(),
            tokens@ == self.unordered(),
    {
        materialize_no_order(self)
    }

    /// The names of the three indexes.
    pub fn lut_names(&self) -> (names: [String; 3])
        ensures
            names@[0]@ == "ng:"@ + "G1"@,
            names@[1]@ == "ng:"@ + "G2"@,
            names@[2]@ == "ng:"@ + "G3"@,
    {
        let names = [scheme::lut_name("ng", 0), scheme::lut_name("ng", 1), scheme::lut_name("ng", 2)];
        proof {
            reveal_strlit("ng");
            reveal_strlit(":");
            reveal_strlit("ng:");
            assert("ng"@ + ":"@ =~= "ng:"@);
        }
        names
    }
}

/// Ingests a collection with the pad `<PAD>`.
pub fn ingest(tokens: &Vec<Vec<u8>>) -> (g: Ingested)
    requires
        tokens@.len() + 3 <= usize::MAX,
    ensures
        ingest_of(g, hllset::token_views(tokens@), PAD@),
{
    ingest_with_pad(tokens, vstd::array::array_as_slice(&PAD))
}

/// Ingests a collection: one pad before it, two behind it, and every window of
/// one to three tokens pointing at its first token.
pub fn ingest_with_pad(tokens: &Vec<Vec<u8>>, pad: &[u8]) -> (g: Ingested)
    requires
        tokens@.len() + 3 <= usize::MAX,
    ensures
        ingest_of(g, hllset::token_views(tokens@), pad@),
{
    let mut g = Ingested::new();
    g.pad = lut::copy_bytes(pad);
    if tokens.len() == 0 {
        proof {
            assert(hllset::token_views(tokens@) =~= Seq::<Seq<u8>>::empty());
        }
        return g;
    }
    let mut p: Vec<Vec<u8>> = Vec::new();
    p.push(lut::copy_bytes(pad));
    let mut i: usize = 0;
    while i < tokens.len()
        invariant
            i <= tokens.len(),
            p@.len() == i + 1,
            p@[0]@ == pad@,
            forall|j: int| 0 <= j < i ==> (#[trigger] p@[j + 1])@ == tokens@[j]@,
        decreases tokens.len() - i,
    {
        p.push(lut::copy_bytes(tokens[i].as_slice()));
        i = i + 1;
    }
    p.push(lut::copy_bytes(pad));
    p.push(lut::copy_bytes(pad));
    let n = tokens.len();
    proof {
        assert forall|j: int| 0 <= j < n + 3 implies hllset::token_views(p@)[j] == padded(hllset::token_views(tokens@), pad@)[j] by {
            if 1 <= j <= n {
                assert(p@[(j - 1) + 1]@ == tokens@[j - 1]@);
            }
        }
        assert(hllset::token_views(p@) =~= padded(hllset::token_views(tokens@), pad@));
    }
    let (s1, l1) = pointer_channel(&p, 1, 0, n);
    let (s2, l2) = pointer_channel(&p, 2, 1, n);
    let (s3, l3) = pointer_channel(&p, 3, 2, n);
    g.sketches = [s1, s2, s3];
    g.luts = [l1, l2, l3];
    g.g4 = order_channel(&p);
    g.tf = TfTable::of_tokens(tokens);
    g.tokens = n;
    g.projection = s1.union(&s2).union(&s3);
    g.key = g.projection.content_key();
    let k1 = s1.content_key();
    let k2 = s2.content_key();
    let k3 = s3.content_key();
    let mut registry = HllsetLut::new();
    proof {
        names_differ(k1@, k2@, k3@);
    }
    registry.register_named("G1", k1.as_str());
    registry.touch_named("G1", k1.as_str());
    registry.register_named("G2", k2.as_str());
    registry.touch_named("G2", k2.as_str());
    registry.register_named("G3", k3.as_str());
    registry.touch_named("G3", k3.as_str());
    proof {
        assert(registry@ =~= touched_three(k1@, k2@, k3@));
    }
    g.keys = [k1, k2, k3];
    g.hllset_lut = registry;
    g
}

/// The key of the ingestion of a collection.
pub fn ingest_key(tokens: &Vec<Vec<u8>>) -> (key: String)
    requires
        tokens@.len() + 3 <= usize::MAX,
    ensures
        forall|g: Ingested| #[trigger] ingest_of(g, hllset::token_views(tokens@), PAD@) ==> key@ == g.key@,
{
    let g = ingest(tokens);
    let key = g.key.clone();
    proof {
        assert forall|h: Ingested| #[trigger] ingest_of(h, hllset::token_views(tokens@), PAD@) implies key@ == h.key@ by {
            assert(g.projection@ == h.projection@);
        }
    }
    key
}

/// Whether to restore the order.
#[derive(Clone, Copy, Debug, PartialEq, Eq, Structural)]
pub enum Order {
    Ordered,
    NoOrder,
}

/// How to restore a collection.
#[derive(Clone, Copy, Debug, PartialEq, Eq, Structural)]
pub struct MaterializeOptions {
    pub order: Order,
    pub beam: usize,
}

impl Default for MaterializeOptions {
    fn default() -> (o: MaterializeOptions)
        ensures
            o.order == Order::Ordered,
            o.beam == 1,
    {
        MaterializeOptions::ordered()
    }
}

impl MaterializeOptions {
    pub fn ordered() -> (o: MaterializeOptions)
        ensures
            o.order == Order::Ordered,
            o.beam == 1,
    {
        MaterializeOptions { order: Order::Ordered, beam: 1 }
    }

    pub fn no_order() -> (o: MaterializeOptions)
        ensures
            o.order == Order::NoOrder,
            o.beam == 1,
    {
        MaterializeOptions { order: Order::NoOrder, beam: 1 }
    }

    pub fn beam(width: usize) -> (o: MaterializeOptions)
        ensures
            o.order == Order::Ordered,
            o.beam == width,
    {
        MaterializeOptions { order: Order::Ordered, beam: width }
    }
}

/// The members of a set of tokens in byte order.
pub open spec fn listing(s: Set<Seq<u8>>) -> Seq<Seq<u8>> {
    choose|l: Seq<Seq<u8>>| #[trigger] lut::ascending_tokens(l) && l.to_set() == s
}

/// The list of a token set is the listing of its members.
pub proof fn listing_is(set: &TokenSet)
    requires
        set.wf(),
    ensures
        set.list() == listing(set@),
        lut::ascending_tokens(listing(set@)),
        listing(set@).to_set() == set@,
{
    set.list_facts();
    let l = listing(set@);
    assert(lut::ascending_tokens(set.list()) && set.list().to_set() == set@);
    assert(lut::ascending_tokens(l) && l.to_set() == set@);
    lut::ascending_tokens_unique(set.list(), l);
}

/// Whether a sketch holds the bit of a window.
pub open spec fn marked(sketch: Set<u32>, parts: Seq<Seq<u8>>, seed: u64) -> bool {
    sketch.contains(hashing::token_bit(gram(parts), seed))
}

/// The token `back` places before the end of a path, the pad before its start.
pub open spec fn looking_back(path: Seq<Seq<u8>>, pad: Seq<u8>, back: int) -> Seq<u8> {
    if path.len() >= back {
        path[path.len() - back]
    } else {
        pad
    }
}

/// Whether a token may stand behind a path: the windows of two, three and four
/// tokens that end in it are marked, as far as the path reaches.
pub open spec fn successor(g: Ingested, path: Seq<Seq<u8>>, t: Seq<u8>) -> bool {
    let cur = looking_back(path, g.pad@, 1);
    let prev = looking_back(path, g.pad@, 2);
    let before = looking_back(path, g.pad@, 3);
    &&& marked(g.sketches@[1]@, seq![cur, t], 1)
    &&& path.len() >= 1 ==> marked(g.sketches@[2]@, seq![prev, cur, t], 2)
    &&& path.len() >= 2 ==> marked(g.g4@, seq![before, prev, cur, t], 3)
}

/// Whether the sketch of a channel holds the bit of a byte string.
pub fn sketch_contains(g: &Ingested, channel: usize, bytes: &[u8]) -> (yes: bool)
    requires
        channel < 3,
    ensures
        yes == g.sketches@[channel as int]@.contains(hashing::token_bit(bytes@, channel as u64)),
{
    let a = BitAddress::of_token_seeded(bytes, channel as u64);
    g.sketches[channel].has_bit(a.reg(), a.tz())
}

/// Whether the order channel holds the bit of a byte string.
pub fn sketch4_contains(g: &Ingested, bytes: &[u8]) -> (yes: bool)
    ensures
        yes == g.g4@.contains(hashing::token_bit(bytes@, 3)),
{
    let a = BitAddress::of_token_seeded(bytes, 3);
    g.g4.has_bit(a.reg(), a.tz())
}

fn look_back<'a>(path: &'a Vec<Vec<u8>>, pad: &'a Vec<u8>, back: usize) -> (t: &'a [u8])
    requires
        back >= 1,
    ensures
        t@ == looking_back(hllset::token_views(path@), pad@, back as int),
{
    if path.len() >= back {
        path[path.len() - back].as_slice()
    } else {
        pad.as_slice()
    }
}

fn successor_ok(g: &Ingested, path: &Vec<Vec<u8>>, t: &[u8]) -> (yes: bool)
    ensures
        yes == successor(*g, hllset::token_views(path@), t@),
{
    let cur = look_back(path, &g.pad, 1);
    let prev = look_back(path, &g.pad, 2);
    let before = look_back(path, &g.pad, 3);
    proof {
        assert(hllset::token_views(path@).len() == path@.len());
    }
    if !sketch_contains(g, 1, join2(cur, t).as_slice()) {
        return false;
    }
    if path.len() >= 1 && !sketch_contains(g, 2, join3(prev, cur, t).as_slice()) {
        return false;
    }
    path.len() < 2 || sketch4_contains(g, join4(before, prev, cur, t).as_slice())
}

impl Chain for Ingested {
    open spec fn wf(&self) -> bool {
        self.tf.wf()
    }

    open spec fn size(&self) -> nat {
        self.tokens as nat
    }

    open spec fn weight(&self, t: Seq<u8>) -> nat {
        self.tf.tally(t)
    }

    open spec fn extends(&self, path: Seq<Seq<u8>>, t: Seq<u8>) -> bool {
        successor(*self, path, t)
    }

    open spec fn closes(&self, path: Seq<Seq<u8>>) -> bool {
        successor(*self, path, self.pad@)
    }

    proof fn weight_fits(&self, t: Seq<u8>) {
    }

    fn total(&self) -> (n: usize) {
        self.tokens
    }

    fn count(&self, t: &[u8]) -> (n: u64) {
        self.tf.count(t)
    }

    fn follows(&self, path: &Vec<Vec<u8>>, t: &[u8]) -> (yes: bool) {
        successor_ok(self, path, t)
    }

    fn ends(&self, path: &Vec<Vec<u8>>) -> (yes: bool) {
        successor_ok(self, path, self.pad.as_slice())
    }
}

/// The restored order of the given tokens.
pub open spec fn ordered_from(g: Ingested, tokens: Seq<Seq<u8>>, beam: nat) -> Seq<Seq<u8>> {
    let starts = search::candidates(g, tokens, Seq::empty());
    let wide = search::beam_result(g, tokens, beam);
    let deep = search::explore_each(g, tokens, Seq::empty(), starts, WALK_BUDGET as nat).0;
    if tokens.len() == 0 || g.tokens == 0 {
        Seq::empty()
    } else if beam > 1 && wide is Some {
        wide->0
    } else if g.tokens == 1 {
        if starts.len() > 0 {
            seq![starts[0]]
        } else {
            tokens
        }
    } else if deep is Some {
        deep->0
    } else {
        tokens
    }
}

/// The restored collection: by beam search where the beam is wider than one, else
/// by the walk from the best start; the plain token list where neither succeeds.
pub open spec fn ordered(g: Ingested, beam: nat) -> Seq<Seq<u8>> {
    ordered_from(g, listing(g.unordered()), beam)
}

/// Restores the order of the given tokens.
fn order_tokens(tokens: &TokenSet, g: &Ingested, beam: usize) -> (out: Vec<Vec<u8>>)
    requires
        tokens.wf(),
        g.wf(),
        beam > 1 ==> g.tokens < usize::MAX,
    ensures
        hllset::token_views(out@) == ordered_from(*g, tokens.list(), beam as nat),
{
    proof {
        tokens.list_facts();
    }
    let ghost all = tokens.list();
    if tokens.is_empty() || g.tokens == 0 {
        let out: Vec<Vec<u8>> = Vec::new();
        proof {
            assert(hllset::token_views(out@) =~= Seq::<Seq<u8>>::empty());
        }
        return out;
    }
    let list = tokens.to_vec();
    if beam > 1 {
        match search::beam_search(g, &list, beam) {
            Some(path) => {
                return path;
            },
            None => {},
        }
    }
    let mut left: Vec<u64> = Vec::new();
    let mut i: usize = 0;
    while i < list.len()
        invariant
            i <= list.len(),
            g.wf(),
            all == hllset::token_views(list@),
            left@.len() == i,
            forall|k: int| 0 <= k < i ==> #[trigger] left@[k] == g.tf.tally(all[k]),
        decreases list.len() - i,
    {
        proof {
            assert(all[i as int] == list@[i as int]@);
        }
        left.push(g.tf.count(list[i].as_slice()));
        i = i + 1;
    }
    let mut path: Vec<Vec<u8>> = Vec::new();
    proof {
        assert(hllset::token_views(path@) =~= Seq::<Seq<u8>>::empty());
        assert(search::counts_left(*g, all, hllset::token_views(path@), left@));
    }
    let starts = search::rank_candidates(g, &list, &path, &left);
    if g.tokens == 1 {
        if starts.len() > 0 {
            let mut out: Vec<Vec<u8>> = Vec::new();
            out.push(lut::copy_bytes(starts[0].token.as_slice()));
            proof {
                let c = search::candidates(*g, all, Seq::empty());
                assert(starts@.map_values(search::weighted_token())[0] == starts@[0].token@);
                assert(hllset::token_views(out@) =~= seq![c[0]]);
            }
            return out;
        }
        proof {
            assert(starts@.map_values(search::weighted_token()).len() == 0);
        }
        return list;
    }
    let mut budget: usize = WALK_BUDGET;
    if search::walk_each(g, &list, &mut path, &mut left, &mut budget, &starts) {
        path
    } else {
        list
    }
}

/// Restores a collection in order.
pub fn materialize(g: &Ingested) -> (out: Vec<Vec<u8>>)
    requires
        g.wf(),
    ensures
        hllset::token_views(out@) == ordered(*g, 1),
{
    materialize_with(g, &MaterializeOptions::ordered())
}

/// Restores a collection as the options say.
pub fn materialize_with(g: &Ingested, opts: &MaterializeOptions) -> (out: Vec<Vec<u8>>)
    requires
        g.wf(),
        opts.order == Order::Ordered && opts.beam > 1 ==> g.tokens < usize::MAX,
    ensures
        hllset::token_views(out@) == (match opts.order {
            Order::Ordered => ordered(*g, if opts.beam > 1 { opts.beam as nat } else { 1 }),
            Order::NoOrder => listing(g.unordered()),
        }),
{
    let tokens = unordered_tokens(g);
    proof {
        listing_is(&tokens);
    }
    match opts.order {
        Order::Ordered => {
            let beam: usize = if opts.beam > 1 {
                opts.beam
            } else {
                1
            };
            order_tokens(&tokens, g, beam)
        },
        Order::NoOrder => tokens.to_vec(),
    }
}

/// Restores a collection with a beam of the given width.
pub fn materialize_beam(g: &Ingested, width: usize) -> (out: Vec<Vec<u8>>)
    requires
        g.wf(),
        width > 1 ==> g.tokens < usize::MAX,
    ensures
        hllset::token_views(out@) == ordered(*g, if width > 1 { width as nat } else { 1 }),
{
    materialize_with(g, &MaterializeOptions::beam(width))
}

/// The tokens of a collection.
pub fn materialize_no_order(g: &Ingested) -> (tokens: TokenSet)
    ensures
        tokens.wf(),
        tokens@ == g.unordered(),
{
    unordered_tokens(g)
}

/// The tokens behind the members of the three sketches.
pub fn unordered_tokens(g: &Ingested) -> (tokens: TokenSet)
    ensures
        tokens.wf(),
        tokens@ == g.unordered(),
{
    let mut out = TokenSet::new();
    lut::select_into(&mut out, &g.sketches[0], &g.luts[0]);
    lut::select_into(&mut out, &g.sketches[1], &g.luts[1]);
    lut::select_into(&mut out, &g.sketches[2], &g.luts[2]);
    proof {
        assert(out@ =~= g.unordered());
    }
    out
}

/// The component of a set in a channel.
pub fn gate(gx: &HLLSet, h: &HLLSet) -> (s: HLLSet)
    ensures
        s@ == gx@.intersect(h@),
{
    gx.intersection(h)
}

/// A gate over a union gives each component back.
pub proof fn gate_law(a: Set<u32>, b: Set<u32>)
    ensures
        a.union(b).intersect(a) == a,
        a.union(b).intersect(b) == b,
{
    assert(a.union(b).intersect(a) =~= a);
    assert(a.union(b).intersect(b) =~= b);
}

/// The plain restoration of an ingested collection is exactly its set of tokens.
pub proof fn unordered_law(g: Ingested, tokens: Seq<Seq<u8>>, pad: Seq<u8>)
    requires
        ingest_of(g, tokens, pad),
    ensures
        g.unordered() == tokens.to_set(),
{
    let p = padded(tokens, pad);
    let k = tokens.len() as int;
    assert forall|t: Seq<u8>| g.unordered().contains(t) == tokens.to_set().contains(t) by {
        if tokens.contains(t) {
            let i = choose|i: int| 0 <= i < tokens.len() && tokens[i] == t;
            assert(p[i + 1] == t);
            let b = hashing::token_bit(window(p, i + 1, 1), 0);
            assert(window_bits(p, 1, 0).contains(b));
            assert(window_rows(p, 1, 0, k).contains((b, t)));
            assert(g.sketches@[0]@.contains(b));
            assert(lut::selected(g.sketches@[0]@, g.luts@[0]@).contains(t));
        }
        if g.unordered().contains(t) {
            if lut::selected(g.sketches@[0]@, g.luts@[0]@).contains(t) {
                let b = choose|b: u32| #[trigger] g.sketches@[0]@.contains(b) && g.luts@[0]@.contains((b, t));
                row_token(p, tokens, pad, 1, 0, (b, t));
            } else if lut::selected(g.sketches@[1]@, g.luts@[1]@).contains(t) {
                let b = choose|b: u32| #[trigger] g.sketches@[1]@.contains(b) && g.luts@[1]@.contains((b, t));
                row_token(p, tokens, pad, 2, 1, (b, t));
            } else {
                let b = choose|b: u32| #[trigger] g.sketches@[2]@.contains(b) && g.luts@[2]@.contains((b, t));
                row_token(p, tokens, pad, 3, 2, (b, t));
            }
        }
    }
    assert(g.unordered() =~= tokens.to_set());
}

proof fn row_token(p: Seq<Seq<u8>>, tokens: Seq<Seq<u8>>, pad: Seq<u8>, n: int, seed: u64, r: (u32, Seq<u8>))
    requires
        p == padded(tokens, pad),
        window_rows(p, n, seed, tokens.len() as int).contains(r),
    ensures
        tokens.contains(r.1),
{
    let i = choose|i: int|
        1 <= i <= tokens.len() && i + n <= p.len() && hashing::token_bit(#[trigger] window(p, i, n), seed) == r.0 && p[i] == r.1;
    assert(tokens[i - 1] == r.1);
}

/// The collection itself is a full chain of its ingestion.
pub proof fn collection_is_chain(g: Ingested, tokens: Seq<Seq<u8>>, pad: Seq<u8>)
    requires
        ingest_of(g, tokens, pad),
        tokens.len() > 0,
    ensures
        search::full_chain(g, tokens),
{
    let p = padded(tokens, pad);
    assert forall|i: int| 0 <= i < tokens.len() implies g.extends(tokens.take(i), #[trigger] tokens[i]) by {
        chain_step(g, tokens, pad, i, tokens[i]);
    }
    assert(tokens.take(tokens.len() as int) =~= tokens);
    chain_step(g, tokens, pad, tokens.len() as int, pad);
    assert forall|t: Seq<u8>| tokens.contains(t) implies #[trigger] tf::occurrences(tokens, t) <= g.weight(t) by {
        assert(g.tf.tally(t) == tf::occurrences(tokens, t));
    }
}

#[verifier::rlimit(60)]
proof fn chain_step(g: Ingested, tokens: Seq<Seq<u8>>, pad: Seq<u8>, i: int, t: Seq<u8>)
    requires
        ingest_of(g, tokens, pad),
        0 <= i <= tokens.len(),
        tokens.len() > 0,
        t == padded(tokens, pad)[i + 1],
    ensures
        successor(g, tokens.take(i), t),
{
    let p = padded(tokens, pad);
    let path = tokens.take(i);
    let cur = looking_back(path, pad, 1);
    let prev = looking_back(path, pad, 2);
    let before = looking_back(path, pad, 3);
    assert(p.subrange(i, i + 2) =~= seq![cur, t]);
    assert(window_bits(p, 2, 1).contains(hashing::token_bit(window(p, i, 2), 1)));
    if i >= 1 {
        assert(p.subrange(i - 1, i - 1 + 3) =~= seq![prev, cur, t]);
        assert(window_bits(p, 3, 2).contains(hashing::token_bit(window(p, i - 1, 3), 2)));
    }
    if i >= 2 {
        assert(p.subrange(i - 2, i - 2 + 4) =~= seq![before, prev, cur, t]);
        assert(window_bits(p, 4, 3).contains(hashing::token_bit(window(p, i - 2, 4), 3)));
    }
}

/// A list of one item cannot be rearranged.
proof fn single_rearranged(a: Seq<Seq<u8>>, b: Seq<Seq<u8>>)
    requires
        a.to_multiset() == b.to_multiset(),
        b.len() == 1,
    ensures
        a == b,
{
    a.to_multiset_ensures();
    b.to_multiset_ensures();
    assert(a.len() == a.to_multiset().len());
    assert(a.contains(a[0]));
    assert(b.to_multiset().count(a[0]) > 0);
    assert(b.contains(a[0]));
    assert(a =~= b);
}

/// What a restoration in order of an ingested collection gives back: a
/// rearrangement of the collection, or its distinct tokens in byte order. A
/// collection of one token comes back as it was.
#[verifier::rlimit(60)]
pub proof fn restoration_law(g: Ingested, tokens: Seq<Seq<u8>>, pad: Seq<u8>, beam: nat)
    requires
        ingest_of(g, tokens, pad),
    ensures
        ordered(g, beam).to_multiset() == tokens.to_multiset() || ordered(g, beam) == listing(tokens.to_set()),
        tokens.len() <= 1 ==> ordered(g, beam) == tokens,
{
    unordered_law(g, tokens, pad);
    vstd::seq_lib::seq_to_set_is_finite(tokens);
    listing_exists(tokens.to_set());
    let all = listing(g.unordered());
    let empty = Seq::<Seq<u8>>::empty();
    search::candidates_fit(g, all, empty);
    let starts = search::candidates(g, all, empty);
    if all.len() == 0 || tokens.len() == 0 {
        if tokens.len() > 0 {
            assert(tokens.to_set().contains(tokens[0]));
            assert(all.contains(tokens[0]));
        }
        assert(tokens =~= Seq::empty());
    } else if beam > 1 && search::beam_result(g, all, beam) is Some {
        search::beam_result_sound(g, all, beam);
        chain_is_rearrangement(g, tokens, pad, search::beam_result(g, all, beam)->0);
        if tokens.len() == 1 {
            single_rearranged(search::beam_result(g, all, beam)->0, tokens);
        }
    } else if tokens.len() == 1 {
        single_start(g, tokens, pad, all);
    } else {
        search::explore_each_sound(g, all, empty, starts, WALK_BUDGET as nat);
        let deep = search::explore_each(g, all, empty, starts, WALK_BUDGET as nat).0;
        if deep is Some {
            chain_is_rearrangement(g, tokens, pad, deep->0);
        }
    }
}

/// The only start for a collection of one token is that token.
proof fn single_start(g: Ingested, tokens: Seq<Seq<u8>>, pad: Seq<u8>, all: Seq<Seq<u8>>)
    requires
        ingest_of(g, tokens, pad),
        tokens.len() == 1,
        all.to_set() == tokens.to_set(),
    ensures
        search::candidates(g, all, Seq::empty()).len() > 0,
        seq![search::candidates(g, all, Seq::empty())[0]] == tokens,
{
    let empty = Seq::<Seq<u8>>::empty();
    let starts = search::candidates(g, all, empty);
    search::candidates_fit(g, all, empty);
    let t = tokens[0];
    collection_is_chain(g, tokens, pad);
    assert(tokens.take(0) =~= empty);
    assert(g.extends(tokens.take(0), tokens[0]));
    assert(tokens.drop_last() =~= empty);
    assert(tf::occurrences(tokens, t) == 1) by {
        reveal_with_fuel(tf::occurrences, 2);
    }
    assert(g.tf.tally(t) == tf::occurrences(tokens, t));
    assert(tokens.to_set().contains(t));
    assert(all.contains(t));
    search::filter_members(all, search::fits(g, empty), t);
    search::weight_rank_faithful(g);
    order::ranked_facts(all.filter(search::fits(g, empty)), search::weight_rank(g));
    assert(starts.contains(t));
    assert(starts.contains(starts[0]));
    assert(all.to_set().contains(starts[0]));
    assert(seq![starts[0]] =~= tokens);
}

/// The list of a finite set holds no token twice.
proof fn distinct_listing(s: Set<Seq<u8>>)
    requires
        s.finite(),
    ensures
        s.to_seq().no_duplicates(),
    decreases s.len(),
{
    reveal(Set::to_seq);
    if s.len() > 0 {
        let e = s.choose();
        distinct_listing(s.remove(e));
        s.remove(e).lemma_to_seq_to_set_id();
        let rest = s.remove(e).to_seq();
        assert(!rest.contains(e)) by {
            if rest.contains(e) {
                assert(rest.to_set().contains(e));
            }
        }
    }
}

/// Every finite set of tokens has a listing.
pub proof fn listing_exists(s: Set<Seq<u8>>)
    requires
        s.finite(),
    ensures
        lut::ascending_tokens(listing(s)),
        listing(s).to_set() == s,
{
    let r = |t: Seq<u8>| seq![order::ints(t)];
    let l = s.to_seq();
    let sorted = order::ranked(l, r);
    assert forall|a: Seq<u8>, b: Seq<u8>| #[trigger] r(a) == #[trigger] r(b) implies a == b by {
        assert(r(a)[0] == r(b)[0]);
        order::ints_injective(a, b);
    }
    order::ranked_facts(l, r);
    distinct_listing(s);
    l.to_multiset_ensures();
    sorted.to_multiset_ensures();
    l.lemma_multiset_has_no_duplicates();
    sorted.lemma_multiset_has_no_duplicates_conv();
    assert forall|i: int, j: int| 0 <= i < j < sorted.len() implies order::bytes_less(#[trigger] sorted[i], #[trigger] sorted[j]) by {
        let a = sorted[i];
        let b = sorted[j];
        assert(!order::key_less(r(b), r(a)));
        order::bytes_total(a, b);
        if order::bytes_less(b, a) {
            assert(r(b)[0] == order::ints(b));
            assert(r(a)[0] == order::ints(a));
            assert(order::key_less(r(b), r(a)));
        }
    }
    assert forall|t: Seq<u8>| sorted.to_set().contains(t) == s.contains(t) by {
        s.lemma_to_seq_to_set_id();
        assert(l.to_set().contains(t) == s.contains(t));
    }
    assert(sorted.to_set() =~= s);
    assert(lut::ascending_tokens(sorted) && sorted.to_set() == s);
}

/// A full chain over an ingested collection is a rearrangement of it.
pub proof fn chain_is_rearrangement(g: Ingested, tokens: Seq<Seq<u8>>, pad: Seq<u8>, path: Seq<Seq<u8>>)
    requires
        ingest_of(g, tokens, pad),
        search::full_chain(g, path),
    ensures
        path.to_multiset() == tokens.to_multiset(),
{
    assert forall|t: Seq<u8>| #[trigger] g.weight(t) == tf::occurrences(tokens, t) by {
        assert(g.tf.tally(t) == tf::occurrences(tokens, t));
    }
    search::chain_rearranges(g, tokens, path);
}

/// What is restored depends on the tokens, the padding and the beam alone.
pub proof fn restoration_determined(a: Ingested, b: Ingested, tokens: Seq<Seq<u8>>, pad: Seq<u8>, beam: nat)
    requires
        ingest_of(a, tokens, pad),
        ingest_of(b, tokens, pad),
    ensures
        a.unordered() == b.unordered(),
        ordered(a, beam) == ordered(b, beam),
{
    unordered_law(a, tokens, pad);
    unordered_law(b, tokens, pad);
    assert(search::alike(a, b));
    search::alike_searches(a, b, listing(a.unordered()), beam, WALK_BUDGET as nat);
}

/// Whether the walk over an ingested collection ends within its budget.
pub open spec fn walk_ends(g: Ingested) -> bool {
    let all = listing(g.unordered());
    search::explore_each(
        g,
        all,
        Seq::empty(),
        search::candidates(g, all, Seq::empty()),
        WALK_BUDGET as nat,
    ).1 > 0
}

/// Where the walk over the tokens of a full chain ends within its budget, what is
/// restored is a full chain.
proof fn restores_chain(g: Ingested, all: Seq<Seq<u8>>, full: Seq<Seq<u8>>, beam: nat)
    requires
        search::full_chain(g, full),
        g.tokens > 1,
        full.len() > 0,
        forall|t: Seq<u8>| #[trigger] full.contains(t) ==> all.contains(t),
        search::explore_each(g, all, Seq::empty(), search::candidates(g, all, Seq::empty()), WALK_BUDGET as nat).1 > 0,
    ensures
        search::full_chain(g, ordered_from(g, all, beam)),
{
    assert(full.contains(full[0]));
    search::beam_result_sound(g, all, beam);
    search::first_walk_complete(g, all, full, WALK_BUDGET as nat);
}

/// The listing of a collection's tokens holds each of them.
proof fn all_listed(g: Ingested, tokens: Seq<Seq<u8>>, pad: Seq<u8>)
    requires
        ingest_of(g, tokens, pad),
    ensures
        forall|t: Seq<u8>| #[trigger] tokens.contains(t) ==> listing(g.unordered()).contains(t),
{
    unordered_law(g, tokens, pad);
    vstd::seq_lib::seq_to_set_is_finite(tokens);
    listing_exists(tokens.to_set());
    let all = listing(g.unordered());
    assert forall|t: Seq<u8>| #[trigger] tokens.contains(t) implies all.contains(t) by {
        assert(tokens.to_set().contains(t));
        assert(all.to_set().contains(t));
    }
}

/// Where the walk ends within its budget, the restoration is a full chain: it has
/// every token as often as the collection. Where the collection is the only full
/// chain, the restoration is the collection itself.
pub proof fn complete_restoration(g: Ingested, tokens: Seq<Seq<u8>>, pad: Seq<u8>, beam: nat)
    requires
        ingest_of(g, tokens, pad),
        tokens.len() > 1,
        walk_ends(g),
    ensures
        search::full_chain(g, ordered(g, beam)),
        ordered(g, beam).to_multiset() == tokens.to_multiset(),
        search::sole(g, tokens) ==> ordered(g, beam) == tokens,
{
    collection_is_chain(g, tokens, pad);
    all_listed(g, tokens, pad);
    assert(g.tokens > 1);
    restores_chain(g, listing(g.unordered()), tokens, beam);
    chain_is_rearrangement(g, tokens, pad, ordered(g, beam));
}

/// A collection that can be walked without a choice, and is no longer than the
/// budget, is restored exactly.
pub proof fn exact_restoration(g: Ingested, tokens: Seq<Seq<u8>>, pad: Seq<u8>, beam: nat)
    requires
        ingest_of(g, tokens, pad),
        search::straight(g, listing(tokens.to_set()), tokens),
        tokens.len() <= WALK_BUDGET,
    ensures
        ordered(g, beam) == tokens,
{
    if tokens.len() <= 1 {
        restoration_law(g, tokens, pad, beam);
    } else {
        unordered_law(g, tokens, pad);
        vstd::seq_lib::seq_to_set_is_finite(tokens);
        listing_exists(tokens.to_set());
        let all = listing(tokens.to_set());
        let empty = Seq::<Seq<u8>>::empty();
        assert(tokens.to_set().contains(tokens[0]));
        assert(all.to_set().contains(tokens[0]));
        assert(all.contains(tokens[0]));
        assert(tokens.take(0) =~= empty);
        assert(search::candidates(g, all, tokens.take(0)) == seq![tokens[0]]);
        assert(empty.push(tokens[0]) =~= tokens.take(1));
        search::straight_walk(g, all, tokens, 1, WALK_BUDGET as nat);
        if beam > 1 {
            search::straight_beam(g, all, tokens, beam);
        }
    }
}

/// Whether the three sketches that order a collection hold all its neighbours: with
/// one pad before it and one behind it, every window of two, three and four.
pub open spec fn neighbours_marked(g: Ingested, q: Seq<Seq<u8>>) -> bool {
    let p = seq![g.pad@] + q + seq![g.pad@];
    &&& forall|i: int|
        0 <= i && i + 2 <= p.len() ==> g.sketches@[1]@.contains(hashing::token_bit(gram(#[trigger] p.subrange(i, i + 2)), 1))
    &&& forall|i: int|
        0 <= i && i + 3 <= p.len() ==> g.sketches@[2]@.contains(hashing::token_bit(gram(#[trigger] p.subrange(i, i + 3)), 2))
    &&& forall|i: int|
        0 <= i && i + 4 <= p.len() ==> g.g4@.contains(hashing::token_bit(gram(#[trigger] p.subrange(i, i + 4)), 3))
}

/// What a token may stand behind, in terms of the windows that end in it.
proof fn step_windows(g: Ingested, q: Seq<Seq<u8>>, k: int)
    requires
        0 <= k <= q.len(),
    ensures
        ({
            let p = seq![g.pad@] + q + seq![g.pad@];
            successor(g, q.take(k), p[k + 1]) <==> {
                &&& g.sketches@[1]@.contains(hashing::token_bit(gram(p.subrange(k, k + 2)), 1))
                &&& k >= 1 ==> g.sketches@[2]@.contains(hashing::token_bit(gram(p.subrange(k - 1, k + 2)), 2))
                &&& k >= 2 ==> g.g4@.contains(hashing::token_bit(gram(p.subrange(k - 2, k + 2)), 3))
            }
        }),
{
    let p = seq![g.pad@] + q + seq![g.pad@];
    let path = q.take(k);
    let t = p[k + 1];
    let cur = looking_back(path, g.pad@, 1);
    let prev = looking_back(path, g.pad@, 2);
    let before = looking_back(path, g.pad@, 3);
    assert(p.subrange(k, k + 2) =~= seq![cur, t]);
    if k >= 1 {
        assert(p.subrange(k - 1, k + 2) =~= seq![prev, cur, t]);
    }
    if k >= 2 {
        assert(p.subrange(k - 2, k + 2) =~= seq![before, prev, cur, t]);
    }
}

/// The windows that end behind one place, where all neighbours are marked.
proof fn windows_at(g: Ingested, q: Seq<Seq<u8>>, k: int)
    requires
        neighbours_marked(g, q),
        0 <= k <= q.len(),
    ensures
        ({
            let p = seq![g.pad@] + q + seq![g.pad@];
            &&& g.sketches@[1]@.contains(hashing::token_bit(gram(p.subrange(k, k + 2)), 1))
            &&& k >= 1 ==> g.sketches@[2]@.contains(hashing::token_bit(gram(p.subrange(k - 1, k + 2)), 2))
            &&& k >= 2 ==> g.g4@.contains(hashing::token_bit(gram(p.subrange(k - 2, k + 2)), 3))
        }),
{
    let p = seq![g.pad@] + q + seq![g.pad@];
    assert(p.len() == q.len() + 2);
    if k >= 1 {
        let i = k - 1;
        assert(i + 3 == k + 2);
        assert(p.subrange(i, i + 3) == p.subrange(k - 1, k + 2));
    }
    if k >= 2 {
        let i = k - 2;
        assert(i + 4 == k + 2);
        assert(p.subrange(i, i + 4) == p.subrange(k - 2, k + 2));
    }
}

/// Where each token may stand behind those before it, and the pad behind them all, the
/// neighbours are marked.
#[verifier::spinoff_prover]
#[verifier::rlimit(40)]
proof fn steps_marked(g: Ingested, q: Seq<Seq<u8>>)
    requires
        forall|k: int| 0 <= k < q.len() ==> successor(g, q.take(k), #[trigger] q[k]),
        successor(g, q, g.pad@),
    ensures
        neighbours_marked(g, q),
{
    let p = seq![g.pad@] + q + seq![g.pad@];
    assert forall|i: int| 0 <= i && i + 2 <= p.len() implies g.sketches@[1]@.contains(
        hashing::token_bit(gram(#[trigger] p.subrange(i, i + 2)), 1),
    ) by {
        step_at(g, q, i);
        step_windows(g, q, i);
    }
    assert forall|i: int| 0 <= i && i + 3 <= p.len() implies g.sketches@[2]@.contains(
        hashing::token_bit(gram(#[trigger] p.subrange(i, i + 3)), 2),
    ) by {
        step_at(g, q, i + 1);
        step_windows(g, q, i + 1);
    }
    assert forall|i: int| 0 <= i && i + 4 <= p.len() implies g.g4@.contains(
        hashing::token_bit(gram(#[trigger] p.subrange(i, i + 4)), 3),
    ) by {
        step_at(g, q, i + 2);
        step_windows(g, q, i + 2);
    }
}

proof fn step_at(g: Ingested, q: Seq<Seq<u8>>, k: int)
    requires
        forall|k: int| 0 <= k < q.len() ==> successor(g, q.take(k), #[trigger] q[k]),
        successor(g, q, g.pad@),
        0 <= k <= q.len(),
    ensures
        successor(g, q.take(k), (seq![g.pad@] + q + seq![g.pad@])[k + 1]),
{
    let p = seq![g.pad@] + q + seq![g.pad@];
    if k < q.len() {
        assert(p[k + 1] == q[k]);
    } else {
        assert(q.take(k) =~= q);
        assert(p[k + 1] == g.pad@);
    }
}

/// A full chain is a list of as many tokens as were ingested, none more often than
/// it was counted, all of whose windows of two, three and four neighbours are marked
/// in the channels of their length; and every such list is a full chain.
pub proof fn chain_law(g: Ingested, q: Seq<Seq<u8>>)
    ensures
        search::full_chain(g, q) <==> {
            &&& q.len() == g.tokens
            &&& forall|t: Seq<u8>| q.contains(t) ==> #[trigger] tf::occurrences(q, t) <= g.tf.tally(t)
            &&& neighbours_marked(g, q)
        },
{
    let n = q.len() as int;
    if search::full_chain(g, q) {
        assert forall|t: Seq<u8>| q.contains(t) implies #[trigger] tf::occurrences(q, t) <= g.tf.tally(t) by {
            assert(g.weight(t) == g.tf.tally(t));
        }
        assert forall|k: int| 0 <= k < q.len() implies successor(g, q.take(k), #[trigger] q[k]) by {
            assert(g.extends(q.take(k), q[k]));
        }
        steps_marked(g, q);
    }
    if q.len() == g.tokens && (forall|t: Seq<u8>| q.contains(t) ==> #[trigger] tf::occurrences(q, t) <= g.tf.tally(t))
        && neighbours_marked(g, q) {
        assert forall|k: int| 0 <= k < q.len() implies g.extends(q.take(k), #[trigger] q[k]) by {
            windows_at(g, q, k);
            step_windows(g, q, k);
            assert((seq![g.pad@] + q + seq![g.pad@])[k + 1] == q[k]);
        }
        windows_at(g, q, n);
        step_windows(g, q, n);
        assert(q.take(n) =~= q);
        assert((seq![g.pad@] + q + seq![g.pad@])[n + 1] == g.pad@);
        assert(g.closes(q));
    }
}

/// What is restored of two or more tokens, other than their plain list, has as many
/// tokens as were ingested, none more often than it was counted, and only marked
/// windows of neighbours. Every other such list over the tokens parts from a list
/// that was walked to at a token that is tried later.
pub proof fn restored_neighbours(g: Ingested, beam: nat)
    requires
        g.tokens >= 2,
        ordered(g, beam) != listing(g.unordered()),
    ensures
        ordered(g, beam).len() == g.tokens,
        neighbours_marked(g, ordered(g, beam)),
        forall|t: Seq<u8>|
            ordered(g, beam).contains(t) ==> #[trigger] tf::occurrences(ordered(g, beam), t) <= g.tf.tally(t),
        beam <= 1 ==> forall|q: Seq<Seq<u8>>|
            q.len() == g.tokens && (forall|t: Seq<u8>| q.contains(t) ==> #[trigger] tf::occurrences(q, t) <= g.tf.tally(t))
                && #[trigger] neighbours_marked(g, q) && (forall|t: Seq<u8>| #[trigger]
                q.contains(t) ==> listing(g.unordered()).contains(t)) ==> search::no_later(g, ordered(g, beam), q),
{
    let all = listing(g.unordered());
    let empty = Seq::<Seq<u8>>::empty();
    let starts = search::candidates(g, all, empty);
    search::candidates_fit(g, all, empty);
    search::beam_result_sound(g, all, beam);
    search::explore_each_sound(g, all, empty, starts, WALK_BUDGET as nat);
    if all.len() == 0 {
        assert(all =~= empty);
    }
    let r = ordered(g, beam);
    assert(search::full_chain(g, r));
    chain_law(g, r);
    if beam <= 1 {
        assert forall|q: Seq<Seq<u8>>|
            q.len() == g.tokens && (forall|t: Seq<u8>| q.contains(t) ==> #[trigger] tf::occurrences(q, t) <= g.tf.tally(t))
                && #[trigger] neighbours_marked(g, q) && (forall|t: Seq<u8>| #[trigger]
                q.contains(t) ==> all.contains(t)) implies search::no_later(g, r, q) by {
            chain_law(g, q);
            search::walk_is_first(g, all, q, WALK_BUDGET as nat);
        }
    }
}

/// Grams of two, three and four parts, written out.
pub proof fn gram_law(a: Seq<u8>, b: Seq<u8>, c: Seq<u8>, d: Seq<u8>)
    ensures
        gram(seq![a]) == a,
        gram(seq![a, b]) == a + seq![0u8] + b,
        gram(seq![a, b, c]) == a + seq![0u8] + b + seq![0u8] + c,
        gram(seq![a, b, c, d]) == a + seq![0u8] + b + seq![0u8] + c + seq![0u8] + d,
{
    reveal_with_fuel(gram, 5);
    assert(seq![a, b].drop_last() =~= seq![a]);
    assert(seq![a, b, c].drop_last() =~= seq![a, b]);
    assert(seq![a, b, c, d].drop_last() =~= seq![a, b, c]);
}

/// What an ingestion marks: in the channel of length `n` the bit, under seed `n - 1`,
/// of every window of `n` tokens between one pad before the collection and two behind
/// it, and no other; each such bit points at the real token that starts the window.
pub proof fn ingestion_law(g: Ingested, tokens: Seq<Seq<u8>>, pad: Seq<u8>, n: int)
    requires
        ingest_of(g, tokens, pad),
        tokens.len() > 0,
        1 <= n <= 3,
    ensures
        ({
            let p = seq![pad] + tokens + seq![pad, pad];
            let seed = (n - 1) as u64;
            &&& forall|i: int|
                0 <= i && i + n <= p.len() ==> g.sketches@[n - 1]@.contains(
                    hashing::token_bit(gram(#[trigger] p.subrange(i, i + n)), seed),
                )
            &&& forall|b: u32| #[trigger]
                g.sketches@[n - 1]@.contains(b) ==> exists|i: int|
                    0 <= i && i + n <= p.len() && b == hashing::token_bit(gram(#[trigger] p.subrange(i, i + n)), seed)
            &&& forall|i: int|
                0 <= i < tokens.len() ==> g.luts@[n - 1]@.contains(
                    (hashing::token_bit(gram(#[trigger] p.subrange(i + 1, i + 1 + n)), seed), tokens[i]),
                )
            &&& forall|i: int|
                0 <= i && i + 4 <= p.len() ==> g.g4@.contains(hashing::token_bit(gram(#[trigger] p.subrange(i, i + 4)), 3))
            &&& forall|b: u32| #[trigger]
                g.g4@.contains(b) ==> exists|i: int|
                    0 <= i && i + 4 <= p.len() && b == hashing::token_bit(gram(#[trigger] p.subrange(i, i + 4)), 3)
            &&& forall|b: u32| #[trigger]
                g.projection@.contains(b) <==> g.sketches@[0]@.contains(b) || g.sketches@[1]@.contains(b)
                    || g.sketches@[2]@.contains(b)
        }),
{
    let p = seq![pad] + tokens + seq![pad, pad];
    let seed = (n - 1) as u64;
    assert(padded(tokens, pad) == p);
    assert(g.sketches@[n - 1]@ == window_bits(p, n, seed));
    assert(g.luts@[n - 1]@ == window_rows(p, n, seed, tokens.len() as int));
    assert forall|i: int| 0 <= i && i + n <= p.len() implies g.sketches@[n - 1]@.contains(
        hashing::token_bit(gram(#[trigger] p.subrange(i, i + n)), seed),
    ) by {
        assert(window(p, i, n) == gram(p.subrange(i, i + n)));
    }
    assert forall|b: u32| #[trigger] g.sketches@[n - 1]@.contains(b) implies exists|i: int|
        0 <= i && i + n <= p.len() && b == hashing::token_bit(gram(#[trigger] p.subrange(i, i + n)), seed) by {
        let i = choose|i: int| 0 <= i && i + n <= p.len() && hashing::token_bit(#[trigger] window(p, i, n), seed) == b;
        assert(b == hashing::token_bit(gram(p.subrange(i, i + n)), seed));
    }
    assert forall|i: int| 0 <= i < tokens.len() implies g.luts@[n - 1]@.contains(
        (hashing::token_bit(gram(#[trigger] p.subrange(i + 1, i + 1 + n)), seed), tokens[i]),
    ) by {
        assert(window(p, i + 1, n) == gram(p.subrange(i + 1, i + 1 + n)));
        assert(p[i + 1] == tokens[i]);
    }
    assert forall|i: int| 0 <= i && i + 4 <= p.len() implies g.g4@.contains(
        hashing::token_bit(gram(#[trigger] p.subrange(i, i + 4)), 3),
    ) by {
        assert(window(p, i, 4) == gram(p.subrange(i, i + 4)));
    }
    assert forall|b: u32| #[trigger] g.g4@.contains(b) implies exists|i: int|
        0 <= i && i + 4 <= p.len() && b == hashing::token_bit(gram(#[trigger] p.subrange(i, i + 4)), 3) by {
        let i = choose|i: int| 0 <= i && i + 4 <= p.len() && hashing::token_bit(#[trigger] window(p, i, 4), 3) == b;
        assert(b == hashing::token_bit(gram(p.subrange(i, i + 4)), 3));
    }
}

/// What is restored of several tokens: what a beam wider than one ends with, else the
/// first full chain that the walk comes to, else the tokens in byte order.
pub proof fn ordered_law(g: Ingested, beam: nat)
    requires
        g.unordered().finite(),
        g.tokens > 1,
    ensures
        g.unordered() == Set::<Seq<u8>>::empty() ==> ordered(g, beam).len() == 0,
        beam <= 1 ==> ordered(g, beam) == ordered(g, 1),
        beam > 1 && search::beam_result(g, listing(g.unordered()), beam) is None ==> ordered(g, beam) == ordered(g, 1),
        beam > 1 && g.unordered().len() > 0 ==> (search::beam_result(g, listing(g.unordered()), beam) matches Some(q) ==> ordered(g, beam)
            == q),
        ordered(g, 1) == listing(g.unordered()) || search::full_chain(g, ordered(g, 1)),
{
    listing_exists(g.unordered());
    let all = listing(g.unordered());
    let starts = search::candidates(g, all, Seq::empty());
    if g.unordered().len() > 0 {
        let t = g.unordered().choose();
        assert(all.to_set().contains(t));
        assert(all.len() > 0);
    }
    if g.unordered() == Set::<Seq<u8>>::empty() {
        if all.len() > 0 {
            assert(all.to_set().contains(all[0]));
        }
    }
    search::candidates_fit(g, all, Seq::empty());
    search::explore_each_sound(g, all, Seq::empty(), starts, WALK_BUDGET as nat);
}

} // verus!
