//! Reverse lookup: token sets and the fibers of tokens over bits.

use vstd::prelude::*;

use crate::hashing::BitAddress;
use crate::hllset::HLLSet;
use crate::order::Keyed;
use crate::order::Side;
use crate::sorted::Key;
use crate::sorted::SortedMap;
use crate::hashing;
use crate::hllset;
use crate::order;
use crate::sorted;

verus! {

/// A set of tokens, kept in byte order.
#[derive(Clone, Debug, PartialEq, Eq)]
pub struct TokenSet {
    pub map: SortedMap<Vec<u8>, ()>,
}

impl View for TokenSet {
    type V = Set<Seq<u8>>;

    open spec fn view(&self) -> Set<Seq<u8>> {
        self.map@.dom()
    }
}

/// Tokens in strictly ascending byte order.
pub open spec fn ascending_tokens(s: Seq<Seq<u8>>) -> bool {
    forall|i: int, j: int| 0 <= i < j < s.len() ==> order::bytes_less(#[trigger] s[i], #[trigger] s[j])
}

/// Two ascending lists of the same tokens are the same list.
pub proof fn ascending_tokens_unique(a: Seq<Seq<u8>>, b: Seq<Seq<u8>>)
    requires
        ascending_tokens(a),
        ascending_tokens(b),
        a.to_set() == b.to_set(),
    ensures
        a == b,
    decreases a.len(),
{
    if a.len() == 0 {
        if b.len() > 0 {
            assert(b.to_set().contains(b[0]));
            assert(a.contains(b[0]));
        }
        assert(a =~= b);
    } else {
        assert(a.to_set().contains(a.last()));
        assert(b.contains(a.last()));
        let n = a.len() - 1;
        let m = b.len() - 1;
        assert(b.to_set().contains(b.last()));
        assert(a.contains(b.last()));
        let i = choose|i: int| 0 <= i < b.len() && b[i] == a.last();
        let j = choose|j: int| 0 <= j < a.len() && a[j] == b.last();
        if i < m {
            assert(order::bytes_less(b[i], b[m]));
            if j < n {
                assert(order::bytes_less(a[j], a[n]));
                order::bytes_transitive(a[j], a[n], a[j]);
                order::bytes_irreflexive(a[j]);
            } else {
                order::bytes_irreflexive(b[m]);
            }
        }
        assert(a.last() == b.last());
        let x = a.drop_last();
        let y = b.drop_last();
        assert forall|t: Seq<u8>| x.to_set().contains(t) == y.to_set().contains(t) by {
            if x.contains(t) {
                let k = choose|k: int| 0 <= k < x.len() && x[k] == t;
                assert(order::bytes_less(a[k], a[n]));
                assert(a.to_set().contains(a[k]));
                assert(b.contains(t));
                let q = choose|q: int| 0 <= q < b.len() && b[q] == t;
                if q == m {
                    order::bytes_irreflexive(t);
                }
                assert(y[q] == t);
            }
            if y.contains(t) {
                let k = choose|k: int| 0 <= k < y.len() && y[k] == t;
                assert(order::bytes_less(b[k], b[m]));
                assert(b.to_set().contains(b[k]));
                assert(a.contains(t));
                let q = choose|q: int| 0 <= q < a.len() && a[q] == t;
                if q == n {
                    order::bytes_irreflexive(t);
                }
                assert(x[q] == t);
            }
        }
        assert(x.to_set() =~= y.to_set());
        ascending_tokens_unique(x, y);
        assert(a =~= x.push(a.last()));
        assert(b =~= y.push(b.last()));
    }
}

impl TokenSet {
    pub open spec fn wf(&self) -> bool {
        self.map.wf()
    }

    /// The tokens in byte order.
    pub open spec fn list(&self) -> Seq<Seq<u8>> {
        self.map.keys()
    }

    /// The list ascends and holds exactly the members.
    pub proof fn list_facts(&self)
        requires
            self.wf(),
        ensures
            ascending_tokens(self.list()),
            self.list().to_set() == self@,
            self.list().len() == self.map.entries@.len(),
    {
        let l = self.list();
        let e = self.map.entries@;
        assert forall|i: int, j: int| 0 <= i < j < l.len() implies order::bytes_less(#[trigger] l[i], #[trigger] l[j]) by {
            assert(l[i] == e[i].0.key());
            assert(l[j] == e[j].0.key());
        }
        assert forall|t: Seq<u8>| l.to_set().contains(t) == self@.contains(t) by {
            if l.contains(t) {
                let i = choose|i: int| 0 <= i < l.len() && l[i] == t;
                assert(e[i].0.key() == t);
            }
            if self@.contains(t) {
                let i = sorted::slot(e, t);
                assert(l[i] == t);
            }
        }
        assert(l.to_set() =~= self@);
    }

    /// The empty set.
    pub fn new() -> (s: TokenSet)
        ensures
            s.wf(),
            s@ == Set::<Seq<u8>>::empty(),
    {
        let s = TokenSet { map: SortedMap::new() };
        proof {
            assert(s@ =~= Set::<Seq<u8>>::empty());
        }
        s
    }

    /// Puts a token in.
    pub fn insert(&mut self, token: Vec<u8>)
        requires
            old(self).wf(),
        ensures
            final(self).wf(),
            final(self)@ == old(self)@.insert(token@),
    {
        let ghost before = self@;
        self.map.insert(token, ());
        proof {
            assert(self@ =~= before.insert(token@));
        }
    }

    /// Whether a token is a member.
    pub fn contains(&self, token: &[u8]) -> (yes: bool)
        requires
            self.wf(),
        ensures
            yes == self@.contains(token@),
    {
        self.map.contains(token)
    }

    pub fn len(&self) -> (n: usize)
        requires
            self.wf(),
        ensures
            n == self.list().len(),
    {
        self.map.len()
    }

    pub fn is_empty(&self) -> (yes: bool)
        requires
            self.wf(),
        ensures
            yes == (self.list().len() == 0),
            yes == (self@ == Set::<Seq<u8>>::empty()),
    {
        proof {
            self.list_facts();
            if self.list().len() > 0 {
                assert(self.list().to_set().contains(self.list()[0]));
            } else {
                assert(self@ =~= Set::<Seq<u8>>::empty());
            }
        }
        self.map.len() == 0
    }

    /// The tokens in byte order.
    pub fn to_vec(&self) -> (out: Vec<Vec<u8>>)
        requires
            self.wf(),
        ensures
            hllset::token_views(out@) == self.list(),
    {
        let mut out: Vec<Vec<u8>> = Vec::new();
        let mut i: usize = 0;
        while i < self.map.entries.len()
            invariant
                i <= self.map.entries.len(),
                out@.len() == i,
                forall|j: int| 0 <= j < i ==> (#[trigger] out@[j])@ == self.list()[j],
            decreases self.map.entries.len() - i,
        {
            out.push(copy_bytes(self.map.entries[i].0.as_slice()));
            i = i + 1;
        }
        proof {
            assert(hllset::token_views(out@) =~= self.list());
        }
        out
    }
}

/// Copies a byte string.
pub fn copy_bytes(bytes: &[u8]) -> (copy: Vec<u8>)
    ensures
        copy@ == bytes@,
{
    vstd::slice::slice_to_vec(bytes)
}

/// Copies a list of tokens.
pub fn copy_tokens(tokens: &Vec<Vec<u8>>) -> (copy: Vec<Vec<u8>>)
    ensures
        hllset::token_views(copy@) == hllset::token_views(tokens@),
{
    let mut copy: Vec<Vec<u8>> = Vec::new();
    let mut i: usize = 0;
    while i < tokens.len()
        invariant
            i <= tokens.len(),
            copy@.len() == i,
            forall|j: int| 0 <= j < i ==> (#[trigger] copy@[j])@ == tokens@[j]@,
        decreases tokens.len() - i,
    {
        copy.push(copy_bytes(tokens[i].as_slice()));
        i = i + 1;
    }
    proof {
        assert(hllset::token_views(copy@) =~= hllset::token_views(tokens@));
    }
    copy
}

/// A row of a lookup table: a bit and a token that falls on it.
#[derive(Clone, Debug, PartialEq, Eq)]
pub struct LutRow {
    pub bit: u32,
    pub token: Vec<u8>,
}

impl Keyed for LutRow {
    open spec fn rank(&self) -> Seq<Seq<int>> {
        seq![seq![self.bit as int], order::ints(self.token@)]
    }

    fn before(&self, other: &Self) -> (first: bool) {
        let side = order::compare_bytes(self.token.as_slice(), other.token.as_slice());
        proof {
            row_order(self.bit as int, order::ints(self.token@), other.bit as int, order::ints(other.token@));
            if order::ints(self.token@) == order::ints(other.token@) {
                order::ints_injective(self.token@, other.token@);
            }
        }
        if self.bit != other.bit {
            self.bit < other.bit
        } else {
            match side {
                Side::Less => true,
                _ => false,
            }
        }
    }
}

/// The order of keys of a number and a list.
pub proof fn row_order(a: int, x: Seq<int>, b: int, y: Seq<int>)
    ensures
        order::key_less(seq![seq![a], x], seq![seq![b], y]) == (a < b || (a == b && x != y && order::lex_less(x, y))),
        order::lex_less(x, y) ==> x != y,
{
    let k = seq![seq![a], x];
    let l = seq![seq![b], y];
    if order::lex_less(x, y) && x == y {
        order::lex_irreflexive(x);
    }
    reveal_with_fuel(order::key_less, 4);
    reveal_with_fuel(order::lex_less, 3);
    assert(k.drop_first() =~= seq![x]);
    assert(l.drop_first() =~= seq![y]);
    assert(seq![x].drop_first() =~= Seq::<Seq<int>>::empty());
    assert(seq![y].drop_first() =~= Seq::<Seq<int>>::empty());
    assert((seq![a] == seq![b]) == (a == b)) by {
        if seq![a] == seq![b] {
            assert(seq![a][0] == seq![b][0]);
        }
    }
    assert(seq![a].drop_first() =~= Seq::<int>::empty());
}

/// The tokens behind bits: a set of pairs of a bit and a token.
#[derive(Clone, Debug, PartialEq, Eq)]
pub struct LutIndex {
    pub entries: Vec<LutRow>,
}

impl View for LutIndex {
    type V = Set<(u32, Seq<u8>)>;

    open spec fn view(&self) -> Set<(u32, Seq<u8>)> {
        Set::new(|p: (u32, Seq<u8>)| row_at(self.entries@, p.0, p.1))
    }
}

/// Whether some row pairs the bit with the token.
pub open spec fn row_at(rows: Seq<LutRow>, bit: u32, token: Seq<u8>) -> bool {
    exists|i: int| 0 <= i < rows.len() && (#[trigger] rows[i]).bit == bit && rows[i].token@ == token
}

/// The rows a list pairs are those another list pairs.
pub open spec fn same_rows(a: Seq<LutRow>, b: Seq<LutRow>) -> bool {
    forall|bit: u32, token: Seq<u8>| #[trigger] row_at(a, bit, token) == row_at(b, bit, token)
}

impl LutIndex {
    /// The empty index.
    pub fn new() -> (l: LutIndex)
        ensures
            l@ == Set::<(u32, Seq<u8>)>::empty(),
    {
        let l = LutIndex { entries: Vec::new() };
        proof {
            assert(l@ =~= Set::<(u32, Seq<u8>)>::empty());
        }
        l
    }

    /// Whether the index pairs the bit with the token.
    pub fn pairs(&self, bit: u32, token: &[u8]) -> (yes: bool)
        ensures
            yes == self@.contains((bit, token@)),
    {
        let mut i: usize = 0;
        while i < self.entries.len()
            invariant
                i <= self.entries.len(),
                forall|j: int| 0 <= j < i ==> !((#[trigger] self.entries@[j]).bit == bit && self.entries@[j].token@ == token@),
            decreases self.entries.len() - i,
        {
            if self.entries[i].bit == bit && order::bytes_equal(self.entries[i].token.as_slice(), token) {
                return true;
            }
            i = i + 1;
        }
        false
    }

    /// Pairs a token with a bit.
    pub fn insert_token_at(&mut self, token: Vec<u8>, bit: u32)
        ensures
            final(self)@ == old(self)@.insert((bit, token@)),
    {
        let ghost before = *self;
        if !self.pairs(bit, token.as_slice()) {
            self.entries.push(LutRow { bit, token });
            proof {
                let e = self.entries@;
                let o = before.entries@;
                assert forall|p: (u32, Seq<u8>)| self@.contains(p) == before@.insert((bit, token@)).contains(p) by {
                    if row_at(e, p.0, p.1) {
                        let i = choose|i: int| 0 <= i < e.len() && (#[trigger] e[i]).bit == p.0 && e[i].token@ == p.1;
                        if i < o.len() {
                            assert(o[i] == e[i]);
                        }
                    }
                    if row_at(o, p.0, p.1) {
                        let i = choose|i: int| 0 <= i < o.len() && (#[trigger] o[i]).bit == p.0 && o[i].token@ == p.1;
                        assert(e[i] == o[i]);
                    }
                    assert(e[o.len() as int].bit == bit);
                }
            }
        }
        proof {
            assert(self@ =~= before@.insert((bit, token@)));
        }
    }

    /// Pairs a token with its own bit under a seed.
    pub fn insert_token_seeded(&mut self, token: Vec<u8>, seed: u64)
        ensures
            final(self)@ == old(self)@.insert((hashing::token_bit(token@, seed), token@)),
    {
        let a = BitAddress::of_token_seeded(token.as_slice(), seed);
        self.insert_token_at(token, a.bit());
    }

    /// Pairs a token with its own bit.
    pub fn insert_token(&mut self, token: Vec<u8>)
        ensures
            final(self)@ == old(self)@.insert((hashing::token_bit(token@, 0), token@)),
    {
        self.insert_token_seeded(token, 0);
    }

    /// The tokens paired with a bit.
    pub fn fiber(&self, bit: u32) -> (tokens: TokenSet)
        ensures
            tokens.wf(),
            tokens@ == Set::new(|t: Seq<u8>| self@.contains((bit, t))),
    {
        let mut out = TokenSet::new();
        let mut i: usize = 0;
        while i < self.entries.len()
            invariant
                i <= self.entries.len(),
                out.wf(),
                forall|t: Seq<u8>| #[trigger] out@.contains(t) == row_at(self.entries@.take(i as int), bit, t),
            decreases self.entries.len() - i,
        {
            let ghost shorter = self.entries@.take(i as int);
            let ghost longer = self.entries@.take(i as int + 1);
            let ghost before = out@;
            if self.entries[i].bit == bit {
                out.insert(copy_bytes(self.entries[i].token.as_slice()));
            }
            proof {
                assert forall|t: Seq<u8>| #[trigger] out@.contains(t) == row_at(longer, bit, t) by {
                    row_at_push(self.entries@, i as int, bit, t);
                    assert(before.contains(t) == row_at(shorter, bit, t));
                }
            }
            i = i + 1;
        }
        proof {
            assert(self.entries@.take(i as int) =~= self.entries@);
            assert(out@ =~= Set::new(|t: Seq<u8>| self@.contains((bit, t))));
        }
        out
    }

    /// The rows, by bit and then by token.
    pub fn rows(&self) -> (rows: Vec<LutRow>)
        ensures
            order::in_order(rows@),
            rows@.len() == self.entries@.len(),
            same_rows(rows@, self.entries@),
    {
        let copy = copy_rows(&self.entries);
        let sorted = order::sort_items(copy);
        proof {
            same_rows_of_multiset(sorted@, copy@);
        }
        sorted
    }
}

/// Copies rows.
pub fn copy_rows(rows: &Vec<LutRow>) -> (copy: Vec<LutRow>)
    ensures
        copy@.len() == rows@.len(),
        same_rows(copy@, rows@),
        forall|j: int| 0 <= j < rows@.len() ==> (#[trigger] copy@[j]).bit == rows@[j].bit && copy@[j].token@ == rows@[j].token@,
{
    let mut copy: Vec<LutRow> = Vec::new();
    let mut i: usize = 0;
    while i < rows.len()
        invariant
            i <= rows.len(),
            copy@.len() == i,
            forall|j: int| 0 <= j < i ==> (#[trigger] copy@[j]).bit == rows@[j].bit && copy@[j].token@ == rows@[j].token@,
        decreases rows.len() - i,
    {
        copy.push(LutRow { bit: rows[i].bit, token: copy_bytes(rows[i].token.as_slice()) });
        i = i + 1;
    }
    proof {
        assert forall|bit: u32, token: Seq<u8>| #[trigger] row_at(copy@, bit, token) == row_at(rows@, bit, token) by {
            if row_at(copy@, bit, token) {
                let i = choose|i: int| 0 <= i < copy@.len() && (#[trigger] copy@[i]).bit == bit && copy@[i].token@ == token;
                assert(rows@[i].bit == bit);
            }
            if row_at(rows@, bit, token) {
                let i = choose|i: int| 0 <= i < rows@.len() && (#[trigger] rows@[i]).bit == bit && rows@[i].token@ == token;
                assert(copy@[i].bit == bit);
            }
        }
    }
    copy
}

/// Rearranging rows keeps what they pair.
pub proof fn same_rows_of_multiset(a: Seq<LutRow>, b: Seq<LutRow>)
    requires
        a.to_multiset() == b.to_multiset(),
    ensures
        same_rows(a, b),
{
    broadcast use vstd::seq_lib::group_to_multiset_ensures;
    assert forall|bit: u32, token: Seq<u8>| #[trigger] row_at(a, bit, token) == row_at(b, bit, token) by {
        if row_at(a, bit, token) {
            let i = choose|i: int| 0 <= i < a.len() && (#[trigger] a[i]).bit == bit && a[i].token@ == token;
            assert(a.contains(a[i]));
            assert(a.to_multiset().count(a[i]) > 0);
            assert(b.contains(a[i]));
            let j = choose|j: int| 0 <= j < b.len() && b[j] == a[i];
            assert(b[j].bit == bit);
        }
        if row_at(b, bit, token) {
            let i = choose|i: int| 0 <= i < b.len() && (#[trigger] b[i]).bit == bit && b[i].token@ == token;
            assert(b.contains(b[i]));
            assert(b.to_multiset().count(b[i]) > 0);
            assert(a.contains(b[i]));
            let j = choose|j: int| 0 <= j < a.len() && a[j] == b[i];
            assert(a[j].bit == bit);
        }
    }
}

/// One more row pairs one more bit and token.
pub proof fn row_at_push(rows: Seq<LutRow>, i: int, bit: u32, t: Seq<u8>)
    requires
        0 <= i < rows.len(),
    ensures
        row_at(rows.take(i + 1), bit, t) == (row_at(rows.take(i), bit, t) || (rows[i].bit == bit && rows[i].token@ == t)),
{
    let a = rows.take(i);
    let b = rows.take(i + 1);
    if row_at(b, bit, t) {
        let k = choose|k: int| 0 <= k < b.len() && (#[trigger] b[k]).bit == bit && b[k].token@ == t;
        if k < i {
            assert(a[k] == b[k]);
        }
    }
    if row_at(a, bit, t) {
        let k = choose|k: int| 0 <= k < a.len() && (#[trigger] a[k]).bit == bit && a[k].token@ == t;
        assert(b[k] == a[k]);
    }
    assert(b[i] == rows[i]);
}

/// The tokens that a sketch selects from an index: those paired with a member.
pub open spec fn selected(sketch: Set<u32>, lut: Set<(u32, Seq<u8>)>) -> Set<Seq<u8>> {
    Set::new(|t: Seq<u8>| exists|b: u32| #[trigger] sketch.contains(b) && lut.contains((b, t)))
}

/// The tokens that pairs of a sketch and an index select.
pub open spec fn selected_all(pairs: Seq<(Set<u32>, Set<(u32, Seq<u8>)>)>) -> Set<Seq<u8>> {
    Set::new(|t: Seq<u8>| exists|i: int| 0 <= i < pairs.len() && selected((#[trigger] pairs[i]).0, pairs[i].1).contains(t))
}

/// Adds to a token set what a sketch selects from an index.
pub fn select_into(out: &mut TokenSet, sketch: &HLLSet, lut: &LutIndex)
    requires
        old(out).wf(),
    ensures
        final(out).wf(),
        final(out)@ == old(out)@.union(selected(sketch@, lut@)),
{
    let ghost start = out@;
    let mut i: usize = 0;
    while i < lut.entries.len()
        invariant
            i <= lut.entries.len(),
            out.wf(),
            forall|t: Seq<u8>|
                #[trigger] out@.contains(t) == (start.contains(t) || exists|k: int|
                    0 <= k < i && sketch@.contains((#[trigger] lut.entries@[k]).bit) && lut.entries@[k].token@ == t),
        decreases lut.entries.len() - i,
    {
        let ghost before = out@;
        if sketch.contains(lut.entries[i].bit) {
            out.insert(copy_bytes(lut.entries[i].token.as_slice()));
        }
        proof {
            assert forall|t: Seq<u8>| #[trigger] out@.contains(t) == (start.contains(t) || exists|k: int|
                0 <= k < i + 1 && sketch@.contains((#[trigger] lut.entries@[k]).bit) && lut.entries@[k].token@ == t) by {
                assert(before.contains(t) == (start.contains(t) || exists|k: int|
                    0 <= k < i && sketch@.contains((#[trigger] lut.entries@[k]).bit) && lut.entries@[k].token@ == t));
                assert(lut.entries@[i as int].bit == lut.entries@[i as int].bit);
            }
        }
        i = i + 1;
    }
    proof {
        assert forall|t: Seq<u8>| out@.contains(t) == start.union(selected(sketch@, lut@)).contains(t) by {
            if exists|k: int| 0 <= k < i && sketch@.contains((#[trigger] lut.entries@[k]).bit) && lut.entries@[k].token@ == t {
                let k = choose|k: int|
                    0 <= k < i && sketch@.contains((#[trigger] lut.entries@[k]).bit) && lut.entries@[k].token@ == t;
                assert(row_at(lut.entries@, lut.entries@[k].bit, t));
                assert(lut@.contains((lut.entries@[k].bit, t)));
            }
            if selected(sketch@, lut@).contains(t) {
                let b = choose|b: u32| #[trigger] sketch@.contains(b) && lut@.contains((b, t));
                let k = choose|k: int| 0 <= k < lut.entries@.len() && (#[trigger] lut.entries@[k]).bit == b && lut.entries@[k].token@ == t;
                assert(sketch@.contains(lut.entries@[k].bit));
            }
        }
        assert(out@ =~= start.union(selected(sketch@, lut@)));
    }
}

/// A token is selected exactly where a bit of the sketch points at it.
pub proof fn selection_law(sketch: Set<u32>, lut: Set<(u32, Seq<u8>)>, b: u32, t: Seq<u8>)
    ensures
        sketch.contains(b) && lut.contains((b, t)) ==> selected(sketch, lut).contains(t),
        selected(sketch, lut).contains(t) ==> exists|c: u32| #[trigger] sketch.contains(c) && lut.contains((c, t)),
        selected(Set::empty(), lut) == Set::<Seq<u8>>::empty(),
        selected(sketch, Set::empty()) == Set::<Seq<u8>>::empty(),
{
    assert(selected(Set::empty(), lut) =~= Set::<Seq<u8>>::empty());
    assert(selected(sketch, Set::empty()) =~= Set::<Seq<u8>>::empty());
}

/// What several sketches select from their indexes is what any of them selects.
pub proof fn selections_law(pairs: Seq<(Set<u32>, Set<(u32, Seq<u8>)>)>, t: Seq<u8>)
    ensures
        selected_all(pairs).contains(t) <==> exists|i: int, b: u32|
            0 <= i < pairs.len() && pairs[i].0.contains(b) && #[trigger] pairs[i].1.contains((b, t)),
{
    if selected_all(pairs).contains(t) {
        let i = choose|i: int| 0 <= i < pairs.len() && selected((#[trigger] pairs[i]).0, pairs[i].1).contains(t);
        selection_law(pairs[i].0, pairs[i].1, 0, t);
        let b = choose|c: u32| #[trigger] pairs[i].0.contains(c) && pairs[i].1.contains((c, t));
        assert(pairs[i].1.contains((b, t)));
    }
    if exists|i: int, b: u32|
        0 <= i < pairs.len() && pairs[i].0.contains(b) && #[trigger] pairs[i].1.contains((b, t)) {
        let (i, b) = choose|i: int, b: u32|
            0 <= i < pairs.len() && pairs[i].0.contains(b) && #[trigger] pairs[i].1.contains((b, t));
        selection_law(pairs[i].0, pairs[i].1, b, t);
        assert(selected(pairs[i].0, pairs[i].1).contains(t));
    }
}

} // verus!
