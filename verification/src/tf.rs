//! Term frequencies: counts of tokens, and counts of bits.

use vstd::prelude::*;

use crate::hashing::PLANE;
use crate::hllset::HLLSet;
use crate::sorted::SortedMap;
use crate::hllset;
use crate::lut;

verus! {

/// What a table of counts says of a token: zero where it says nothing.
pub open spec fn count_in(m: Map<Seq<u8>, u64>, t: Seq<u8>) -> nat {
    if m.dom().contains(t) {
        m[t] as nat
    } else {
        0
    }
}

/// How often a token occurs in a list.
pub open spec fn occurrences(s: Seq<Seq<u8>>, t: Seq<u8>) -> nat
    decreases s.len(),
{
    if s.len() == 0 {
        0
    } else {
        occurrences(s.drop_last(), t) + (if s.last() == t { 1nat } else { 0 })
    }
}

/// A longer list has an item no less often.
pub proof fn occurrences_grow(s: Seq<Seq<u8>>, n: int, k: Seq<u8>)
    requires
        0 <= n <= s.len(),
    ensures
        occurrences(s.take(n), k) <= occurrences(s, k),
    decreases s.len() - n,
{
    if n == s.len() {
        assert(s.take(n) =~= s);
    } else {
        assert(s.take(n + 1).drop_last() =~= s.take(n));
        occurrences_grow(s, n + 1, k);
    }
}

/// One list behind another has an item as often as both.
pub proof fn occurrences_joined(a: Seq<Seq<u8>>, b: Seq<Seq<u8>>, k: Seq<u8>)
    ensures
        occurrences(a + b, k) == occurrences(a, k) + occurrences(b, k),
    decreases b.len(),
{
    if b.len() == 0 {
        assert(a + b =~= a);
    } else {
        assert((a + b).drop_last() =~= a + b.drop_last());
        occurrences_joined(a, b.drop_last(), k);
    }
}

/// How often an item can occur.
pub proof fn occurrences_bounds(s: Seq<Seq<u8>>, t: Seq<u8>)
    ensures
        occurrences(s, t) <= s.len(),
        occurrences(s, t) > 0 <==> s.contains(t),
    decreases s.len(),
{
    if s.len() > 0 {
        occurrences_bounds(s.drop_last(), t);
        if s.contains(t) && s.last() != t {
            let i = choose|i: int| 0 <= i < s.len() && s[i] == t;
            assert(s.drop_last()[i] == t);
        }
        if s.drop_last().contains(t) {
            let i = choose|i: int| 0 <= i < s.drop_last().len() && s.drop_last()[i] == t;
            assert(s[i] == t);
        }
        if s.last() == t {
            assert(s[s.len() - 1] == t);
        }
    }
}

/// Counts of tokens.
#[derive(Clone, Debug, PartialEq, Eq)]
pub struct TfTable {
    pub map: SortedMap<Vec<u8>, u64>,
}

impl TfTable {
    pub open spec fn wf(&self) -> bool {
        self.map.wf()
    }

    /// The count of a token.
    pub open spec fn tally(&self, t: Seq<u8>) -> nat {
        count_in(self.map@, t)
    }

    pub fn new() -> (t: TfTable)
        ensures
            t.wf(),
            forall|x: Seq<u8>| #[trigger] t.tally(x) == 0,
    {
        TfTable { map: SortedMap::new() }
    }

    /// The count of a token.
    pub fn count(&self, token: &[u8]) -> (n: u64)
        requires
            self.wf(),
        ensures
            n == self.tally(token@),
    {
        match self.map.get(token) {
            Some(n) => *n,
            None => 0,
        }
    }

    /// Counts one more occurrence of a token.
    pub fn increment(&mut self, token: &[u8])
        requires
            old(self).wf(),
            old(self).tally(token@) < u64::MAX,
        ensures
            final(self).wf(),
            forall|x: Seq<u8>| #[trigger] final(self).tally(x) == old(self).tally(x) + (if x == token@ { 1int } else { 0 }),
    {
        let n = self.count(token);
        self.map.insert(lut::copy_bytes(token), n + 1);
    }

    /// The counts of a list of tokens.
    pub fn of_tokens(tokens: &Vec<Vec<u8>>) -> (t: TfTable)
        ensures
            t.wf(),
            forall|x: Seq<u8>| #[trigger] t.tally(x) == occurrences(hllset::token_views(tokens@), x),
    {
        let mut t = TfTable::new();
        let mut i: usize = 0;
        while i < tokens.len()
            invariant
                i <= tokens.len(),
                t.wf(),
                forall|x: Seq<u8>| #[trigger] t.tally(x) == occurrences(hllset::token_views(tokens@).take(i as int), x),
            decreases tokens.len() - i,
        {
            let ghost v = hllset::token_views(tokens@);
            proof {
                occurrences_bounds(v.take(i as int), tokens@[i as int]@);
            }
            t.increment(tokens[i].as_slice());
            proof {
                assert(v.take(i as int + 1).drop_last() =~= v.take(i as int));
                assert(v.take(i as int + 1).last() == tokens@[i as int]@);
            }
            i = i + 1;
        }
        proof {
            assert(hllset::token_views(tokens@).take(i as int) =~= hllset::token_views(tokens@));
        }
        t
    }
}

/// Counts of the bits of the plane.
#[derive(Clone, Debug, PartialEq, Eq)]
pub struct TFVec {
    pub values: Vec<u64>,
}

/// The sum of the first `n` counts.
pub open spec fn sum_of(s: Seq<u64>, n: nat) -> nat
    decreases n,
{
    if n == 0 {
        0
    } else {
        sum_of(s, (n - 1) as nat) + s[n - 1] as nat
    }
}

/// The number of positive counts among the first `n`.
pub open spec fn positive_in(s: Seq<u64>, n: nat) -> nat
    decreases n,
{
    if n == 0 {
        0
    } else {
        positive_in(s, (n - 1) as nat) + (if s[n - 1] > 0 { 1nat } else { 0 })
    }
}

/// Eight little-endian bytes per count.
pub open spec fn count_bytes(s: Seq<u64>) -> Seq<u8>
    decreases s.len(),
{
    if s.len() == 0 {
        Seq::empty()
    } else {
        count_bytes(s.drop_last()) + vstd::bytes::spec_u64_to_le_bytes(s.last())
    }
}

pub proof fn count_bytes_facts(s: Seq<u64>)
    ensures
        count_bytes(s).len() == 8 * s.len(),
        forall|i: int|
            0 <= i < s.len() ==> count_bytes(s).subrange(8 * i, 8 * i + 8) == vstd::bytes::spec_u64_to_le_bytes(
                #[trigger] s[i],
            ),
    decreases s.len(),
{
    vstd::bytes::lemma_auto_spec_u64_to_from_le_bytes();
    if s.len() > 0 {
        count_bytes_facts(s.drop_last());
        let n = s.len() - 1;
        let e = count_bytes(s.drop_last());
        assert forall|i: int| 0 <= i < s.len() implies count_bytes(s).subrange(8 * i, 8 * i + 8)
            == vstd::bytes::spec_u64_to_le_bytes(#[trigger] s[i]) by {
            if i < n {
                assert(s.drop_last()[i] == s[i]);
                assert(count_bytes(s).subrange(8 * i, 8 * i + 8) =~= e.subrange(8 * i, 8 * i + 8));
            } else {
                assert(count_bytes(s).subrange(8 * i, 8 * i + 8) =~= vstd::bytes::spec_u64_to_le_bytes(s[i]));
            }
        }
    }
}

/// The serialized form of a vector of counts: its length in four bytes, then
/// the counts.
pub open spec fn tf_bytes(s: Seq<u64>) -> Seq<u8> {
    vstd::bytes::spec_u32_to_le_bytes(s.len() as u32) + count_bytes(s)
}

/// The bytes of a vector with one count per bit of the plane.
pub open spec fn valid_tf_bytes(bytes: Seq<u8>) -> bool {
    bytes.len() == 4 + 8 * PLANE && vstd::bytes::spec_u32_from_le_bytes(bytes.subrange(0, 4)) == PLANE
}

/// The counts in a serialized vector.
pub open spec fn tf_decoded(bytes: Seq<u8>) -> Seq<u64> {
    Seq::new(PLANE as nat, |i: int| vstd::bytes::spec_u64_from_le_bytes(bytes.subrange(4 + 8 * i, 4 + 8 * i + 8)))
}

/// A vector of counts read back from its own bytes is the same vector.
pub proof fn tf_round_trip(s: Seq<u64>)
    requires
        s.len() == PLANE,
    ensures
        valid_tf_bytes(tf_bytes(s)),
        tf_decoded(tf_bytes(s)) == s,
        tf_bytes(s).len() == 262148,
{
    vstd::bytes::lemma_auto_spec_u32_to_from_le_bytes();
    vstd::bytes::lemma_auto_spec_u64_to_from_le_bytes();
    count_bytes_facts(s);
    let b = tf_bytes(s);
    assert(b.subrange(0, 4) =~= vstd::bytes::spec_u32_to_le_bytes(PLANE));
    assert forall|i: int| 0 <= i < PLANE implies tf_decoded(b)[i] == s[i] by {
        assert(b.subrange(4 + 8 * i, 4 + 8 * i + 8) =~= count_bytes(s).subrange(8 * i, 8 * i + 8));
        assert(count_bytes(s).subrange(8 * i, 8 * i + 8) == vstd::bytes::spec_u64_to_le_bytes(s[i]));
    }
    assert(tf_decoded(b) =~= s);
}

impl View for TFVec {
    type V = Seq<u64>;

    open spec fn view(&self) -> Seq<u64> {
        self.values@
    }
}

impl TFVec {
    /// One count per bit of the plane.
    pub open spec fn wf(&self) -> bool {
        self.values@.len() == PLANE
    }

    /// All counts zero.
    pub fn new() -> (t: TFVec)
        ensures
            t.wf(),
            t@ == Seq::new(PLANE as nat, |i: int| 0u64),
    {
        let mut values: Vec<u64> = Vec::new();
        let mut i: u32 = 0;
        while i < PLANE
            invariant
                i <= PLANE,
                values@ == Seq::new(i as nat, |i: int| 0u64),
            decreases PLANE - i,
        {
            values.push(0);
            i = i + 1;
            proof {
                assert(values@ =~= Seq::new(i as nat, |i: int| 0u64));
            }
        }
        TFVec { values }
    }

    /// Copies the vector.
    pub fn copy(&self) -> (t: TFVec)
        ensures
            t@ == self@,
    {
        TFVec { values: vstd::slice::slice_to_vec(self.values.as_slice()) }
    }

    /// The number of counts.
    pub fn len(&self) -> (n: usize)
        ensures
            n == self@.len(),
    {
        self.values.len()
    }

    pub fn is_empty(&self) -> (yes: bool)
        ensures
            yes == (self@.len() == 0),
    {
        self.values.len() == 0
    }

    /// The count of a bit; zero off the plane.
    pub fn get(&self, bit: usize) -> (n: u64)
        ensures
            n == (if bit < self@.len() { self@[bit as int] } else { 0 }),
    {
        if bit < self.values.len() {
            self.values[bit]
        } else {
            0
        }
    }

    /// Adds `weight` to the count of every member of a set.
    pub fn increment_from_hllset(&mut self, set: &HLLSet, weight: u64)
        requires
            old(self).wf(),
            forall|i: int|
                0 <= i < PLANE && set@.contains(i as u32) ==> #[trigger] old(self)@[i] + weight <= u64::MAX,
        ensures
            final(self).wf(),
            forall|i: int|
                0 <= i < PLANE ==> #[trigger] final(self)@[i] == old(self)@[i] + (if set@.contains(i as u32) {
                    weight as int
                } else {
                    0
                }),
    {
        let ghost before = self@;
        let mut b: u32 = 0;
        while b < PLANE
            invariant
                b <= PLANE,
                self.wf(),
                before.len() == PLANE,
                forall|i: int| 0 <= i < PLANE && set@.contains(i as u32) ==> #[trigger] before[i] + weight <= u64::MAX,
                forall|i: int|
                    0 <= i < PLANE ==> #[trigger] self@[i] == before[i] + (if i < b && set@.contains(i as u32) {
                        weight as int
                    } else {
                        0
                    }),
            decreases PLANE - b,
        {
            if set.contains(b) {
                let i: usize = b as usize;
                proof {
                    assert(self@[b as int] == before[b as int]);
                }
                let n: u64 = self.values[i] + weight;
                self.values[i] = n;
            }
            b = b + 1;
        }
    }

    /// Adds the other vector's counts.
    pub fn merge(&mut self, other: &TFVec)
        requires
            old(self).wf(),
            other.wf(),
            forall|i: int| 0 <= i < PLANE ==> #[trigger] old(self)@[i] + other@[i] <= u64::MAX,
        ensures
            final(self).wf(),
            forall|i: int| 0 <= i < PLANE ==> #[trigger] final(self)@[i] == old(self)@[i] + other@[i],
    {
        let ghost before = self@;
        let mut i: usize = 0;
        while i < PLANE as usize
            invariant
                i <= PLANE,
                self.wf(),
                other.wf(),
                before.len() == PLANE,
                forall|k: int| 0 <= k < PLANE ==> #[trigger] before[k] + other@[k] <= u64::MAX,
                forall|k: int| 0 <= k < i ==> #[trigger] self@[k] == before[k] + other@[k],
                forall|k: int| i <= k < PLANE ==> #[trigger] self@[k] == before[k],
            decreases PLANE - i,
        {
            proof {
                assert(before[i as int] + other@[i as int] <= u64::MAX);
                assert(self@[i as int] == before[i as int]);
            }
            let n: u64 = self.values[i] + other.values[i];
            self.values[i] = n;
            i = i + 1;
        }
    }

    /// The sum of all counts.
    pub fn total(&self) -> (n: u128)
        requires
            self.wf(),
        ensures
            n == sum_of(self@, PLANE as nat),
    {
        let mut n: u128 = 0;
        let mut i: usize = 0;
        while i < PLANE as usize
            invariant
                i <= PLANE,
                self.wf(),
                n == sum_of(self@, i as nat),
                n <= i * 0x1_0000_0000_0000_0000,
            decreases PLANE - i,
        {
            n = n + self.values[i] as u128;
            i = i + 1;
        }
        n
    }

    /// The number of bits with a positive count.
    pub fn active(&self) -> (n: usize)
        requires
            self.wf(),
        ensures
            n == positive_in(self@, PLANE as nat),
    {
        let mut n: usize = 0;
        let mut i: usize = 0;
        while i < PLANE as usize
            invariant
                i <= PLANE,
                n <= i,
                self.wf(),
                n == positive_in(self@, i as nat),
            decreases PLANE - i,
        {
            if self.values[i] > 0 {
                n = n + 1;
            }
            i = i + 1;
        }
        n
    }

    /// The serialized form.
    pub fn to_bytes(&self) -> (bytes: Vec<u8>)
        requires
            self.wf(),
        ensures
            bytes@ == tf_bytes(self@),
            bytes@.len() == 262148,
    {
        let mut bytes = vstd::bytes::u32_to_le_bytes(self.values.len() as u32);
        let mut i: usize = 0;
        let ghost head = vstd::bytes::spec_u32_to_le_bytes(PLANE);
        proof {
            assert(self@.take(0) =~= Seq::<u64>::empty());
            assert(bytes@ =~= head + count_bytes(self@.take(0)));
        }
        while i < self.values.len()
            invariant
                i <= self.values.len(),
                bytes@ == head + count_bytes(self@.take(i as int)),
            decreases self.values.len() - i,
        {
            let mut word = vstd::bytes::u64_to_le_bytes(self.values[i]);
            bytes.append(&mut word);
            proof {
                assert(self@.take(i as int + 1).drop_last() =~= self@.take(i as int));
                assert(bytes@ =~= head + count_bytes(self@.take(i as int + 1)));
            }
            i = i + 1;
        }
        proof {
            assert(self@.take(i as int) =~= self@);
            tf_round_trip(self@);
        }
        bytes
    }

    /// Reads a serialized vector back.
    pub fn from_bytes(bytes: &[u8]) -> (t: Option<TFVec>)
        ensures
            t is Some <==> valid_tf_bytes(bytes@),
            t is Some ==> t->0.wf() && t->0@ == tf_decoded(bytes@),
    {
        if bytes.len() != 262148 {
            return None;
        }
        let head = vstd::slice::slice_subrange(bytes, 0, 4);
        if vstd::bytes::u32_from_le_bytes(head) != PLANE {
            return None;
        }
        let mut values: Vec<u64> = Vec::new();
        let mut i: usize = 0;
        while i < PLANE as usize
            invariant
                i <= PLANE,
                bytes.len() == 262148,
                values@ == tf_decoded(bytes@).take(i as int),
            decreases PLANE - i,
        {
            let word = vstd::slice::slice_subrange(bytes, 4 + 8 * i, 4 + 8 * i + 8);
            values.push(vstd::bytes::u64_from_le_bytes(word));
            i = i + 1;
            proof {
                assert(values@ =~= tf_decoded(bytes@).take(i as int));
            }
        }
        proof {
            assert(tf_decoded(bytes@).take(i as int) =~= tf_decoded(bytes@));
        }
        Some(TFVec { values })
    }
}

/// How often a token occurs: once for each place where it stands.
pub proof fn occurrences_law(s: Seq<Seq<u8>>, t: Seq<u8>)
    ensures
        occurrences(s, t) == s.filter(|x: Seq<u8>| x == t).len(),
        occurrences(s, t) > 0 <==> s.contains(t),
    decreases s.len(),
{
    reveal(Seq::filter);
    if s.len() > 0 {
        let p = s.drop_last();
        occurrences_law(p, t);
        if p.contains(t) {
            let i = choose|i: int| 0 <= i < p.len() && p[i] == t;
            assert(s[i] == t);
        }
        if s.contains(t) && s.last() != t {
            let i = choose|i: int| 0 <= i < s.len() && s[i] == t;
            assert(p[i] == t);
        }
        if s.last() == t {
            assert(s[s.len() - 1] == t);
        }
    }
}

/// A sum of counts goes over all of them, and counts the positive ones apart.
pub proof fn sums_law(s: Seq<u64>, n: nat)
    requires
        n < s.len(),
    ensures
        sum_of(s, 0) == 0,
        sum_of(s, n + 1) == sum_of(s, n) + s[n as int],
        positive_in(s, 0) == 0,
        s[n as int] > 0 ==> positive_in(s, n + 1) == positive_in(s, n) + 1,
        s[n as int] == 0 ==> positive_in(s, n + 1) == positive_in(s, n),
{
}

} // verus!
