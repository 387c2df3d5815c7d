//! A map with ordered keys, kept as a sorted vector of entries.

use vstd::prelude::*;

use crate::order::Keyed;
use crate::order::Side;
use crate::order;
use crate::text;
use crate::lut;

verus! {

/// What can be a key: a value with a byte string that identifies and orders it.
pub trait Key: Sized {
    spec fn key(&self) -> Seq<u8>;

    fn key_bytes(&self) -> (bytes: &[u8])
        ensures
            bytes@ == self.key(),
    ;

    fn duplicate(&self) -> (copy: Self)
        ensures
            copy.key() == self.key(),
    ;
}

impl Key for Vec<u8> {
    open spec fn key(&self) -> Seq<u8> {
        self@
    }

    fn key_bytes(&self) -> (bytes: &[u8]) {
        self.as_slice()
    }

    fn duplicate(&self) -> (copy: Self) {
        vstd::slice::slice_to_vec(self.as_slice())
    }
}

impl Key for String {
    open spec fn key(&self) -> Seq<u8> {
        text::utf8(self@)
    }

    fn key_bytes(&self) -> (bytes: &[u8]) {
        self.as_str().as_bytes()
    }

    fn duplicate(&self) -> (copy: Self) {
        self.clone()
    }
}

/// Entries in strictly ascending key order.
#[derive(Clone, Debug, PartialEq, Eq)]
pub struct SortedMap<K, V> {
    pub entries: Vec<(K, V)>,
}

/// Whether some entry has the key.
pub open spec fn has_key<K: Key, V>(s: Seq<(K, V)>, k: Seq<u8>) -> bool {
    exists|i: int| 0 <= i < s.len() && #[trigger] s[i].0.key() == k
}

/// The index of the entry with the key.
pub open spec fn slot<K: Key, V>(s: Seq<(K, V)>, k: Seq<u8>) -> int {
    choose|i: int| 0 <= i < s.len() && #[trigger] s[i].0.key() == k
}

impl<K: Key, V> View for SortedMap<K, V> {
    type V = Map<Seq<u8>, V>;

    open spec fn view(&self) -> Map<Seq<u8>, V> {
        Map::new(|k: Seq<u8>| has_key(self.entries@, k), |k: Seq<u8>| self.entries@[slot(self.entries@, k)].1)
    }
}

impl<K: Key, V> SortedMap<K, V> {
    /// Keys ascend strictly.
    pub open spec fn wf(&self) -> bool {
        forall|i: int, j: int|
            0 <= i < j < self.entries@.len() ==> order::bytes_less(
                #[trigger] self.entries@[i].0.key(),
                #[trigger] self.entries@[j].0.key(),
            )
    }

    /// The keys in order.
    pub open spec fn keys(&self) -> Seq<Seq<u8>> {
        self.entries@.map_values(|e: (K, V)| e.0.key())
    }

    /// The entry at an index is what the map holds under its key.
    pub proof fn entry_facts(&self)
        requires
            self.wf(),
        ensures
            forall|i: int|
                0 <= i < self.entries@.len() ==> self@.dom().contains(#[trigger] self.entries@[i].0.key())
                    && self@[self.entries@[i].0.key()] == self.entries@[i].1 && slot(
                    self.entries@,
                    self.entries@[i].0.key(),
                ) == i,
    {
        assert forall|i: int| 0 <= i < self.entries@.len() implies self@.dom().contains(
            #[trigger] self.entries@[i].0.key(),
        ) && self@[self.entries@[i].0.key()] == self.entries@[i].1 && slot(
            self.entries@,
            self.entries@[i].0.key(),
        ) == i by {
            let k = self.entries@[i].0.key();
            let j = slot(self.entries@, k);
            assert(self.entries@[j].0.key() == k);
            order::bytes_irreflexive(k);
        }
    }

    /// The keys are as many as the entries.
    pub proof fn dom_facts(&self)
        requires
            self.wf(),
        ensures
            self@.dom().finite(),
            self@.dom().len() == self.entries@.len(),
            self.keys().to_set() == self@.dom(),
            self.keys().no_duplicates(),
    {
        let k = self.keys();
        let e = self.entries@;
        assert forall|i: int, j: int| 0 <= i < k.len() && 0 <= j < k.len() && i != j implies k[i] != k[j] by {
            order::bytes_irreflexive(k[i]);
            if i < j {
                assert(order::bytes_less(e[i].0.key(), e[j].0.key()));
            } else {
                assert(order::bytes_less(e[j].0.key(), e[i].0.key()));
            }
        }
        k.unique_seq_to_set();
        assert forall|q: Seq<u8>| k.to_set().contains(q) == self@.dom().contains(q) by {
            if k.contains(q) {
                let i = choose|i: int| 0 <= i < k.len() && k[i] == q;
                assert(e[i].0.key() == q);
            }
            if has_key(e, q) {
                let i = choose|i: int| 0 <= i < e.len() && #[trigger] e[i].0.key() == q;
                assert(k[i] == q);
            }
        }
        assert(k.to_set() =~= self@.dom());
    }

    /// The empty map.
    pub fn new() -> (m: Self)
        ensures
            m.wf(),
            m@ == Map::<Seq<u8>, V>::empty(),
            m.entries@.len() == 0,
    {
        let m = SortedMap { entries: Vec::new() };
        proof {
            assert(m@ =~= Map::<Seq<u8>, V>::empty());
        }
        m
    }

    /// The number of entries.
    pub fn len(&self) -> (n: usize)
        ensures
            n == self.entries@.len(),
    {
        self.entries.len()
    }

    /// Finds a key: its index, or the index at which it belongs.
    pub fn locate(&self, k: &[u8]) -> (at: (bool, usize))
        requires
            self.wf(),
        ensures
            at.0 == self@.dom().contains(k@),
            at.1 <= self.entries@.len(),
            at.0 ==> at.1 < self.entries@.len() && self.entries@[at.1 as int].0.key() == k@,
            forall|i: int| 0 <= i < at.1 ==> order::bytes_less(#[trigger] self.entries@[i].0.key(), k@),
            !at.0 ==> forall|i: int| at.1 <= i < self.entries@.len() ==> order::bytes_less(k@, #[trigger] self.entries@[i].0.key()),
    {
        let mut lo: usize = 0;
        let mut hi: usize = self.entries.len();
        while lo < hi
            invariant
                lo <= hi <= self.entries@.len(),
                self.wf(),
                forall|i: int| 0 <= i < lo ==> order::bytes_less(#[trigger] self.entries@[i].0.key(), k@),
                forall|i: int| hi <= i < self.entries@.len() ==> order::bytes_less(k@, #[trigger] self.entries@[i].0.key()),
            decreases hi - lo,
        {
            let mid: usize = lo + (hi - lo) / 2;
            let side = order::compare_bytes(self.entries[mid].0.key_bytes(), k);
            match side {
                Side::Less => {
                    proof {
                        assert forall|i: int| 0 <= i < mid + 1 implies order::bytes_less(
                            #[trigger] self.entries@[i].0.key(),
                            k@,
                        ) by {
                            if i < mid {
                                order::bytes_transitive(
                                    self.entries@[i].0.key(),
                                    self.entries@[mid as int].0.key(),
                                    k@,
                                );
                            }
                        }
                    }
                    lo = mid + 1;
                },
                Side::Greater => {
                    proof {
                        assert forall|i: int| mid <= i < self.entries@.len() implies order::bytes_less(
                            k@,
                            #[trigger] self.entries@[i].0.key(),
                        ) by {
                            if i > mid {
                                order::bytes_transitive(
                                    k@,
                                    self.entries@[mid as int].0.key(),
                                    self.entries@[i].0.key(),
                                );
                            }
                        }
                    }
                    hi = mid;
                },
                Side::Same => {
                    return (true, mid);
                },
            }
        }
        proof {
            assert forall|i: int| 0 <= i < self.entries@.len() implies #[trigger] self.entries@[i].0.key() != k@ by {
                order::bytes_irreflexive(k@);
            }
        }
        (false, lo)
    }

    /// Whether the map holds the key.
    pub fn contains(&self, k: &[u8]) -> (yes: bool)
        requires
            self.wf(),
        ensures
            yes == self@.dom().contains(k@),
    {
        self.locate(k).0
    }

    /// The value under a key.
    pub fn get(&self, k: &[u8]) -> (v: Option<&V>)
        requires
            self.wf(),
        ensures
            v is Some <==> self@.dom().contains(k@),
            v is Some ==> *v->0 == self@[k@],
    {
        let at = self.locate(k);
        if at.0 {
            proof {
                self.entry_facts();
            }
            Some(&self.entries[at.1].1)
        } else {
            None
        }
    }

    /// Puts a value under a key, replacing what stood there.
    pub fn insert(&mut self, k: K, v: V)
        requires
            old(self).wf(),
        ensures
            final(self).wf(),
            final(self)@ == old(self)@.insert(k.key(), v),
            final(self).entries@.len() == old(self).entries@.len() + (if old(self)@.dom().contains(k.key()) { 0int } else { 1 }),
    {
        let at = self.locate(k.key_bytes());
        let ghost before = *self;
        proof {
            before.entry_facts();
        }
        if at.0 {
            self.entries[at.1] = (k, v);
        } else {
            self.entries.insert(at.1, (k, v));
        }
        proof {
            let p = at.1 as int;
            let s = self.entries@;
            if at.0 {
                assert forall|i: int, j: int| 0 <= i < j < s.len() implies order::bytes_less(
                    #[trigger] s[i].0.key(),
                    #[trigger] s[j].0.key(),
                ) by {
                    assert(s[i].0.key() == before.entries@[i].0.key());
                    assert(s[j].0.key() == before.entries@[j].0.key());
                }
            } else {
                assert forall|i: int, j: int| 0 <= i < j < s.len() implies order::bytes_less(
                    #[trigger] s[i].0.key(),
                    #[trigger] s[j].0.key(),
                ) by {
                    let oi = if i < p { i } else { i - 1 };
                    let oj = if j < p { j } else { j - 1 };
                    if i != p {
                        assert(s[i] == before.entries@[oi]);
                    }
                    if j != p {
                        assert(s[j] == before.entries@[oj]);
                    }
                    if i != p && j != p {
                        assert(order::bytes_less(before.entries@[oi].0.key(), before.entries@[oj].0.key()));
                    }
                }
            }
            assert(self.wf());
            self.entry_facts();
            let target = before@.insert(k.key(), v);
            assert forall|q: Seq<u8>| #![trigger self@.dom().contains(q)] #![trigger target.dom().contains(q)] self@.dom().contains(q) == target.dom().contains(q) && (self@.dom().contains(q)
                ==> self@[q] == target[q]) by {
                if before@.dom().contains(q) {
                    let i = slot(before.entries@, q);
                    let ni = if at.0 || i < p { i } else { i + 1 };
                    assert(s[ni].0.key() == q);
                }
                if q == k.key() {
                    assert(s[p].0.key() == q);
                }
                if self@.dom().contains(q) {
                    let i = slot(s, q);
                    if i != p {
                        let oi = if at.0 || i < p { i } else { i - 1 };
                        assert(s[i] == before.entries@[oi]);
                        assert(before.entries@[oi].0.key() == q);
                        if q == k.key() && !at.0 {
                            order::bytes_irreflexive(q);
                        }
                    } else {
                        assert(s[p] == (k, v));
                    }
                }
            }
            assert(self@.dom() =~= target.dom());
            assert(self@ =~= target);
        }
    }

    /// Takes a key out; whether it was there.
    pub fn remove(&mut self, k: &[u8]) -> (there: bool)
        requires
            old(self).wf(),
        ensures
            final(self).wf(),
            final(self)@ == old(self)@.remove(k@),
            there == old(self)@.dom().contains(k@),
            final(self).entries@.len() == old(self).entries@.len() - (if there { 1int } else { 0 }),
    {
        let at = self.locate(k);
        let ghost before = *self;
        proof {
            before.entry_facts();
        }
        if at.0 {
            let gone = self.entries.remove(at.1);
            proof {
                let p = at.1 as int;
                let s = self.entries@;
                assert forall|i: int, j: int| 0 <= i < j < s.len() implies order::bytes_less(
                    #[trigger] s[i].0.key(),
                    #[trigger] s[j].0.key(),
                ) by {
                    let oi = if i < p { i } else { i + 1 };
                    let oj = if j < p { j } else { j + 1 };
                    assert(order::bytes_less(before.entries@[oi].0.key(), before.entries@[oj].0.key()));
                }
                assert(self.wf());
                self.entry_facts();
                let target = before@.remove(k@);
                assert forall|q: Seq<u8>| #![trigger self@.dom().contains(q)] #![trigger target.dom().contains(q)] self@.dom().contains(q) == target.dom().contains(q) && (self@.dom().contains(
                    q,
                ) ==> self@[q] == target[q]) by {
                    if before@.dom().contains(q) && q != k@ {
                        let i = slot(before.entries@, q);
                        let ni = if i < p { i } else { i - 1 };
                        assert(s[ni].0.key() == q);
                    }
                    if self@.dom().contains(q) {
                        let i = slot(s, q);
                        let oi = if i < p { i } else { i + 1 };
                        assert(before.entries@[oi].0.key() == q);
                        if q == k@ {
                            assert(slot(before.entries@, q) == oi);
                            assert(slot(before.entries@, q) == p);
                        }
                    }
                }
                assert(self@.dom() =~= target.dom());
                assert(self@ =~= target);
            }
        } else {
            proof {
                assert(self@ =~= before@.remove(k@));
            }
        }
        at.0
    }
}

impl<K: Key> Keyed for (K, u64) {
    open spec fn rank(&self) -> Seq<Seq<int>> {
        seq![seq![-(self.1 as int)], order::ints(self.0.key())]
    }

    fn before(&self, other: &Self) -> (first: bool) {
        let side = order::compare_bytes(self.0.key_bytes(), other.0.key_bytes());
        proof {
            lut::row_order(-(self.1 as int), order::ints(self.0.key()), -(other.1 as int), order::ints(other.0.key()));
            if order::ints(self.0.key()) == order::ints(other.0.key()) {
                order::ints_injective(self.0.key(), other.0.key());
            }
        }
        if self.1 != other.1 {
            self.1 > other.1
        } else {
            match side {
                Side::Less => true,
                _ => false,
            }
        }
    }
}

/// A counted key.
pub open spec fn counted<K: Key>() -> spec_fn((K, u64)) -> (Seq<u8>, u64) {
    |e: (K, u64)| (e.0.key(), e.1)
}

/// The rank of a counted key: higher counts first, then key order.
pub open spec fn count_rank() -> spec_fn((Seq<u8>, u64)) -> Seq<Seq<int>> {
    |p: (Seq<u8>, u64)| seq![seq![-(p.1 as int)], order::ints(p.0)]
}

pub proof fn count_rank_faithful()
    ensures
        order::faithful(count_rank()),
{
    let r = count_rank();
    assert forall|a: (Seq<u8>, u64), b: (Seq<u8>, u64)| #[trigger] r(a) == #[trigger] r(b) implies a == b by {
        assert(r(a)[0][0] == r(b)[0][0]);
        assert(r(a)[1] == r(b)[1]);
        order::ints_injective(a.0, b.0);
    }
}

/// The counted keys of a map, highest count first.
pub fn rank_counts<K: Key>(map: &SortedMap<K, u64>) -> (out: Vec<(K, u64)>)
    ensures
        out@.map_values(counted::<K>()) == order::ranked(map.entries@.map_values(counted::<K>()), count_rank()),
        out@.len() == map.entries@.len(),
{
    let mut copy: Vec<(K, u64)> = Vec::new();
    let mut i: usize = 0;
    while i < map.entries.len()
        invariant
            i <= map.entries.len(),
            copy@.len() == i,
            forall|j: int|
                0 <= j < i ==> (#[trigger] copy@[j]).0.key() == map.entries@[j].0.key() && copy@[j].1
                    == map.entries@[j].1,
        decreases map.entries.len() - i,
    {
        copy.push((map.entries[i].0.duplicate(), map.entries[i].1));
        i = i + 1;
    }
    let sorted = order::sort_items(copy);
    proof {
        assert(copy@.map_values(counted::<K>()) =~= map.entries@.map_values(counted::<K>()));
        count_rank_faithful();
        order::ranked_images(sorted@, copy@, counted::<K>(), count_rank());
    }
    sorted
}

} // verus!
