//! The registry of committed HLLSets, and bit frequencies.

use vstd::prelude::*;

use crate::git::object::ObjectId;
use crate::hllset::HLLSet;
use crate::sorted::Key;
use crate::sorted::SortedMap;
use crate::tf::TFVec;
use crate::git::object;
use crate::order;
use crate::sorted;
use crate::text;
use crate::tf;
use crate::lut;

verus! {

/// Touch counts by object id.
#[derive(Clone, Debug, PartialEq, Eq)]
pub struct HllsetLut {
    map: SortedMap<ObjectId, u64>,
}

impl View for HllsetLut {
    type V = Map<Seq<u8>, u64>;

    closed spec fn view(&self) -> Map<Seq<u8>, u64> {
        self.map@
    }
}

impl Default for HllsetLut {
    fn default() -> (l: HllsetLut)
        ensures
            l.wf(),
            l@ == Map::<Seq<u8>, u64>::empty(),
    {
        HllsetLut::new()
    }
}

/// Counts with one more for a key.
pub open spec fn counted_up(m: Map<Seq<u8>, u64>, id: Seq<char>) -> Map<Seq<u8>, u64> {
    m.insert(text::utf8(id), (tf::count_in(m, text::utf8(id)) + 1) as u64)
}

/// Counts with one more for each key of a list.
pub open spec fn counted_all(m: Map<Seq<u8>, u64>, list: Seq<Seq<char>>) -> Map<Seq<u8>, u64>
    decreases list.len(),
{
    if list.len() == 0 {
        m
    } else {
        counted_up(counted_all(m, list.drop_last()), list.last())
    }
}

/// The bytes of a list of ids.
pub open spec fn id_bytes(list: Seq<Seq<char>>) -> Seq<Seq<u8>> {
    list.map_values(|id: Seq<char>| text::utf8(id))
}

/// The count of each id of a list leaves room for as many more as the id occurs.
pub open spec fn room_for(m: Map<Seq<u8>, u64>, list: Seq<Seq<char>>) -> bool {
    forall|k: Seq<u8>|
        tf::occurrences(id_bytes(list), k) > 0 ==> #[trigger] tf::count_in(m, k) + tf::occurrences(id_bytes(list), k) <= u64::MAX
}

/// Room for a list is room for its beginning.
proof fn counted_room(m: Map<Seq<u8>, u64>, list: Seq<Seq<char>>, n: int)
    requires
        room_for(m, list),
        0 <= n <= list.len(),
    ensures
        room_for(m, list.take(n)),
{
    assert(id_bytes(list.take(n)) =~= id_bytes(list).take(n));
    assert forall|k: Seq<u8>| tf::occurrences(id_bytes(list.take(n)), k) > 0 implies #[trigger] tf::count_in(m, k)
        + tf::occurrences(id_bytes(list.take(n)), k) <= u64::MAX by {
        tf::occurrences_grow(id_bytes(list), n, k);
    }
}

/// Where there is room, each count grows by how often its key occurs.
pub proof fn counted_exactly(m: Map<Seq<u8>, u64>, list: Seq<Seq<char>>, k: Seq<u8>)
    requires
        room_for(m, list),
    ensures
        tf::count_in(counted_all(m, list), k) == tf::count_in(m, k) + tf::occurrences(id_bytes(list), k),
    decreases list.len(),
{
    let bytes = id_bytes(list);
    if list.len() > 0 {
        let shorter = list.drop_last();
        let last = text::utf8(list.last());
        assert(shorter =~= list.take(list.len() - 1));
        assert(id_bytes(shorter) =~= bytes.drop_last());
        assert(bytes.last() == last);
        counted_room(m, list, list.len() - 1);
        counted_exactly(m, shorter, k);
        counted_exactly(m, shorter, last);
        assert(tf::count_in(m, last) + tf::occurrences(bytes, last) <= u64::MAX);
    }
}

/// Room for two lists, one behind the other.
pub proof fn room_split(m: Map<Seq<u8>, u64>, a: Seq<Seq<char>>, b: Seq<Seq<char>>)
    requires
        room_for(m, a + b),
    ensures
        room_for(m, a),
        room_for(counted_all(m, a), b),
{
    let both = a + b;
    counted_room(m, both, a.len() as int);
    assert(both.take(a.len() as int) =~= a);
    assert(id_bytes(both) =~= id_bytes(a) + id_bytes(b));
    assert forall|k: Seq<u8>| tf::occurrences(id_bytes(b), k) > 0 implies #[trigger] tf::count_in(counted_all(m, a), k)
        + tf::occurrences(id_bytes(b), k) <= u64::MAX by {
        counted_exactly(m, a, k);
        tf::occurrences_joined(id_bytes(a), id_bytes(b), k);
        assert(tf::count_in(m, k) + tf::occurrences(id_bytes(both), k) <= u64::MAX);
    }
}

/// Where there is room for a list, the ids in front of one leave room for it.
pub proof fn room_step(m: Map<Seq<u8>, u64>, list: Seq<Seq<char>>, i: int)
    requires
        room_for(m, list),
        0 <= i < list.len(),
    ensures
        tf::count_in(counted_all(m, list.take(i)), text::utf8(list[i])) < u64::MAX,
{
    let k = text::utf8(list[i]);
    let done = id_bytes(list.take(i));
    assert(id_bytes(list)[i] == k);
    assert(id_bytes(list).take(i) =~= done);
    assert(id_bytes(list).take(i + 1) =~= done.push(k));
    assert(done.push(k).drop_last() =~= done);
    tf::occurrences_grow(id_bytes(list), i + 1, k);
    counted_room(m, list, i);
    counted_exactly(m, list.take(i), k);
    assert(tf::count_in(m, k) + tf::occurrences(id_bytes(list), k) <= u64::MAX);
}

/// Whether a list holds the entries of a registry by ascending key.
pub open spec fn lists_counts(list: Seq<(Seq<u8>, u64)>, m: Map<Seq<u8>, u64>) -> bool {
    let keys = list.map_values(|e: (Seq<u8>, u64)| e.0);
    &&& lut::ascending_tokens(keys)
    &&& keys.to_set() == m.dom()
    &&& forall|i: int| 0 <= i < list.len() ==> m[(#[trigger] list[i]).0] == list[i].1
}

/// The entries of a registry by ascending key.
pub open spec fn listed_counts(m: Map<Seq<u8>, u64>) -> Seq<(Seq<u8>, u64)> {
    choose|list: Seq<(Seq<u8>, u64)>| lists_counts(list, m)
}

/// There is one such list.
pub proof fn listed_counts_unique(list: Seq<(Seq<u8>, u64)>, m: Map<Seq<u8>, u64>)
    requires
        lists_counts(list, m),
    ensures
        listed_counts(m) == list,
{
    let other = listed_counts(m);
    let a = list.map_values(|e: (Seq<u8>, u64)| e.0);
    let b = other.map_values(|e: (Seq<u8>, u64)| e.0);
    lut::ascending_tokens_unique(a, b);
    assert(a.len() == list.len() && b.len() == other.len());
    assert forall|i: int| 0 <= i < list.len() implies list[i] == other[i] by {
        assert(a[i] == list[i].0);
        assert(b[i] == other[i].0);
        assert(m[list[i].0] == list[i].1);
        assert(m[other[i].0] == other[i].1);
    }
    assert(list =~= other);
}

/// The entries of a registry, the most touched first.
pub open spec fn ranked_counts(m: Map<Seq<u8>, u64>) -> Seq<(Seq<u8>, u64)> {
    order::ranked(listed_counts(m), sorted::count_rank())
}

impl HllsetLut {
    pub closed spec fn wf(&self) -> bool {
        self.map.wf()
    }

    /// The entries in id order.
    pub closed spec fn entries(&self) -> Seq<(Seq<u8>, u64)> {
        self.map.entries@.map_values(sorted::counted::<ObjectId>())
    }

    /// The touch count of an id.
    pub open spec fn touches(&self, id: Seq<char>) -> nat {
        tf::count_in(self@, text::utf8(id))
    }

    /// The entries list each id of the map once, ascending, with its count.
    pub proof fn entries_facts(&self)
        requires
            self.wf(),
        ensures
            forall|i: int, j: int|
                0 <= i < j < self.entries().len() ==> order::bytes_less((#[trigger] self.entries()[i]).0, (#[trigger] self.entries()[j]).0),
            forall|i: int|
                0 <= i < self.entries().len() ==> self@.dom().contains((#[trigger] self.entries()[i]).0)
                    && self@[self.entries()[i].0] == self.entries()[i].1,
            forall|k: Seq<u8>|
                #[trigger] self@.dom().contains(k) ==> exists|i: int| 0 <= i < self.entries().len() && (#[trigger] self.entries()[i]).0 == k,
    {
        self.map.entry_facts();
        let e = self.map.entries@;
        assert forall|i: int, j: int| 0 <= i < j < self.entries().len() implies order::bytes_less(
            (#[trigger] self.entries()[i]).0,
            (#[trigger] self.entries()[j]).0,
        ) by {
            assert(order::bytes_less(e[i].0.key(), e[j].0.key()));
        }
        assert forall|i: int| 0 <= i < self.entries().len() implies self@.dom().contains((#[trigger] self.entries()[i]).0)
            && self@[self.entries()[i].0] == self.entries()[i].1 by {
            assert(self.map@.dom().contains(e[i].0.key()));
        }
        assert forall|k: Seq<u8>| #[trigger] self@.dom().contains(k) implies exists|i: int|
            0 <= i < self.entries().len() && (#[trigger] self.entries()[i]).0 == k by {
            let i = sorted::slot(e, k);
            assert(self.entries()[i].0 == k);
        }
    }

    pub fn new() -> (l: HllsetLut)
        ensures
            l.wf(),
            l@ == Map::<Seq<u8>, u64>::empty(),
    {
        HllsetLut { map: SortedMap::new() }
    }

    /// Registers an id; an id that is there keeps its count.
    pub fn register(&mut self, id: &ObjectId)
        requires
            old(self).wf(),
        ensures
            final(self).wf(),
            final(self)@ == (if old(self)@.dom().contains(text::utf8(id@)) {
                old(self)@
            } else {
                old(self)@.insert(text::utf8(id@), 0)
            }),
    {
        if !self.map.contains(id.key_bytes()) {
            self.map.insert(id.copy(), 0);
        }
    }

    /// Counts one more touch of an id, registering it first where needed.
    pub fn touch(&mut self, id: &ObjectId)
        requires
            old(self).wf(),
            old(self).touches(id@) < u64::MAX,
        ensures
            final(self).wf(),
            final(self)@ == counted_up(old(self)@, id@),
    {
        let n = self.th(id);
        self.map.insert(id.copy(), n + 1);
    }

    /// Registers an id and touches it.
    pub fn enter(&mut self, id: &ObjectId)
        requires
            old(self).wf(),
            old(self).touches(id@) < u64::MAX,
        ensures
            final(self).wf(),
            final(self)@ == counted_up(old(self)@, id@),
    {
        let ghost before = self@;
        self.register(id);
        self.touch(id);
        proof {
            assert(self@ =~= counted_up(before, id@));
        }
    }

    /// Touches each id of a list in turn.
    pub fn touch_many(&mut self, list: &Vec<ObjectId>)
        requires
            old(self).wf(),
            room_for(old(self)@, object::id_texts(list@)),
        ensures
            final(self).wf(),
            final(self)@ == counted_all(old(self)@, object::id_texts(list@)),
    {
        let ghost before = self@;
        let ghost all = object::id_texts(list@);
        let mut i: usize = 0;
        proof {
            assert(all.take(0) =~= Seq::<Seq<char>>::empty());
        }
        while i < list.len()
            invariant
                i <= list.len(),
                self.wf(),
                all == object::id_texts(list@),
                room_for(before, all),
                self@ == counted_all(before, all.take(i as int)),
            decreases list.len() - i,
        {
            proof {
                room_step(before, all, i as int);
                assert(all.take(i as int + 1).drop_last() =~= all.take(i as int));
                assert(all.take(i as int + 1).last() == list@[i as int]@);
            }
            self.touch(&list[i]);
            i = i + 1;
        }
        proof {
            assert(all.take(i as int) =~= all);
        }
    }

    /// The touch count of an id; zero where it is not registered.
    pub fn th(&self, id: &ObjectId) -> (n: u64)
        requires
            self.wf(),
        ensures
            n == self.touches(id@),
    {
        match self.map.get(id.key_bytes()) {
            Some(n) => *n,
            None => 0,
        }
    }

    /// The number of registered ids.
    pub fn len(&self) -> (n: usize)
        requires
            self.wf(),
        ensures
            n == self@.dom().len(),
            n == self.entries().len(),
    {
        proof {
            self.map.dom_facts();
        }
        self.map.len()
    }

    pub fn is_empty(&self) -> (yes: bool)
        requires
            self.wf(),
        ensures
            yes == (self@ == Map::<Seq<u8>, u64>::empty()),
    {
        proof {
            self.map.dom_facts();
            if self@.dom().len() == 0 {
                self@.dom().lemma_len0_is_empty();
                assert(self@ =~= Map::<Seq<u8>, u64>::empty());
            }
        }
        self.map.len() == 0
    }

    /// The ids with their counts, highest count first, then in id order.
    pub fn ranked(&self) -> (out: Vec<(ObjectId, u64)>)
        requires
            self.wf(),
        ensures
            out@.map_values(sorted::counted::<ObjectId>()) == ranked_counts(self@),
            out@.len() == self@.dom().len(),
    {
        proof {
            self.map.dom_facts();
            self.entries_facts();
            let keys = self.entries().map_values(|e: (Seq<u8>, u64)| e.0);
            assert forall|k: Seq<u8>| keys.to_set().contains(k) == self@.dom().contains(k) by {
                if keys.contains(k) {
                    let i = choose|i: int| 0 <= i < keys.len() && keys[i] == k;
                    assert(self.entries()[i].0 == k);
                }
                if self@.dom().contains(k) {
                    let i = choose|i: int| 0 <= i < self.entries().len() && (#[trigger] self.entries()[i]).0 == k;
                    assert(keys[i] == k);
                }
            }
            assert(keys.to_set() =~= self@.dom());
            assert(lists_counts(self.entries(), self@));
            listed_counts_unique(self.entries(), self@);
        }
        sorted::rank_counts(&self.map)
    }
}

/// How often each bit was touched.
#[derive(Clone, Debug, PartialEq, Eq)]
pub struct BitTf {
    pub inner: TFVec,
}

impl View for BitTf {
    type V = Seq<u64>;

    open spec fn view(&self) -> Seq<u64> {
        self.inner@
    }
}

/// Counts with one more for each member of a set.
pub open spec fn bumped(counts: Seq<u64>, set: Set<u32>) -> Seq<u64> {
    Seq::new(counts.len(), |i: int| (counts[i] + (if set.contains(i as u32) { 1int } else { 0 })) as u64)
}

/// The sums of two lists of counts.
pub open spec fn summed(a: Seq<u64>, b: Seq<u64>) -> Seq<u64> {
    Seq::new(a.len(), |i: int| (a[i] + b[i]) as u64)
}

/// Sums that fit.
pub open spec fn sums_fit(a: Seq<u64>, b: Seq<u64>) -> bool {
    forall|i: int| 0 <= i < a.len() ==> #[trigger] a[i] + b[i] <= u64::MAX
}

impl Default for BitTf {
    fn default() -> (t: BitTf)
        ensures
            t.wf(),
            t@ == Seq::new(crate::hashing::PLANE as nat, |i: int| 0u64),
    {
        BitTf::new()
    }
}

impl BitTf {
    pub open spec fn wf(&self) -> bool {
        self.inner.wf()
    }

    pub fn new() -> (t: BitTf)
        ensures
            t.wf(),
            t@ == Seq::new(crate::hashing::PLANE as nat, |i: int| 0u64),
    {
        BitTf { inner: TFVec::new() }
    }

    pub fn from_tfvec(inner: TFVec) -> (t: BitTf)
        ensures
            t.inner == inner,
    {
        BitTf { inner }
    }

    /// Copies the counts.
    pub fn copy(&self) -> (t: BitTf)
        ensures
            t@ == self@,
            self.wf() ==> t.wf(),
    {
        BitTf { inner: self.inner.copy() }
    }

    /// Counts one more touch of every member of a set.
    pub fn touch(&mut self, hllset: &HLLSet)
        requires
            old(self).wf(),
            forall|i: int|
                0 <= i < crate::hashing::PLANE && hllset@.contains(i as u32) ==> #[trigger] old(self)@[i] < u64::MAX,
        ensures
            final(self).wf(),
            final(self)@ == bumped(old(self)@, hllset@),
    {
        let ghost before = self@;
        self.inner.increment_from_hllset(hllset, 1);
        proof {
            assert(self@ =~= bumped(before, hllset@));
        }
    }

    /// The count of a bit; zero off the plane.
    pub fn tf(&self, bit: usize) -> (n: u64)
        ensures
            n == (if bit < self@.len() { self@[bit as int] } else { 0 }),
    {
        self.inner.get(bit)
    }

    /// The sum of all counts.
    pub fn total(&self) -> (n: u128)
        requires
            self.wf(),
        ensures
            n == tf::sum_of(self@, crate::hashing::PLANE as nat),
    {
        self.inner.total()
    }

    /// The number of bits touched at all.
    pub fn active_bits(&self) -> (n: usize)
        requires
            self.wf(),
        ensures
            n == tf::positive_in(self@, crate::hashing::PLANE as nat),
    {
        self.inner.active()
    }

    /// Adds the counts of another table.
    pub fn merge(&mut self, other: &BitTf)
        requires
            old(self).wf(),
            other.wf(),
            sums_fit(old(self)@, other@),
        ensures
            final(self).wf(),
            final(self)@ == summed(old(self)@, other@),
    {
        let ghost before = self@;
        self.inner.merge(&other.inner);
        proof {
            assert(self@ =~= summed(before, other@));
        }
    }

    pub fn to_bytes(&self) -> (bytes: Vec<u8>)
        requires
            self.wf(),
        ensures
            bytes@ == tf::tf_bytes(self@),
            bytes@.len() == 262148,
    {
        self.inner.to_bytes()
    }

    pub fn from_bytes(bytes: &[u8]) -> (t: Option<BitTf>)
        ensures
            t is Some <==> tf::valid_tf_bytes(bytes@),
            t is Some ==> t->0.wf() && t->0@ == tf::tf_decoded(bytes@),
    {
        match TFVec::from_bytes(bytes) {
            Some(inner) => Some(BitTf { inner }),
            None => None,
        }
    }

    /// The number of counts.
    pub fn len(&self) -> (n: usize)
        ensures
            n == self@.len(),
    {
        self.inner.len()
    }

    pub fn is_empty(&self) -> (yes: bool)
        ensures
            yes == (self@.len() == 0),
    {
        self.inner.is_empty()
    }
}

/// Counting a set up adds one to the counts of its bits and leaves the others.
pub proof fn bumped_law(counts: Seq<u64>, set: Set<u32>, i: int)
    requires
        0 <= i < counts.len() <= u32::MAX,
        counts[i] < u64::MAX,
    ensures
        bumped(counts, set).len() == counts.len(),
        set.contains(i as u32) ==> bumped(counts, set)[i] == counts[i] + 1,
        !set.contains(i as u32) ==> bumped(counts, set)[i] == counts[i],
{
}

/// Ranked counts hold each counted key once, with its count: higher counts first, keys
/// of one count in byte order.
pub proof fn ranked_counts_law(m: Map<Seq<u8>, u64>, list: Seq<(Seq<u8>, u64)>)
    requires
        lists_counts(list, m),
    ensures
        forall|k: Seq<u8>, n: u64| #[trigger] ranked_counts(m).contains((k, n)) <==> m.dom().contains(k) && m[k] == n,
        forall|i: int, j: int|
            0 <= i < j < ranked_counts(m).len() ==> {
                let a = #[trigger] ranked_counts(m)[i];
                let b = #[trigger] ranked_counts(m)[j];
                a == b || a.1 > b.1 || a.1 == b.1 && order::bytes_less(a.0, b.0)
            },
{
    assert(lists_counts(listed_counts(m), m));
    let l = listed_counts(m);
    let keys = l.map_values(|e: (Seq<u8>, u64)| e.0);
    let r = sorted::count_rank();
    sorted::count_rank_faithful();
    order::ranked_facts(l, r);
    let out = ranked_counts(m);
    assert forall|k: Seq<u8>, n: u64| #[trigger] out.contains((k, n)) <==> m.dom().contains(k) && m[k] == n by {
        if out.contains((k, n)) {
            assert(l.contains((k, n)));
            let i = choose|i: int| 0 <= i < l.len() && l[i] == (k, n);
            assert(keys[i] == k);
            assert(keys.to_set().contains(k));
        }
        if m.dom().contains(k) && m[k] == n {
            assert(keys.to_set().contains(k));
            let i = choose|i: int| 0 <= i < keys.len() && keys[i] == k;
            assert(m[l[i].0] == l[i].1);
            assert(l[i] == (k, n));
            assert(l.contains((k, n)));
        }
    }
    assert forall|i: int, j: int| 0 <= i < j < out.len() implies ({
        let a = #[trigger] out[i];
        let b = #[trigger] out[j];
        a == b || a.1 > b.1 || a.1 == b.1 && order::bytes_less(a.0, b.0)
    }) by {
        let a = out[i];
        let b = out[j];
        assert(!order::key_less(r(b), r(a)));
        lut::row_order(-(b.1 as int), order::ints(b.0), -(a.1 as int), order::ints(a.0));
        order::bytes_total(a.0, b.0);
    }
}

} // verus!
