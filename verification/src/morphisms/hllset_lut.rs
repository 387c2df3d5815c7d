//! The registry of preserved HLLSets: content keys with their touch counts.

use vstd::prelude::*;

use crate::sorted::Key;
use crate::sorted::SortedMap;
use crate::order;
use crate::sorted;
use crate::text;
use crate::tf;

verus! {

/// Touch counts by content key.
#[derive(Clone, Debug, PartialEq, Eq)]
pub struct HllsetLut {
    map: SortedMap<String, u64>,
}

/// The entry of a key under a name.
pub open spec fn named(name: Seq<char>, key: Seq<char>) -> Seq<char> {
    name + " "@ + key
}

/// The byte strings of a list of keys.
pub open spec fn key_bytes_of(keys: Seq<String>) -> Seq<Seq<u8>> {
    keys.map_values(|k: String| text::utf8(k@))
}

/// The pointwise maximum of two tables of counts.
pub open spec fn pointwise_max(a: Map<Seq<u8>, u64>, b: Map<Seq<u8>, u64>) -> Map<Seq<u8>, u64> {
    Map::new(
        |k: Seq<u8>| a.dom().contains(k) || b.dom().contains(k),
        |k: Seq<u8>|
            {
                let x = tf::count_in(a, k);
                let y = tf::count_in(b, k);
                (if x >= y { x } else { y }) as u64
            },
    )
}

/// The pointwise maximum is idempotent, commutative and associative.
pub proof fn pointwise_max_laws(a: Map<Seq<u8>, u64>, b: Map<Seq<u8>, u64>, c: Map<Seq<u8>, u64>)
    ensures
        pointwise_max(a, a) == a,
        pointwise_max(a, b) == pointwise_max(b, a),
        pointwise_max(pointwise_max(a, b), c) == pointwise_max(a, pointwise_max(b, c)),
{
    assert(pointwise_max(a, a) =~= a);
    assert(pointwise_max(a, b) =~= pointwise_max(b, a));
    assert(pointwise_max(pointwise_max(a, b), c) =~= pointwise_max(a, pointwise_max(b, c)));
}

impl View for HllsetLut {
    type V = Map<Seq<u8>, u64>;

    closed spec fn view(&self) -> Map<Seq<u8>, u64> {
        self.map@
    }
}

impl HllsetLut {
    pub closed spec fn wf(&self) -> bool {
        self.map.wf()
    }

    /// The entries in key order.
    pub closed spec fn entries(&self) -> Seq<(Seq<u8>, u64)> {
        self.map.entries@.map_values(sorted::counted::<String>())
    }

    /// The touch count of a key.
    pub open spec fn touches(&self, key: Seq<char>) -> nat {
        tf::count_in(self@, text::utf8(key))
    }

    /// The entries list each key of the map once, ascending, with its count.
    pub proof fn entries_facts(&self)
        requires
            self.wf(),
        ensures
            forall|i: int, j: int|
                0 <= i < j < self.entries().len() ==> order::bytes_less((#[trigger] self.entries()[i]).0, (#[trigger] self.entries()[j]).0),
            forall|i: int|
                0 <= i < self.entries().len() ==> self@.dom().contains((#[trigger] self.entries()[i]).0)
                    && self@[self.entries()[i].0] == self.entries()[i].1,
            forall|k: Seq<u8>|
                #[trigger] self@.dom().contains(k) ==> exists|i: int| 0 <= i < self.entries().len() && (#[trigger] self.entries()[i]).0 == k,
    {
        self.map.entry_facts();
        let e = self.map.entries@;
        assert forall|i: int, j: int| 0 <= i < j < self.entries().len() implies order::bytes_less(
            (#[trigger] self.entries()[i]).0,
            (#[trigger] self.entries()[j]).0,
        ) by {
            assert(order::bytes_less(e[i].0.key(), e[j].0.key()));
        }
        assert forall|i: int| 0 <= i < self.entries().len() implies self@.dom().contains((#[trigger] self.entries()[i]).0)
            && self@[self.entries()[i].0] == self.entries()[i].1 by {
            assert(self.map@.dom().contains(e[i].0.key()));
        }
        assert forall|k: Seq<u8>| #[trigger] self@.dom().contains(k) implies exists|i: int|
            0 <= i < self.entries().len() && (#[trigger] self.entries()[i]).0 == k by {
            let i = sorted::slot(e, k);
            assert(self.entries()[i].0 == k);
        }
    }

    pub fn new() -> (l: HllsetLut)
        ensures
            l.wf(),
            l@ == Map::<Seq<u8>, u64>::empty(),
            l.entries().len() == 0,
    {
        HllsetLut { map: SortedMap::new() }
    }

    /// Registers a key; a key that is there keeps its count.
    pub fn register(&mut self, key: &str)
        requires
            old(self).wf(),
        ensures
            final(self).wf(),
            final(self)@ == (if old(self)@.dom().contains(text::utf8(key@)) {
                old(self)@
            } else {
                old(self)@.insert(text::utf8(key@), 0)
            }),
    {
        if !self.map.contains(key.as_bytes()) {
            self.map.insert(text::copy_str(key), 0);
        }
    }

    /// Counts one more touch of a key, registering it first where needed.
    pub fn touch(&mut self, key: &str)
        requires
            old(self).wf(),
            old(self).touches(key@) < u64::MAX,
        ensures
            final(self).wf(),
            final(self)@ == old(self)@.insert(text::utf8(key@), (old(self).touches(key@) + 1) as u64),
    {
        let n = self.th(key);
        self.map.insert(text::copy_str(key), n + 1);
    }

    /// Touches each key of a list in turn.
    pub fn touch_many(&mut self, keys: &Vec<String>)
        requires
            old(self).wf(),
            forall|k: Seq<u8>|
                tf::occurrences(key_bytes_of(keys@), k) > 0 ==> #[trigger] tf::count_in(old(self)@, k) + tf::occurrences(
                    key_bytes_of(keys@),
                    k,
                ) <= u64::MAX,
        ensures
            final(self).wf(),
            forall|k: Seq<u8>|
                #[trigger] tf::count_in(final(self)@, k) == tf::count_in(old(self)@, k) + tf::occurrences(key_bytes_of(keys@), k),
            final(self)@.dom() == old(self)@.dom().union(key_bytes_of(keys@).to_set()),
    {
        let ghost before = self@;
        let ghost all = key_bytes_of(keys@);
        let mut i: usize = 0;
        proof {
            assert(all.take(0) =~= Seq::<Seq<u8>>::empty());
            assert(self@.dom() =~= before.dom().union(all.take(0).to_set()));
        }
        while i < keys.len()
            invariant
                i <= keys.len(),
                self.wf(),
                all == key_bytes_of(keys@),
                forall|k: Seq<u8>|
                    tf::occurrences(all, k) > 0 ==> #[trigger] tf::count_in(before, k) + tf::occurrences(all, k) <= u64::MAX,
                forall|k: Seq<u8>|
                    #[trigger] tf::count_in(self@, k) == tf::count_in(before, k) + tf::occurrences(all.take(i as int), k),
                self@.dom() == before.dom().union(all.take(i as int).to_set()),
            decreases keys.len() - i,
        {
            let ghost k = text::utf8(keys@[i as int]@);
            proof {
                assert(all[i as int] == k);
                assert(all.take(i as int + 1).drop_last() =~= all.take(i as int));
                tf::occurrences_grow(all, i as int + 1, k);
                assert(tf::count_in(before, k) + tf::occurrences(all, k) <= u64::MAX);
                assert(all.take(i as int + 1) =~= all.take(i as int).push(k));
                set_of_push(all.take(i as int), k);
            }
            let ghost mid = self@;
            self.touch(keys[i].as_str());
            proof {
                assert(all.take(i as int + 1).last() == k);
                assert forall|q: Seq<u8>| #[trigger] tf::count_in(self@, q) == tf::count_in(before, q) + tf::occurrences(
                    all.take(i as int + 1),
                    q,
                ) by {
                    assert(tf::count_in(mid, q) == tf::count_in(before, q) + tf::occurrences(all.take(i as int), q));
                }
                assert(self@.dom() =~= before.dom().union(all.take(i as int + 1).to_set()));
            }
            i = i + 1;
        }
        proof {
            assert(all.take(i as int) =~= all);
        }
    }

    /// The touch count of a key; zero where it is not registered.
    pub fn th(&self, key: &str) -> (n: u64)
        requires
            self.wf(),
        ensures
            n == self.touches(key@),
    {
        match self.map.get(key.as_bytes()) {
            Some(n) => *n,
            None => 0,
        }
    }

    /// Registers a key under a name.
    pub fn register_named(&mut self, name: &str, key: &str)
        requires
            old(self).wf(),
        ensures
            final(self).wf(),
            final(self)@ == (if old(self)@.dom().contains(text::utf8(named(name@, key@))) {
                old(self)@
            } else {
                old(self)@.insert(text::utf8(named(name@, key@)), 0)
            }),
    {
        let entry = text::concat3(name, " ", key);
        self.register(entry.as_str());
    }

    /// Counts one more touch of a key under a name.
    pub fn touch_named(&mut self, name: &str, key: &str)
        requires
            old(self).wf(),
            old(self).touches(named(name@, key@)) < u64::MAX,
        ensures
            final(self).wf(),
            final(self)@ == old(self)@.insert(
                text::utf8(named(name@, key@)),
                (old(self).touches(named(name@, key@)) + 1) as u64,
            ),
    {
        let entry = text::concat3(name, " ", key);
        self.touch(entry.as_str());
    }

    /// The touch count of a key under a name.
    pub fn th_named(&self, name: &str, key: &str) -> (n: u64)
        requires
            self.wf(),
        ensures
            n == self.touches(named(name@, key@)),
    {
        let entry = text::concat3(name, " ", key);
        self.th(entry.as_str())
    }

    /// The number of registered keys.
    pub fn len(&self) -> (n: usize)
        requires
            self.wf(),
        ensures
            n == self@.dom().len(),
            n == self.entries().len(),
    {
        proof {
            self.map.dom_facts();
        }
        self.map.len()
    }

    pub fn is_empty(&self) -> (yes: bool)
        requires
            self.wf(),
        ensures
            yes == (self@ == Map::<Seq<u8>, u64>::empty()),
    {
        proof {
            self.map.dom_facts();
            if self@.dom().len() == 0 {
                self@.dom().lemma_len0_is_empty();
                assert(self@ =~= Map::<Seq<u8>, u64>::empty());
            }
        }
        self.map.len() == 0
    }

    /// The keys with their counts, highest count first, then by key.
    pub fn ranked(&self) -> (out: Vec<(String, u64)>)
        ensures
            out@.map_values(sorted::counted::<String>()) == crate::order::ranked(self.entries(), sorted::count_rank()),
    {
        sorted::rank_counts(&self.map)
    }

    /// Takes the other registry in: the higher of the two counts stays.
    pub fn merge(&mut self, other: &HllsetLut)
        requires
            old(self).wf(),
            other.wf(),
        ensures
            final(self).wf(),
            final(self)@ == pointwise_max(old(self)@, other@),
    {
        let ghost before = self@;
        let ghost e = other.map.entries@;
        let mut i: usize = 0;
        proof {
            other.map.entry_facts();
        }
        while i < other.map.entries.len()
            invariant
                i <= other.map.entries.len(),
                self.wf(),
                other.wf(),
                e == other.map.entries@,
                forall|j: int|
                    0 <= j < e.len() ==> other@.dom().contains(#[trigger] e[j].0.key()) && other@[e[j].0.key()] == e[j].1
                        && sorted::slot(e, e[j].0.key()) == j,
                forall|k: Seq<u8>|
                    #[trigger] self@.dom().contains(k) == (before.dom().contains(k) || (other@.dom().contains(k)
                        && sorted::slot(e, k) < i)),
                forall|k: Seq<u8>|
                    #[trigger] self@.dom().contains(k) ==> self@[k] == (if other@.dom().contains(k) && sorted::slot(e, k) < i {
                        pointwise_max(before, other@)[k]
                    } else {
                        before[k]
                    }),
            decreases other.map.entries.len() - i,
        {
            let ghost k = e[i as int].0.key();
            let n = other.map.entries[i].1;
            proof {
                assert(sorted::slot(e, k) == i);
                assert(self@.dom().contains(k) == before.dom().contains(k));
                assert forall|q: Seq<u8>| other@.dom().contains(q) && sorted::slot(e, q) == i implies q == k by {
                    assert(sorted::has_key(e, q));
                    assert(e[sorted::slot(e, q)].0.key() == q);
                }
            }
            let cur = self.th(other.map.entries[i].0.as_str());
            let top: u64 = if cur >= n {
                cur
            } else {
                n
            };
            self.map.insert(other.map.entries[i].0.clone(), top);
            i = i + 1;
        }
        proof {
            assert forall|k: Seq<u8>| other@.dom().contains(k) implies sorted::slot(e, k) < e.len() by {
                assert(sorted::has_key(e, k));
                assert(e[sorted::slot(e, k)].0.key() == k);
            }
            assert(self@ =~= pointwise_max(before, other@));
        }
    }
}

/// The registry after named keys were registered and touched once each.
pub open spec fn touched_all(names: Seq<Seq<char>>, keys: Seq<Seq<char>>) -> Map<Seq<u8>, u64>
    decreases names.len(),
{
    if names.len() == 0 {
        Map::empty()
    } else {
        touched_all(names.drop_last(), keys.drop_last()).insert(text::utf8(named(names.last(), keys.last())), 1)
    }
}

/// No two of the first `n` named keys share an entry.
pub open spec fn entries_differ(names: Seq<Seq<char>>, keys: Seq<Seq<char>>) -> bool {
    forall|i: int, j: int|
        0 <= i < j < names.len() ==> #[trigger] named(names[i], keys[i]) != #[trigger] named(names[j], keys[j])
}

proof fn touched_all_misses(names: Seq<Seq<char>>, keys: Seq<Seq<char>>, n: int, entry: Seq<char>)
    requires
        0 <= n <= names.len(),
        names.len() == keys.len(),
        forall|i: int| 0 <= i < n ==> #[trigger] named(names[i], keys[i]) != entry,
    ensures
        !touched_all(names.take(n), keys.take(n)).dom().contains(text::utf8(entry)),
    decreases n,
{
    if n > 0 {
        touched_all_misses(names, keys, n - 1, entry);
        assert(names.take(n).drop_last() =~= names.take(n - 1));
        assert(keys.take(n).drop_last() =~= keys.take(n - 1));
        assert(named(names[n - 1], keys[n - 1]) != entry);
        if text::utf8(named(names[n - 1], keys[n - 1])) == text::utf8(entry) {
            text::utf8_injective(named(names[n - 1], keys[n - 1]), entry);
        }
    }
}

/// Registers and touches named keys in a fresh registry.
pub fn preserve(names: &Vec<String>, keys: &Vec<String>) -> (l: HllsetLut)
    requires
        names@.len() == keys@.len(),
        entries_differ(text::texts(names@), text::texts(keys@)),
    ensures
        l.wf(),
        l@ == touched_all(text::texts(names@), text::texts(keys@)),
{
    let mut l = HllsetLut::new();
    let ghost a = text::texts(names@);
    let ghost b = text::texts(keys@);
    let mut i: usize = 0;
    proof {
        assert(l@ =~= touched_all(a.take(0), b.take(0)));
    }
    while i < names.len()
        invariant
            i <= names.len(),
            names@.len() == keys@.len(),
            a == text::texts(names@),
            b == text::texts(keys@),
            entries_differ(a, b),
            l.wf(),
            l@ == touched_all(a.take(i as int), b.take(i as int)),
        decreases names.len() - i,
    {
        proof {
            assert forall|j: int| 0 <= j < i implies #[trigger] named(a[j], b[j]) != named(a[i as int], b[i as int]) by {}
            touched_all_misses(a, b, i as int, named(a[i as int], b[i as int]));
        }
        let ghost before = l@;
        l.register_named(names[i].as_str(), keys[i].as_str());
        l.touch_named(names[i].as_str(), keys[i].as_str());
        proof {
            assert(a.take(i as int + 1).drop_last() =~= a.take(i as int));
            assert(b.take(i as int + 1).drop_last() =~= b.take(i as int));
            assert(a.take(i as int + 1).last() == names@[i as int]@);
            assert(b.take(i as int + 1).last() == keys@[i as int]@);
            assert(l@ =~= touched_all(a.take(i as int + 1), b.take(i as int + 1)));
        }
        i = i + 1;
    }
    proof {
        assert(a.take(i as int) =~= a);
        assert(b.take(i as int) =~= b);
    }
    l
}

/// The members of a list with one more item.
pub proof fn set_of_push<A>(s: Seq<A>, x: A)
    ensures
        s.push(x).to_set() == s.to_set().insert(x),
{
    assert forall|y: A| s.push(x).to_set().contains(y) == s.to_set().insert(x).contains(y) by {
        if s.push(x).contains(y) {
            let i = choose|i: int| 0 <= i < s.push(x).len() && s.push(x)[i] == y;
            if i < s.len() {
                assert(s[i] == y);
            }
        }
        if s.contains(y) {
            let i = choose|i: int| 0 <= i < s.len() && s[i] == y;
            assert(s.push(x)[i] == y);
        }
        assert(s.push(x)[s.len() as int] == x);
    }
    assert(s.push(x).to_set() =~= s.to_set().insert(x));
}

/// Every name is touched once with its key, and nothing else is.
pub proof fn touched_law(names: Seq<Seq<char>>, keys: Seq<Seq<char>>, k: Seq<u8>)
    requires
        names.len() == keys.len(),
    ensures
        touched_all(names, keys).dom().contains(k) <==> exists|i: int|
            0 <= i < names.len() && k == text::utf8(#[trigger] names[i] + " "@ + keys[i]),
        touched_all(names, keys).dom().contains(k) ==> touched_all(names, keys)[k] == 1,
    decreases names.len(),
{
    if names.len() > 0 {
        let n = names.len() - 1;
        touched_law(names.drop_last(), keys.drop_last(), k);
        assert(names[n] == names.last() && keys[n] == keys.last());
        if exists|i: int| 0 <= i < n && k == text::utf8(#[trigger] names.drop_last()[i] + " "@ + keys.drop_last()[i]) {
            let i = choose|i: int| 0 <= i < n && k == text::utf8(#[trigger] names.drop_last()[i] + " "@ + keys.drop_last()[i]);
            assert(names[i] == names.drop_last()[i] && keys[i] == keys.drop_last()[i]);
        }
        if exists|i: int| 0 <= i < names.len() && k == text::utf8(#[trigger] names[i] + " "@ + keys[i]) {
            let i = choose|i: int| 0 <= i < names.len() && k == text::utf8(#[trigger] names[i] + " "@ + keys[i]);
            if i < n {
                assert(names.drop_last()[i] == names[i] && keys.drop_last()[i] == keys[i]);
            }
        }
    }
}

} // verus!
