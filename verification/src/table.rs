//! A table of values by name, in the byte order of the names.

use vstd::prelude::*;

use crate::order::Keyed;
use crate::order::Side;
use crate::sorted::Key;
use crate::sorted::SortedMap;
use crate::order;
use crate::sorted;
use crate::text;
use crate::lut;

verus! {

/// Values by name.
#[derive(Clone, Debug, PartialEq, Eq)]
pub struct TextTable<V> {
    pub map: SortedMap<String, V>,
}

impl<V> View for TextTable<V> {
    type V = Map<Seq<char>, V>;

    open spec fn view(&self) -> Map<Seq<char>, V> {
        Map::new(|k: Seq<char>| self.map@.dom().contains(text::utf8(k)), |k: Seq<char>| self.map@[text::utf8(k)])
    }
}

impl<V> TextTable<V> {
    pub open spec fn wf(&self) -> bool {
        self.map.wf()
    }

    /// The names in order.
    pub open spec fn names(&self) -> Seq<Seq<char>> {
        self.map.entries@.map_values(|e: (String, V)| e.0@)
    }

    /// The names list each name of the table once, ascending, with its value.
    pub proof fn facts(&self)
        requires
            self.wf(),
        ensures
            self@.dom().finite(),
            self@.dom().len() == self.map.entries@.len(),
            self.names().len() == self.map.entries@.len(),
            self.names().to_set() == self@.dom(),
            self.names().no_duplicates(),
            ascending_names(self.names()),
            forall|i: int|
                0 <= i < self.map.entries@.len() ==> self@.dom().contains((#[trigger] self.map.entries@[i]).0@)
                    && self@[self.map.entries@[i].0@] == self.map.entries@[i].1 && self.names()[i]
                    == self.map.entries@[i].0@,
    {
        self.map.dom_facts();
        self.map.entry_facts();
        let e = self.map.entries@;
        let n = self.names();
        assert forall|i: int| 0 <= i < e.len() implies self@.dom().contains((#[trigger] e[i]).0@) && self@[e[i].0@]
            == e[i].1 && n[i] == e[i].0@ by {
            assert(e[i].0.key() == text::utf8(e[i].0@));
            assert(self.map@.dom().contains(e[i].0.key()));
        }
        assert forall|i: int, j: int| 0 <= i < j < n.len() implies order::bytes_less(
            text::utf8(#[trigger] n[i]),
            text::utf8(#[trigger] n[j]),
        ) by {
            assert(order::bytes_less(e[i].0.key(), e[j].0.key()));
        }
        assert forall|i: int, j: int| 0 <= i < n.len() && 0 <= j < n.len() && i != j implies n[i] != n[j] by {
            order::bytes_irreflexive(text::utf8(n[i]));
            if i < j {
                assert(order::bytes_less(text::utf8(n[i]), text::utf8(n[j])));
            } else {
                assert(order::bytes_less(text::utf8(n[j]), text::utf8(n[i])));
            }
        }
        assert forall|k: Seq<char>| n.to_set().contains(k) == self@.dom().contains(k) by {
            if n.contains(k) {
                let i = choose|i: int| 0 <= i < n.len() && n[i] == k;
                assert(e[i].0@ == k);
            }
            if self@.dom().contains(k) {
                let i = sorted::slot(e, text::utf8(k));
                assert(e[i].0.key() == text::utf8(k));
                text::utf8_injective(e[i].0@, k);
                assert(n[i] == k);
            }
        }
        assert(n.to_set() =~= self@.dom());
        vstd::seq_lib::seq_to_set_is_finite(n);
        n.unique_seq_to_set();
    }

    pub fn new() -> (t: TextTable<V>)
        ensures
            t.wf(),
            t@ == Map::<Seq<char>, V>::empty(),
    {
        let t = TextTable { map: SortedMap::new() };
        proof {
            assert(t@ =~= Map::<Seq<char>, V>::empty());
        }
        t
    }

    /// Puts a value under a name.
    pub fn insert(&mut self, name: String, value: V)
        requires
            old(self).wf(),
        ensures
            final(self).wf(),
            final(self)@ == old(self)@.insert(name@, value),
    {
        let ghost before = self@;
        let ghost n = name@;
        self.map.insert(name, value);
        proof {
            assert forall|x: Seq<char>| #[trigger] text::utf8(x) == text::utf8(n) implies x == n by {
                text::utf8_injective(x, n);
            }
            assert(self@ =~= before.insert(n, value));
        }
    }

    /// Removes the value under a name; whether there was one.
    pub fn remove(&mut self, name: &str) -> (there: bool)
        requires
            old(self).wf(),
        ensures
            final(self).wf(),
            there == old(self)@.dom().contains(name@),
            final(self)@ == old(self)@.remove(name@),
    {
        let ghost before = self@;
        let there = self.map.remove(name.as_bytes());
        proof {
            assert forall|x: Seq<char>| #[trigger] text::utf8(x) == text::utf8(name@) implies x == name@ by {
                text::utf8_injective(x, name@);
            }
            assert(self@ =~= before.remove(name@));
        }
        there
    }

    /// The value under a name.
    pub fn get(&self, name: &str) -> (v: Option<&V>)
        requires
            self.wf(),
        ensures
            v is Some <==> self@.dom().contains(name@),
            v is Some ==> *v->0 == self@[name@],
    {
        self.map.get(name.as_bytes())
    }

    /// Whether there is a value under a name.
    pub fn contains(&self, name: &str) -> (yes: bool)
        requires
            self.wf(),
        ensures
            yes == self@.dom().contains(name@),
    {
        self.map.contains(name.as_bytes())
    }

    /// The number of names.
    pub fn len(&self) -> (n: usize)
        requires
            self.wf(),
        ensures
            n == self@.dom().len(),
            n == self.names().len(),
    {
        proof {
            self.facts();
        }
        self.map.len()
    }

    pub fn is_empty(&self) -> (yes: bool)
        requires
            self.wf(),
        ensures
            yes == (self@ == Map::<Seq<char>, V>::empty()),
    {
        proof {
            self.facts();
            if self.map.entries@.len() == 0 {
                self@.dom().lemma_len0_is_empty();
                assert(self@ =~= Map::<Seq<char>, V>::empty());
            }
        }
        self.map.len() == 0
    }

    /// The entry at a place in the order of names.
    pub fn at(&self, i: usize) -> (e: (&String, &V))
        requires
            self.wf(),
            i < self.names().len(),
        ensures
            e.0@ == self.names()[i as int],
            *e.1 == self@[self.names()[i as int]],
    {
        proof {
            self.facts();
            assert(self.map.entries@[i as int].0@ == self.names()[i as int]);
        }
        (&self.map.entries[i].0, &self.map.entries[i].1)
    }
}

/// Names in strictly ascending byte order.
pub open spec fn ascending_names(s: Seq<Seq<char>>) -> bool {
    forall|i: int, j: int| 0 <= i < j < s.len() ==> order::bytes_less(text::utf8(#[trigger] s[i]), text::utf8(#[trigger] s[j]))
}

impl Keyed for String {
    open spec fn rank(&self) -> Seq<Seq<int>> {
        seq![order::ints(text::utf8(self@))]
    }

    fn before(&self, other: &Self) -> (first: bool) {
        let side = order::compare_bytes(self.as_str().as_bytes(), other.as_str().as_bytes());
        proof {
            one_column_order(text::utf8(self@), text::utf8(other@));
        }
        match side {
            Side::Less => true,
            _ => false,
        }
    }
}

proof fn one_column_order(a: Seq<u8>, b: Seq<u8>)
    ensures
        order::key_less(seq![order::ints(a)], seq![order::ints(b)]) == order::bytes_less(a, b),
{
    let k = seq![order::ints(a)];
    let l = seq![order::ints(b)];
    if order::ints(a) == order::ints(b) {
        order::lex_irreflexive(order::ints(a));
        reveal_with_fuel(order::key_less, 2);
        assert(k.drop_first() =~= Seq::<Seq<int>>::empty());
        assert(l.drop_first() =~= Seq::<Seq<int>>::empty());
    }
}

/// The rank of a text: its bytes.
pub open spec fn text_rank() -> spec_fn(Seq<char>) -> Seq<Seq<int>> {
    |s: Seq<char>| seq![order::ints(text::utf8(s))]
}

pub proof fn text_rank_faithful()
    ensures
        order::faithful(text_rank()),
{
    let r = text_rank();
    assert forall|a: Seq<char>, b: Seq<char>| #[trigger] r(a) == #[trigger] r(b) implies a == b by {
        assert(r(a)[0] == r(b)[0]);
        order::ints_injective(text::utf8(a), text::utf8(b));
        text::utf8_injective(a, b);
    }
}

/// Sorts texts by their bytes.
pub fn sort_texts(list: Vec<String>) -> (sorted: Vec<String>)
    ensures
        text::texts(sorted@) == order::ranked(text::texts(list@), text_rank()),
{
    let ghost items = list@;
    let sorted = order::sort_items(list);
    proof {
        text_rank_faithful();
        order::ranked_images(sorted@, items, |s: String| s@, text_rank());
    }
    sorted
}

/// The names of a table in order.
pub open spec fn listed(m: Map<Seq<char>, Seq<char>>) -> Seq<Seq<char>> {
    choose|l: Seq<Seq<char>>| #[trigger] ascending_names(l) && l.to_set() == m.dom()
}

/// Two ascending lists of the same names are the same list.
pub proof fn ascending_names_unique(a: Seq<Seq<char>>, b: Seq<Seq<char>>)
    requires
        ascending_names(a),
        ascending_names(b),
        a.to_set() == b.to_set(),
    ensures
        a == b,
{
    let f = |s: Seq<char>| text::utf8(s);
    let x = a.map_values(f);
    let y = b.map_values(f);
    assert forall|i: int, j: int| 0 <= i < j < x.len() implies order::bytes_less(#[trigger] x[i], #[trigger] x[j]) by {
        assert(order::bytes_less(text::utf8(a[i]), text::utf8(a[j])));
    }
    assert forall|i: int, j: int| 0 <= i < j < y.len() implies order::bytes_less(#[trigger] y[i], #[trigger] y[j]) by {
        assert(order::bytes_less(text::utf8(b[i]), text::utf8(b[j])));
    }
    assert forall|t: Seq<u8>| x.to_set().contains(t) == y.to_set().contains(t) by {
        if x.contains(t) {
            let i = choose|i: int| 0 <= i < x.len() && x[i] == t;
            assert(a.to_set().contains(a[i]));
            assert(b.contains(a[i]));
            let j = choose|j: int| 0 <= j < b.len() && b[j] == a[i];
            assert(y[j] == t);
        }
        if y.contains(t) {
            let i = choose|i: int| 0 <= i < y.len() && y[i] == t;
            assert(b.to_set().contains(b[i]));
            assert(a.contains(b[i]));
            let j = choose|j: int| 0 <= j < a.len() && a[j] == b[i];
            assert(x[j] == t);
        }
    }
    assert(x.to_set() =~= y.to_set());
    lut::ascending_tokens_unique(x, y);
    assert(a.len() == x.len() && b.len() == y.len());
    assert forall|i: int| 0 <= i < a.len() implies a[i] == b[i] by {
        assert(x[i] == y[i]);
        text::utf8_injective(a[i], b[i]);
    }
    assert(a =~= b);
}

/// Texts by name.
pub open spec fn text_view(m: Map<Seq<char>, String>) -> Map<Seq<char>, Seq<char>> {
    m.map_values(|s: String| s@)
}

impl TextTable<String> {
    /// The names of the table are its listing.
    pub proof fn listed_names(&self)
        requires
            self.wf(),
        ensures
            self.names() == listed(text_view(self@)),
            ascending_names(self.names()),
            self.names().to_set() == text_view(self@).dom(),
    {
        self.facts();
        let m = text_view(self@);
        assert(m.dom() =~= self@.dom());
        assert(ascending_names(self.names()) && self.names().to_set() == m.dom());
        let l = listed(m);
        assert(ascending_names(l) && l.to_set() == m.dom());
        ascending_names_unique(self.names(), l);
    }

    /// Takes over the entries of another table; they win over entries here.
    pub fn extend(&mut self, other: TextTable<String>)
        requires
            old(self).wf(),
            other.wf(),
        ensures
            final(self).wf(),
            text_view(final(self)@) == text_view(old(self)@).union_prefer_right(text_view(other@)),
    {
        let ghost before = text_view(self@);
        let ghost theirs = text_view(other@);
        let ghost names = other.names();
        let mut i: usize = 0;
        proof {
            other.facts();
            assert(text_view(self@) =~= before.union_prefer_right(theirs.restrict(names.take(0).to_set())));
        }
        while i < other.len()
            invariant
                i <= names.len(),
                self.wf(),
                other.wf(),
                names == other.names(),
                names.to_set() == other@.dom(),
                theirs == text_view(other@),
                text_view(self@) == before.union_prefer_right(theirs.restrict(names.take(i as int).to_set())),
            decreases names.len() - i,
        {
            let e = other.at(i);
            let ghost mid = text_view(self@);
            let ghost n = names[i as int];
            let value = e.1.clone();
            self.insert(e.0.clone(), value);
            proof {
                assert(names.to_set().contains(n));
                assert(theirs[n] == value@);
                assert(names.take(i as int + 1) =~= names.take(i as int).push(n));
                name_set_push(names.take(i as int), n);
                assert(text_view(self@) =~= mid.insert(n, value@));
                assert(text_view(self@) =~= before.union_prefer_right(
                    theirs.restrict(names.take(i as int + 1).to_set()),
                ));
            }
            i = i + 1;
        }
        proof {
            assert(names.take(i as int) =~= names);
            assert(theirs.restrict(names.to_set()) =~= theirs);
        }
    }
}

proof fn name_set_push(s: Seq<Seq<char>>, x: Seq<char>)
    ensures
        s.push(x).to_set() == s.to_set().insert(x),
{
    let p = s.push(x);
    assert forall|q: Seq<char>| p.to_set().contains(q) == s.to_set().insert(x).contains(q) by {
        if p.contains(q) {
            let i = choose|i: int| 0 <= i < p.len() && p[i] == q;
            if i < s.len() {
                assert(s[i] == q);
            }
        }
        if s.contains(q) {
            let i = choose|i: int| 0 <= i < s.len() && s[i] == q;
            assert(p[i] == q);
        }
        assert(p[s.len() as int] == x);
    }
    assert(p.to_set() =~= s.to_set().insert(x));
}

} // verus!
