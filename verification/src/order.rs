//! Orders on byte strings and on composite sort keys.
//!
//! A sort key is a list of integer lists, compared lexicographically at both
//! levels. Every ordering of the library (tokens by weight, paths by score,
//! table rows by column) is the order of some sort key.

use vstd::prelude::*;
use vstd::relations::*;
use vstd::seq_lib::*;

verus! {

/// Lexicographic order on integer lists; a proper prefix comes first.
pub open spec fn lex_less(a: Seq<int>, b: Seq<int>) -> bool
    decreases a.len(),
{
    if b.len() == 0 {
        false
    } else if a.len() == 0 {
        true
    } else if a[0] != b[0] {
        a[0] < b[0]
    } else {
        lex_less(a.drop_first(), b.drop_first())
    }
}

/// Lexicographic order on sort keys.
pub open spec fn key_less(a: Seq<Seq<int>>, b: Seq<Seq<int>>) -> bool
    decreases a.len(),
{
    if b.len() == 0 {
        false
    } else if a.len() == 0 {
        true
    } else if a[0] != b[0] {
        lex_less(a[0], b[0])
    } else {
        key_less(a.drop_first(), b.drop_first())
    }
}

/// The bytes of a string as integers.
pub open spec fn ints(s: Seq<u8>) -> Seq<int> {
    s.map_values(|b: u8| b as int)
}

/// The byte order of std's strings and byte vectors.
pub open spec fn bytes_less(a: Seq<u8>, b: Seq<u8>) -> bool {
    lex_less(ints(a), ints(b))
}

pub proof fn lex_irreflexive(a: Seq<int>)
    ensures
        !lex_less(a, a),
    decreases a.len(),
{
    if a.len() > 0 {
        lex_irreflexive(a.drop_first());
    }
}

pub proof fn lex_transitive(a: Seq<int>, b: Seq<int>, c: Seq<int>)
    requires
        lex_less(a, b),
        lex_less(b, c),
    ensures
        lex_less(a, c),
    decreases a.len(),
{
    if a.len() > 0 && a[0] == b[0] && b[0] == c[0] {
        lex_transitive(a.drop_first(), b.drop_first(), c.drop_first());
    }
}

pub proof fn lex_total(a: Seq<int>, b: Seq<int>)
    ensures
        a == b || lex_less(a, b) || lex_less(b, a),
    decreases a.len(),
{
    if a.len() > 0 && b.len() > 0 && a[0] == b[0] {
        lex_total(a.drop_first(), b.drop_first());
        if a.drop_first() == b.drop_first() {
            assert(a =~= seq![a[0]] + a.drop_first());
            assert(b =~= seq![b[0]] + b.drop_first());
        }
    } else if a.len() == 0 && b.len() == 0 {
        assert(a =~= b);
    }
}

pub proof fn key_irreflexive(a: Seq<Seq<int>>)
    ensures
        !key_less(a, a),
    decreases a.len(),
{
    if a.len() > 0 {
        key_irreflexive(a.drop_first());
    }
}

pub proof fn key_transitive(a: Seq<Seq<int>>, b: Seq<Seq<int>>, c: Seq<Seq<int>>)
    requires
        key_less(a, b),
        key_less(b, c),
    ensures
        key_less(a, c),
    decreases a.len(),
{
    if a.len() > 0 {
        if a[0] == b[0] && b[0] == c[0] {
            key_transitive(a.drop_first(), b.drop_first(), c.drop_first());
        } else if a[0] != b[0] && b[0] != c[0] {
            lex_transitive(a[0], b[0], c[0]);
            lex_irreflexive(a[0]);
        }
    }
}

pub proof fn key_total(a: Seq<Seq<int>>, b: Seq<Seq<int>>)
    ensures
        a == b || key_less(a, b) || key_less(b, a),
    decreases a.len(),
{
    if a.len() > 0 && b.len() > 0 {
        if a[0] == b[0] {
            key_total(a.drop_first(), b.drop_first());
            if a.drop_first() == b.drop_first() {
                assert(a =~= seq![a[0]] + a.drop_first());
                assert(b =~= seq![b[0]] + b.drop_first());
            }
        } else {
            lex_total(a[0], b[0]);
        }
    } else if a.len() == 0 && b.len() == 0 {
        assert(a =~= b);
    }
}

/// Two byte strings with the same integers are the same string.
pub proof fn ints_injective(a: Seq<u8>, b: Seq<u8>)
    requires
        ints(a) == ints(b),
    ensures
        a == b,
{
    assert(a.len() == ints(a).len() && b.len() == ints(b).len());
    assert forall|i: int| 0 <= i < a.len() implies a[i] == b[i] by {
        assert(ints(a)[i] == a[i] as int);
        assert(ints(b)[i] == b[i] as int);
    }
    assert(a =~= b);
}

pub proof fn bytes_irreflexive(a: Seq<u8>)
    ensures
        !bytes_less(a, a),
{
    lex_irreflexive(ints(a));
}

pub proof fn bytes_transitive(a: Seq<u8>, b: Seq<u8>, c: Seq<u8>)
    requires
        bytes_less(a, b),
        bytes_less(b, c),
    ensures
        bytes_less(a, c),
{
    lex_transitive(ints(a), ints(b), ints(c));
}

pub proof fn bytes_total(a: Seq<u8>, b: Seq<u8>)
    ensures
        a == b || bytes_less(a, b) || bytes_less(b, a),
{
    lex_total(ints(a), ints(b));
    if ints(a) == ints(b) {
        ints_injective(a, b);
    }
}

/// The outcome of a three-way comparison.
#[derive(Clone, Copy, Debug, PartialEq, Eq, Structural)]
pub enum Side {
    Less,
    Same,
    Greater,
}

/// Compares two byte strings in byte order.
pub fn compare_bytes(a: &[u8], b: &[u8]) -> (side: Side)
    ensures
        side == Side::Less <==> bytes_less(a@, b@),
        side == Side::Same <==> a@ == b@,
        side == Side::Greater <==> bytes_less(b@, a@),
{
    let mut i: usize = 0;
    proof {
        assert(a@.skip(0) =~= a@);
        assert(b@.skip(0) =~= b@);
    }
    while i < a.len() && i < b.len()
        invariant
            i <= a.len(),
            i <= b.len(),
            forall|j: int| 0 <= j < i ==> a@[j] == b@[j],
            bytes_less(a@, b@) == bytes_less(a@.skip(i as int), b@.skip(i as int)),
            bytes_less(b@, a@) == bytes_less(b@.skip(i as int), a@.skip(i as int)),
        decreases a.len() - i,
    {
        proof {
            let x = ints(a@.skip(i as int));
            let y = ints(b@.skip(i as int));
            assert(x[0] == a@[i as int] as int);
            assert(y[0] == b@[i as int] as int);
            assert(x.drop_first() =~= ints(a@.skip(i as int + 1)));
            assert(y.drop_first() =~= ints(b@.skip(i as int + 1)));
        }
        if a[i] < b[i] {
            proof {
                assert(a@[i as int] != b@[i as int]);
            }
            return Side::Less;
        }
        if b[i] < a[i] {
            return Side::Greater;
        }
        i = i + 1;
    }
    proof {
        assert(ints(a@.skip(i as int)).len() == a.len() - i);
        assert(ints(b@.skip(i as int)).len() == b.len() - i);
    }
    if i < b.len() {
        Side::Less
    } else if i < a.len() {
        Side::Greater
    } else {
        proof {
            assert(a@ =~= b@);
        }
        Side::Same
    }
}

/// Whether two byte strings are equal.
pub fn bytes_equal(a: &[u8], b: &[u8]) -> (same: bool)
    ensures
        same == (a@ == b@),
{
    match compare_bytes(a, b) {
        Side::Same => true,
        _ => false,
    }
}

/// Items with a sort key.
pub trait Keyed: Sized {
    /// The sort key of an item.
    spec fn rank(&self) -> Seq<Seq<int>>;

    /// Whether `self` comes strictly before `other`.
    fn before(&self, other: &Self) -> (first: bool)
        ensures
            first == key_less(self.rank(), other.rank()),
    ;
}

/// No item stands behind one that it precedes.
pub open spec fn in_order<T: Keyed>(s: Seq<T>) -> bool {
    forall|i: int, j: int| 0 <= i < j < s.len() ==> !key_less(#[trigger] s[j].rank(), #[trigger] s[i].rank())
}

/// Sorts a vector by sort key; items with equal keys keep their order.
pub fn sort_items<T: Keyed>(items: Vec<T>) -> (sorted: Vec<T>)
    ensures
        in_order(sorted@),
        sorted@.to_multiset() == items@.to_multiset(),
        sorted@.len() == items@.len(),
{
    let mut rest = items;
    let mut sorted: Vec<T> = Vec::new();
    proof {
        assert(sorted@.to_multiset() =~= vstd::multiset::Multiset::<T>::empty()) by {
            broadcast use group_to_multiset_ensures;
        }
        assert(items@.to_multiset() =~= rest@.to_multiset().add(sorted@.to_multiset()));
    }
    while rest.len() > 0
        invariant
            in_order(sorted@),
            items@.to_multiset() == rest@.to_multiset().add(sorted@.to_multiset()),
            items@.len() == rest@.len() + sorted@.len(),
        decreases rest.len(),
    {
        let ghost before_rest = rest@;
        let ghost before_sorted = sorted@;
        let item = rest.remove(0);
        let mut at: usize = sorted.len();
        while at > 0 && item.before(&sorted[at - 1])
            invariant
                at <= sorted.len(),
                sorted@ == before_sorted,
                forall|j: int| at <= j < sorted.len() ==> key_less(item.rank(), #[trigger] sorted@[j].rank()),
            decreases at,
        {
            at = at - 1;
        }
        sorted.insert(at, item);
        proof {
            let s = sorted@;
            let at_i = at as int;
            assert forall|i: int, j: int| 0 <= i < j < s.len() implies !key_less(
                #[trigger] s[j].rank(),
                #[trigger] s[i].rank(),
            ) by {
                let oi = if i < at_i { i } else { i - 1 };
                let oj = if j < at_i { j } else { j - 1 };
                if i != at_i && j != at_i {
                    assert(!key_less(before_sorted[oj].rank(), before_sorted[oi].rank()));
                } else if i == at_i {
                    assert(s[j] == before_sorted[j - 1]);
                    assert(key_less(item.rank(), before_sorted[j - 1].rank()));
                    if key_less(s[j].rank(), item.rank()) {
                        key_transitive(item.rank(), s[j].rank(), item.rank());
                        key_irreflexive(item.rank());
                    }
                } else {
                    assert(s[i] == before_sorted[i]);
                    if key_less(item.rank(), before_sorted[i].rank()) {
                        if i < at_i - 1 {
                            key_total(before_sorted[i].rank(), before_sorted[at_i - 1].rank());
                            assert(!key_less(before_sorted[at_i - 1].rank(), before_sorted[i].rank()));
                            if before_sorted[i].rank() != before_sorted[at_i - 1].rank() {
                                key_transitive(item.rank(), before_sorted[i].rank(), before_sorted[at_i - 1].rank());
                            }
                        }
                    }
                }
            }
            broadcast use group_to_multiset_ensures;
            assert(s =~= before_sorted.insert(at_i, item));
            lemma_insert_multiset(before_sorted, at_i, item);
            assert(before_rest =~= seq![item] + rest@);
            lemma_multiset_commutative(seq![item], rest@);
            assert(seq![item].to_multiset() =~= vstd::multiset::Multiset::<T>::empty().insert(item)) by {
                assert(seq![item] =~= Seq::<T>::empty().push(item));
            }
            assert(items@.to_multiset() =~= rest@.to_multiset().add(sorted@.to_multiset()));
        }
    }
    proof {
        assert(rest@ =~= Seq::<T>::empty());
        broadcast use group_to_multiset_ensures;
        assert(rest@.to_multiset() =~= vstd::multiset::Multiset::<T>::empty());
        assert(sorted@.to_multiset() =~= items@.to_multiset());
    }
    sorted
}

/// The order that a rank function puts on its domain.
pub open spec fn rank_leq<A>(r: spec_fn(A) -> Seq<Seq<int>>) -> spec_fn(A, A) -> bool {
    |a: A, b: A| !key_less(r(b), r(a))
}

/// A list sorted by rank.
pub open spec fn ranked<A>(s: Seq<A>, r: spec_fn(A) -> Seq<Seq<int>>) -> Seq<A> {
    s.sort_by(rank_leq(r))
}

/// No two values share a rank.
pub open spec fn faithful<A>(r: spec_fn(A) -> Seq<Seq<int>>) -> bool {
    forall|a: A, b: A| #[trigger] r(a) == #[trigger] r(b) ==> a == b
}

/// A faithful rank orders its domain totally.
pub proof fn rank_total<A>(r: spec_fn(A) -> Seq<Seq<int>>)
    requires
        faithful(r),
    ensures
        total_ordering(rank_leq(r)),
{
    let leq = rank_leq(r);
    assert forall|x: A| #[trigger] leq(x, x) by {
        key_irreflexive(r(x));
    }
    assert forall|x: A, y: A| #[trigger] leq(x, y) && #[trigger] leq(y, x) implies x == y by {
        key_total(r(x), r(y));
    }
    assert forall|x: A, y: A, z: A| #[trigger] leq(x, y) && #[trigger] leq(y, z) implies leq(x, z) by {
        if key_less(r(z), r(x)) {
            key_total(r(x), r(y));
            key_total(r(y), r(z));
            if key_less(r(x), r(y)) {
                key_transitive(r(z), r(x), r(y));
            }
        }
    }
    assert forall|x: A, y: A| #[trigger] leq(x, y) || #[trigger] leq(y, x) by {
        if key_less(r(x), r(y)) && key_less(r(y), r(x)) {
            key_transitive(r(x), r(y), r(x));
            key_irreflexive(r(x));
        }
    }
}

/// What sorting by rank gives: an ordered rearrangement.
pub proof fn ranked_facts<A>(s: Seq<A>, r: spec_fn(A) -> Seq<Seq<int>>)
    requires
        faithful(r),
    ensures
        ranked(s, r).to_multiset() == s.to_multiset(),
        ranked(s, r).len() == s.len(),
        forall|i: int, j: int|
            0 <= i < j < ranked(s, r).len() ==> !key_less(r(#[trigger] ranked(s, r)[j]), r(#[trigger] ranked(s, r)[i])),
        forall|x: A| #[trigger] ranked(s, r).contains(x) == s.contains(x),
{
    rank_total(r);
    let leq = rank_leq(r);
    s.lemma_sort_by_ensures(leq);
    let t = ranked(s, r);
    broadcast use group_to_multiset_ensures;
    assert forall|i: int, j: int| 0 <= i < j < t.len() implies !key_less(r(#[trigger] t[j]), r(#[trigger] t[i])) by {
        assert(leq(t[i], t[j]));
    }
    assert(s.to_multiset().len() == t.to_multiset().len());
    assert forall|x: A| #[trigger] t.contains(x) == s.contains(x) by {
        assert(s.to_multiset().count(x) == t.to_multiset().count(x));
    }
}

/// An ordered rearrangement of items shows the sorted list of their images.
pub proof fn ranked_images<T: Keyed, A>(
    sorted: Seq<T>,
    items: Seq<T>,
    f: spec_fn(T) -> A,
    r: spec_fn(A) -> Seq<Seq<int>>,
)
    requires
        in_order(sorted),
        sorted.to_multiset() == items.to_multiset(),
        faithful(r),
        forall|i: int| 0 <= i < items.len() ==> (#[trigger] items[i]).rank() == r(f(items[i])),
    ensures
        sorted.map_values(f) == ranked(items.map_values(f), r),
{
    assert forall|i: int| 0 <= i < sorted.len() implies (#[trigger] sorted[i]).rank() == r(f(sorted[i])) by {
        same_members(sorted, items);
        assert(sorted.contains(sorted[i]));
        let j = choose|j: int| 0 <= j < items.len() && items[j] == sorted[i];
        assert(items[j].rank() == r(f(items[j])));
    }
    let x = sorted.map_values(f);
    let y = ranked(items.map_values(f), r);
    multiset_of_images(sorted, items, f);
    ranked_facts(items.map_values(f), r);
    rank_total(r);
    let leq = rank_leq(r);
    items.map_values(f).lemma_sort_by_ensures(leq);
    assert(sorted_by(x, leq)) by {
        assert forall|i: int, j: int| 0 <= i < j < x.len() implies leq(x[i], x[j]) by {
            assert(!key_less(sorted[j].rank(), sorted[i].rank()));
        }
    }
    lemma_sorted_unique(x, y, leq);
}

/// A rearrangement has the same members.
pub proof fn same_members<T>(a: Seq<T>, b: Seq<T>)
    requires
        a.to_multiset() == b.to_multiset(),
    ensures
        a.len() == b.len(),
        forall|x: T| #[trigger] a.contains(x) == b.contains(x),
{
    a.to_multiset_ensures();
    b.to_multiset_ensures();
    let bag = a.to_multiset();
    assert forall|x: T| #[trigger] a.contains(x) == b.contains(x) by {
        assert(a.contains(x) <==> a.to_multiset().count(x) > 0);
        assert(b.contains(x) <==> b.to_multiset().count(x) > 0);
        assert(b.to_multiset().count(x) == bag.count(x));
    }
}

/// Rearranging a list rearranges its images.
pub proof fn multiset_of_images<T, A>(a: Seq<T>, b: Seq<T>, f: spec_fn(T) -> A)
    requires
        a.to_multiset() == b.to_multiset(),
    ensures
        a.map_values(f).to_multiset() == b.map_values(f).to_multiset(),
    decreases a.len(),
{
    broadcast use group_to_multiset_ensures;
    assert(a.len() == a.to_multiset().len() && b.len() == b.to_multiset().len());
    if a.len() == 0 {
        assert(a.map_values(f) =~= b.map_values(f));
    } else {
        let x = a.last();
        assert(a.contains(x));
        assert(a.to_multiset().count(x) > 0);
        assert(b.contains(x));
        let j = choose|j: int| 0 <= j < b.len() && b[j] == x;
        let rest = b.remove(j);
        assert(b =~= rest.insert(j, x));
        lemma_insert_multiset(rest, j, x);
        assert(a =~= a.drop_last().push(x));
        assert(a.drop_last().to_multiset() =~= rest.to_multiset()) by {
            assert(a.to_multiset() =~= a.drop_last().to_multiset().insert(x));
            assert(b.to_multiset() =~= rest.to_multiset().insert(x));
            assert forall|v: T| a.drop_last().to_multiset().count(v) == rest.to_multiset().count(v) by {
                assert(a.to_multiset().count(v) == b.to_multiset().count(v));
            }
        }
        multiset_of_images(a.drop_last(), rest, f);
        assert(a.map_values(f) =~= a.drop_last().map_values(f).push(f(x)));
        assert(b.map_values(f) =~= rest.map_values(f).insert(j, f(x)));
        lemma_insert_multiset(rest.map_values(f), j, f(x));
        assert(a.map_values(f).to_multiset() =~= b.map_values(f).to_multiset());
    }
}

/// Inserting into a sequence adds the item to its multiset.
proof fn lemma_insert_multiset<T>(s: Seq<T>, at: int, item: T)
    requires
        0 <= at <= s.len(),
    ensures
        s.insert(at, item).to_multiset() == s.to_multiset().insert(item),
{
    broadcast use group_to_multiset_ensures;
    let left = s.subrange(0, at);
    let right = s.subrange(at, s.len() as int);
    assert(s =~= left + right);
    assert(s.insert(at, item) =~= left.push(item) + right);
    lemma_multiset_commutative(left, right);
    lemma_multiset_commutative(left.push(item), right);
    assert(s.insert(at, item).to_multiset() =~= s.to_multiset().insert(item));
}

/// Byte order in full: two strings agree on a beginning, behind which the first one
/// ends, or goes on with the lower byte.
pub proof fn byte_order_law(a: Seq<u8>, b: Seq<u8>)
    ensures
        bytes_less(a, b) <==> exists|n: int|
            0 <= n <= a.len() && n < b.len() && #[trigger] a.take(n) == b.take(n) && (n == a.len() || a[n] < b[n]),
    decreases a.len(),
{
    let s = ints(a);
    let t = ints(b);
    if b.len() == 0 {
    } else if a.len() == 0 {
        assert(a.take(0) =~= b.take(0));
    } else {
        assert(s[0] == a[0] && t[0] == b[0]);
        assert(s.drop_first() =~= ints(a.drop_first()));
        assert(t.drop_first() =~= ints(b.drop_first()));
        let x = a.drop_first();
        let y = b.drop_first();
        byte_order_law(x, y);
        if bytes_less(a, b) {
            if a[0] != b[0] {
                assert(a.take(0) =~= b.take(0));
            } else {
                let n = choose|n: int|
                    0 <= n <= x.len() && n < y.len() && #[trigger] x.take(n) == y.take(n) && (n == x.len() || x[n] < y[n]);
                assert(a.take(n + 1) =~= seq![a[0]] + x.take(n));
                assert(b.take(n + 1) =~= seq![b[0]] + y.take(n));
                assert(a.take(n + 1) == b.take(n + 1));
            }
        }
        if exists|n: int|
            0 <= n <= a.len() && n < b.len() && #[trigger] a.take(n) == b.take(n) && (n == a.len() || a[n] < b[n]) {
            let n = choose|n: int|
                0 <= n <= a.len() && n < b.len() && #[trigger] a.take(n) == b.take(n) && (n == a.len() || a[n] < b[n]);
            if n > 0 {
                assert(a.take(n)[0] == b.take(n)[0]);
                assert(x.take(n - 1) =~= a.take(n).drop_first());
                assert(y.take(n - 1) =~= b.take(n).drop_first());
                assert(x.take(n - 1) == y.take(n - 1));
            }
        }
    }
}

} // verus!
