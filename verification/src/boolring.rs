//! The Boolean ring of HLLSets: symmetric difference as addition, intersection
//! as multiplication, and the reduced row-echelon basis of a span.

use vstd::prelude::*;

use crate::hashing::PLANE;
use crate::hllset::HLLSet;
use crate::hllset;

verus! {

/// The symmetric difference of two sets of bits.
pub open spec fn xor(a: Set<u32>, b: Set<u32>) -> Set<u32> {
    Set::new(|x: u32| a.contains(x) != b.contains(x))
}

/// The views of a list of HLLSets.
pub open spec fn set_views(v: Seq<HLLSet>) -> Seq<Set<u32>> {
    v.map_values(|h: HLLSet| h@)
}

/// The sum of the rows that `coords` selects.
pub open spec fn combination(rows: Seq<Set<u32>>, coords: Seq<bool>) -> Set<u32>
    decreases rows.len(),
{
    if rows.len() == 0 {
        Set::empty()
    } else {
        let rest = combination(rows.drop_last(), coords.drop_last());
        if coords.last() {
            xor(rest, rows.last())
        } else {
            rest
        }
    }
}

/// Whether a set is the sum of some of the rows.
pub open spec fn in_span(rows: Seq<Set<u32>>, s: Set<u32>) -> bool {
    exists|c: Seq<bool>| c.len() == rows.len() && #[trigger] combination(rows, c) == s
}

/// Reduced row-echelon form: each row starts with its pivot, and no other row
/// holds that bit.
pub open spec fn reduced(rows: Seq<Set<u32>>, pivots: Seq<u32>) -> bool {
    &&& rows.len() == pivots.len()
    &&& forall|i: int, j: int|
        0 <= i < rows.len() && 0 <= j < rows.len() ==> (#[trigger] rows[i].contains(#[trigger] pivots[j]) <==> i == j)
    &&& forall|i: int, b: u32| 0 <= i < rows.len() && #[trigger] rows[i].contains(b) ==> pivots[i] <= b
}

/// Which pivots a set holds, below bit `n`.
pub open spec fn pivot_coords(pivots: Seq<u32>, s: Set<u32>, n: int) -> Seq<bool> {
    Seq::new(pivots.len(), |j: int| s.contains(pivots[j]) && pivots[j] < n)
}

/// The coordinates of a set over a reduced basis: the pivots it holds.
pub open spec fn coords_of(pivots: Seq<u32>, s: Set<u32>) -> Seq<bool> {
    pivot_coords(pivots, s, PLANE as int)
}

/// What is left of a set when the rows of its pivots are taken out.
pub open spec fn residual_of(rows: Seq<Set<u32>>, pivots: Seq<u32>, s: Set<u32>) -> Set<u32> {
    xor(s, combination(rows, coords_of(pivots, s)))
}

/// The index of the first occurrence of a pivot; the length where there is none.
pub open spec fn pivot_index(pivots: Seq<u32>, p: u32, from: int) -> int
    decreases pivots.len() - from,
{
    if from >= pivots.len() {
        pivots.len() as int
    } else if pivots[from] == p {
        from
    } else {
        pivot_index(pivots, p, from + 1)
    }
}

/// The rows used in eliminating a set, by ascending pivot, for the pivots below `n`.
pub open spec fn used_rows(pivots: Seq<u32>, s: Set<u32>, n: nat) -> Seq<usize>
    decreases n,
{
    if n == 0 {
        Seq::empty()
    } else {
        let p = (n - 1) as u32;
        let j = pivot_index(pivots, p, 0);
        let before = used_rows(pivots, s, (n - 1) as nat);
        if s.contains(p) && j < pivots.len() {
            before.push(j as usize)
        } else {
            before
        }
    }
}

/// The rows after a new one came in: rows that hold its pivot get it added.
pub open spec fn rotated_rows(rows: Seq<Set<u32>>, r: Set<u32>, p: u32) -> Seq<Set<u32>> {
    rows.map_values(|b: Set<u32>| if b.contains(p) { xor(b, r) } else { b })
}

/// How many of the first `n` rows hold a bit.
pub open spec fn holders(rows: Seq<Set<u32>>, p: u32, n: nat) -> nat
    decreases n,
{
    if n == 0 {
        0
    } else {
        holders(rows, p, (n - 1) as nat) + (if rows[n - 1].contains(p) { 1nat } else { 0 })
    }
}

pub open spec fn is_lowest(s: Set<u32>, p: u32) -> bool {
    s.contains(p) && forall|b: u32| #[trigger] s.contains(b) ==> p <= b
}

pub proof fn pivot_index_facts(pivots: Seq<u32>, p: u32, from: int)
    requires
        0 <= from <= pivots.len(),
    ensures
        from <= pivot_index(pivots, p, from) <= pivots.len(),
        pivot_index(pivots, p, from) < pivots.len() ==> pivots[pivot_index(pivots, p, from)] == p,
        pivot_index(pivots, p, from) == pivots.len() ==> forall|j: int| from <= j < pivots.len() ==> #[trigger] pivots[j] != p,
    decreases pivots.len() - from,
{
    if from < pivots.len() && pivots[from] != p {
        pivot_index_facts(pivots, p, from + 1);
    }
}

/// Over a reduced basis a sum holds a pivot exactly where it selects its row.
pub proof fn combination_pivot(rows: Seq<Set<u32>>, pivots: Seq<u32>, c: Seq<bool>, p: u32, j: int)
    requires
        rows.len() == c.len(),
        0 <= j < rows.len(),
        forall|i: int| 0 <= i < rows.len() ==> (#[trigger] rows[i].contains(p) <==> i == j),
    ensures
        combination(rows, c).contains(p) == c[j],
    decreases rows.len(),
{
    let n = rows.len() - 1;
    let shorter = rows.drop_last();
    if j < n {
        assert forall|i: int| 0 <= i < shorter.len() implies (#[trigger] shorter[i].contains(p) <==> i == j) by {
            assert(shorter[i] == rows[i]);
        }
        combination_pivot(shorter, pivots, c.drop_last(), p, j);
        assert(!rows[n].contains(p));
    } else {
        combination_misses(shorter, c.drop_last(), p);
        assert(rows[n].contains(p));
    }
}

/// A sum of rows without a bit does not hold it.
pub proof fn combination_misses(rows: Seq<Set<u32>>, c: Seq<bool>, p: u32)
    requires
        rows.len() == c.len(),
        forall|i: int| 0 <= i < rows.len() ==> !#[trigger] rows[i].contains(p),
    ensures
        !combination(rows, c).contains(p),
    decreases rows.len(),
{
    if rows.len() > 0 {
        let shorter = rows.drop_last();
        assert forall|i: int| 0 <= i < shorter.len() implies !#[trigger] shorter[i].contains(p) by {
            assert(shorter[i] == rows[i]);
        }
        combination_misses(shorter, c.drop_last(), p);
        assert(!rows[rows.len() - 1].contains(p));
    }
}

/// Selecting one more row adds it to the sum.
pub proof fn combination_toggle(rows: Seq<Set<u32>>, c: Seq<bool>, j: int)
    requires
        rows.len() == c.len(),
        0 <= j < rows.len(),
    ensures
        combination(rows, c.update(j, !c[j])) == xor(combination(rows, c), rows[j]),
    decreases rows.len(),
{
    let n = rows.len() - 1;
    let d = c.update(j, !c[j]);
    if j < n {
        combination_toggle(rows.drop_last(), c.drop_last(), j);
        assert(d.drop_last() =~= c.drop_last().update(j, !c[j]));
        assert(rows.drop_last()[j] == rows[j]);
    } else {
        assert(d.drop_last() =~= c.drop_last());
    }
    assert(combination(rows, d) =~= xor(combination(rows, c), rows[j]));
}

/// The coordinates of two sets added.
pub open spec fn coords_xor(a: Seq<bool>, b: Seq<bool>) -> Seq<bool> {
    Seq::new(a.len(), |i: int| a[i] != b[i])
}

/// Sums add up coordinate by coordinate.
pub proof fn combination_xor(rows: Seq<Set<u32>>, a: Seq<bool>, b: Seq<bool>)
    requires
        a.len() == rows.len(),
        b.len() == rows.len(),
    ensures
        combination(rows, coords_xor(a, b)) == xor(combination(rows, a), combination(rows, b)),
    decreases rows.len(),
{
    if rows.len() == 0 {
        assert(combination(rows, coords_xor(a, b)) =~= xor(combination(rows, a), combination(rows, b)));
    } else {
        combination_xor(rows.drop_last(), a.drop_last(), b.drop_last());
        assert(coords_xor(a, b).drop_last() =~= coords_xor(a.drop_last(), b.drop_last()));
        assert(combination(rows, coords_xor(a, b)) =~= xor(combination(rows, a), combination(rows, b)));
    }
}

pub open spec fn no_coords(n: nat) -> Seq<bool> {
    Seq::new(n, |i: int| false)
}

/// Selecting nothing gives the empty set.
pub proof fn combination_none(rows: Seq<Set<u32>>)
    ensures
        combination(rows, no_coords(rows.len())) == Set::<u32>::empty(),
        in_span(rows, Set::empty()),
    decreases rows.len(),
{
    if rows.len() > 0 {
        combination_none(rows.drop_last());
        assert(no_coords(rows.len()).drop_last() =~= no_coords((rows.len() - 1) as nat));
    }
}

/// A row is in the span.
pub proof fn row_in_span(rows: Seq<Set<u32>>, j: int)
    requires
        0 <= j < rows.len(),
    ensures
        in_span(rows, rows[j]),
{
    combination_none(rows);
    let none = no_coords(rows.len());
    combination_toggle(rows, none, j);
    assert(xor(Set::empty(), rows[j]) =~= rows[j]);
    assert(combination(rows, none.update(j, !none[j])) == rows[j]);
}

/// A span is closed under addition.
pub proof fn span_closed(rows: Seq<Set<u32>>, x: Set<u32>, y: Set<u32>)
    requires
        in_span(rows, x),
        in_span(rows, y),
    ensures
        in_span(rows, xor(x, y)),
{
    let a = choose|c: Seq<bool>| c.len() == rows.len() && #[trigger] combination(rows, c) == x;
    let b = choose|c: Seq<bool>| c.len() == rows.len() && #[trigger] combination(rows, c) == y;
    combination_xor(rows, a, b);
    assert(coords_xor(a, b).len() == rows.len());
}

/// A sum of members of a span is in the span.
pub proof fn combination_in_span(rows: Seq<Set<u32>>, others: Seq<Set<u32>>, c: Seq<bool>)
    requires
        c.len() == others.len(),
        forall|i: int| 0 <= i < others.len() ==> in_span(rows, #[trigger] others[i]),
    ensures
        in_span(rows, combination(others, c)),
    decreases others.len(),
{
    if others.len() == 0 {
        combination_none(rows);
    } else {
        let shorter = others.drop_last();
        assert forall|i: int| 0 <= i < shorter.len() implies in_span(rows, #[trigger] shorter[i]) by {
            assert(shorter[i] == others[i]);
        }
        combination_in_span(rows, shorter, c.drop_last());
        if c.last() {
            assert(in_span(rows, others[others.len() - 1]));
            span_closed(rows, combination(shorter, c.drop_last()), others.last());
        }
    }
}

/// Lists whose members lie in each other's span have the same span.
pub proof fn mutual_span(a: Seq<Set<u32>>, b: Seq<Set<u32>>, x: Set<u32>)
    requires
        forall|i: int| 0 <= i < a.len() ==> in_span(b, #[trigger] a[i]),
        forall|i: int| 0 <= i < b.len() ==> in_span(a, #[trigger] b[i]),
    ensures
        in_span(a, x) == in_span(b, x),
{
    if in_span(a, x) {
        let c = choose|c: Seq<bool>| c.len() == a.len() && #[trigger] combination(a, c) == x;
        combination_in_span(b, a, c);
    }
    if in_span(b, x) {
        let c = choose|c: Seq<bool>| c.len() == b.len() && #[trigger] combination(b, c) == x;
        combination_in_span(a, b, c);
    }
}

pub proof fn xor_facts(a: Set<u32>, b: Set<u32>)
    ensures
        xor(a, a) == Set::<u32>::empty(),
        xor(a, Set::empty()) == a,
        xor(a, b) == xor(b, a),
        xor(a, b) == Set::<u32>::empty() <==> a == b,
        xor(xor(a, b), b) == a,
{
    assert(xor(a, a) =~= Set::<u32>::empty());
    assert(xor(a, Set::empty()) =~= a);
    assert(xor(a, b) =~= xor(b, a));
    assert(xor(xor(a, b), b) =~= a);
    if xor(a, b) == Set::<u32>::empty() {
        assert forall|x: u32| a.contains(x) == b.contains(x) by {
            assert(!xor(a, b).contains(x));
        }
        assert(a =~= b);
    }
}

/// Addition in the ring: `A + A = 0`, `A + 0 = A`, and it is commutative and
/// associative; the product of a set with itself is the set.
pub proof fn ring_laws(a: Set<u32>, b: Set<u32>, c: Set<u32>)
    ensures
        xor(a, a) == Set::<u32>::empty(),
        xor(a, Set::empty()) == a,
        xor(a, b) == xor(b, a),
        xor(xor(a, b), c) == xor(a, xor(b, c)),
        a.intersect(a) == a,
        a.intersect(xor(b, c)) == xor(a.intersect(b), a.intersect(c)),
{
    xor_facts(a, b);
    assert(xor(xor(a, b), c) =~= xor(a, xor(b, c)));
    assert(a.intersect(a) =~= a);
    assert(a.intersect(xor(b, c)) =~= xor(a.intersect(b), a.intersect(c)));
}

/// The union in the ring: `A + B + A B`.
pub proof fn union_in_ring(a: Set<u32>, b: Set<u32>)
    ensures
        a.union(b) == xor(xor(a, b), a.intersect(b)),
{
    assert(a.union(b) =~= xor(xor(a, b), a.intersect(b)));
}

/// A set is in the span of a reduced basis exactly if it leaves no residual; its
/// coordinates then rebuild it, and no others do.
pub proof fn residual_law(rows: Seq<Set<u32>>, pivots: Seq<u32>, s: Set<u32>)
    requires
        reduced(rows, pivots),
        forall|j: int| 0 <= j < pivots.len() ==> #[trigger] pivots[j] < PLANE,
    ensures
        in_span(rows, s) <==> residual_of(rows, pivots, s) == Set::<u32>::empty(),
        in_span(rows, s) ==> combination(rows, coords_of(pivots, s)) == s,
        forall|c: Seq<bool>|
            c.len() == rows.len() && #[trigger] combination(rows, c) == s ==> c == coords_of(pivots, s),
        in_span(rows, xor(s, residual_of(rows, pivots, s))),
        forall|j: int| 0 <= j < pivots.len() ==> !residual_of(rows, pivots, s).contains(#[trigger] pivots[j]),
{
    let k = coords_of(pivots, s);
    let sum = combination(rows, k);
    xor_facts(s, sum);
    assert forall|c: Seq<bool>| c.len() == rows.len() && #[trigger] combination(rows, c) == s implies c == k by {
        assert forall|j: int| 0 <= j < rows.len() implies c[j] == k[j] by {
            row_pivot(rows, pivots, j);
            combination_pivot(rows, pivots, c, pivots[j], j);
        }
        assert(c =~= k);
    }
    if in_span(rows, s) {
        let c = choose|c: Seq<bool>| c.len() == rows.len() && #[trigger] combination(rows, c) == s;
        assert(c == k);
    }
    if residual_of(rows, pivots, s) == Set::<u32>::empty() {
        assert(sum == s);
        assert(k.len() == rows.len());
    }
    assert(xor(s, xor(s, sum)) =~= sum);
    assert(k.len() == rows.len());
    assert forall|j: int| 0 <= j < pivots.len() implies !residual_of(rows, pivots, s).contains(#[trigger] pivots[j]) by {
        row_pivot(rows, pivots, j);
        combination_pivot(rows, pivots, k, pivots[j], j);
    }
}

proof fn row_pivot(rows: Seq<Set<u32>>, pivots: Seq<u32>, j: int)
    requires
        reduced(rows, pivots),
        0 <= j < rows.len(),
    ensures
        forall|i: int| 0 <= i < rows.len() ==> (#[trigger] rows[i].contains(pivots[j]) <==> i == j),
{
}

/// Taking a residual in keeps the basis reduced, and its span becomes the old
/// span and everything that differs from it by the new set.
pub proof fn insertion_law(rows: Seq<Set<u32>>, pivots: Seq<u32>, s: Set<u32>, p: u32)
    requires
        reduced(rows, pivots),
        forall|j: int| 0 <= j < pivots.len() ==> #[trigger] pivots[j] < PLANE,
        is_lowest(residual_of(rows, pivots, s), p),
    ensures
        reduced(rotated_rows(rows, residual_of(rows, pivots, s), p).push(residual_of(rows, pivots, s)), pivots.push(p)),
        forall|x: Set<u32>|
            #[trigger] in_span(
                rotated_rows(rows, residual_of(rows, pivots, s), p).push(residual_of(rows, pivots, s)),
                x,
            ) == in_span(rows.push(s), x),
{
    let r = residual_of(rows, pivots, s);
    let turned = rotated_rows(rows, r, p);
    let grown = turned.push(r);
    let marks = pivots.push(p);
    residual_law(rows, pivots, s);
    let n = rows.len() as int;
    assert forall|i: int, j: int| 0 <= i < grown.len() && 0 <= j < grown.len() implies (#[trigger] grown[i].contains(
        #[trigger] marks[j],
    ) <==> i == j) by {
        if j < n {
            assert(marks[j] == pivots[j]);
            assert(!r.contains(pivots[j]));
            if i < n {
                assert(rows[i].contains(pivots[j]) <==> i == j);
            }
        } else {
            if i < n {
                assert(grown[i] == turned[i]);
            }
        }
    }
    assert forall|i: int, b: u32| 0 <= i < grown.len() && #[trigger] grown[i].contains(b) implies marks[i] <= b by {
        if i < n {
            if rows[i].contains(p) {
                assert(pivots[i] <= p);
                if rows[i].contains(b) {
                    assert(pivots[i] <= b);
                } else {
                    assert(r.contains(b));
                }
            } else {
                assert(rows[i].contains(b));
            }
        }
    }
    assert(reduced(grown, marks));
    let plain = rows.push(s);
    // Each side lies in the span of the other.
    assert forall|i: int| 0 <= i < plain.len() implies in_span(grown, #[trigger] plain[i]) by {
        if i < n {
            old_row_in_grown(rows, r, p, i);
            assert(plain[i] == rows[i]);
        } else {
            row_in_span(grown, n);
            let c = coords_of(pivots, s);
            assert forall|q: int| 0 <= q < rows.len() implies in_span(grown, #[trigger] rows[q]) by {
                old_row_in_grown(rows, r, p, q);
            }
            combination_in_span(grown, rows, c);
            span_closed(grown, r, combination(rows, c));
            assert(xor(r, combination(rows, c)) =~= s);
        }
    }
    assert forall|i: int| 0 <= i < grown.len() implies in_span(plain, #[trigger] grown[i]) by {
        residual_in_plain(rows, pivots, s);
        if i < n {
            row_in_span(plain, i);
            assert(plain[i] == rows[i]);
            if rows[i].contains(p) {
                span_closed(plain, rows[i], r);
            }
        }
    }
    assert forall|x: Set<u32>| #[trigger] in_span(grown, x) == in_span(plain, x) by {
        mutual_span(grown, plain, x);
    }
}

proof fn old_row_in_grown(rows: Seq<Set<u32>>, r: Set<u32>, p: u32, i: int)
    requires
        0 <= i < rows.len(),
    ensures
        in_span(rotated_rows(rows, r, p).push(r), rows[i]),
{
    let grown = rotated_rows(rows, r, p).push(r);
    let n = rows.len() as int;
    row_in_span(grown, i);
    row_in_span(grown, n);
    if rows[i].contains(p) {
        span_closed(grown, grown[i], grown[n]);
        assert(xor(grown[i], r) =~= rows[i]);
    } else {
        assert(grown[i] == rows[i]);
    }
}

proof fn residual_in_plain(rows: Seq<Set<u32>>, pivots: Seq<u32>, s: Set<u32>)
    requires
        rows.len() == pivots.len(),
    ensures
        in_span(rows.push(s), residual_of(rows, pivots, s)),
{
    let plain = rows.push(s);
    let n = rows.len() as int;
    row_in_span(plain, n);
    let c = coords_of(pivots, s);
    assert forall|q: int| 0 <= q < rows.len() implies in_span(plain, #[trigger] rows[q]) by {
        row_in_span(plain, q);
        assert(plain[q] == rows[q]);
    }
    combination_in_span(plain, rows, c);
    span_closed(plain, s, combination(rows, c));
    assert(plain[n] == s);
}

/// Growing a list by a member of its span does not change the span.
pub proof fn redundant_row(rows: Seq<Set<u32>>, s: Set<u32>, x: Set<u32>)
    requires
        in_span(rows, s),
    ensures
        in_span(rows.push(s), x) == in_span(rows, x),
{
    let plain = rows.push(s);
    assert forall|i: int| 0 <= i < plain.len() implies in_span(rows, #[trigger] plain[i]) by {
        if i < rows.len() {
            row_in_span(rows, i);
            assert(plain[i] == rows[i]);
        }
    }
    assert forall|i: int| 0 <= i < rows.len() implies in_span(plain, #[trigger] rows[i]) by {
        row_in_span(plain, i);
        assert(plain[i] == rows[i]);
    }
    mutual_span(plain, rows, x);
}

/// The span of a list does not depend on the order of its members, nor on how
/// often each occurs.
pub proof fn span_order_independent(a: Seq<Set<u32>>, b: Seq<Set<u32>>, x: Set<u32>)
    requires
        a.to_set() == b.to_set(),
    ensures
        in_span(a, x) == in_span(b, x),
{
    assert forall|i: int| 0 <= i < a.len() implies in_span(b, #[trigger] a[i]) by {
        assert(a.to_set().contains(a[i]));
        assert(b.contains(a[i]));
        let j = choose|j: int| 0 <= j < b.len() && b[j] == a[i];
        row_in_span(b, j);
    }
    assert forall|i: int| 0 <= i < b.len() implies in_span(a, #[trigger] b[i]) by {
        assert(b.to_set().contains(b[i]));
        assert(a.contains(b[i]));
        let j = choose|j: int| 0 <= j < a.len() && a[j] == b[i];
        row_in_span(a, j);
    }
    mutual_span(a, b, x);
}

/// Spans that agree still agree when the same set joins both lists.
pub proof fn span_push(a: Seq<Set<u32>>, b: Seq<Set<u32>>, s: Set<u32>, x: Set<u32>)
    requires
        forall|y: Set<u32>| #[trigger] in_span(a, y) == in_span(b, y),
    ensures
        in_span(a.push(s), x) == in_span(b.push(s), x),
{
    let p = a.push(s);
    let q = b.push(s);
    assert forall|i: int| 0 <= i < p.len() implies in_span(q, #[trigger] p[i]) by {
        grown_span(b, s);
        if i < a.len() {
            row_in_span(a, i);
            assert(p[i] == a[i]);
            assert(in_span(b, a[i]));
        }
    }
    assert forall|i: int| 0 <= i < q.len() implies in_span(p, #[trigger] q[i]) by {
        grown_span(a, s);
        if i < b.len() {
            row_in_span(b, i);
            assert(q[i] == b[i]);
            assert(in_span(a, b[i]));
        }
    }
    mutual_span(p, q, x);
}

proof fn grown_span(rows: Seq<Set<u32>>, s: Set<u32>)
    ensures
        in_span(rows.push(s), s),
        forall|y: Set<u32>| in_span(rows, y) ==> #[trigger] in_span(rows.push(s), y),
{
    let g = rows.push(s);
    row_in_span(g, rows.len() as int);
    assert forall|y: Set<u32>| in_span(rows, y) implies #[trigger] in_span(g, y) by {
        let c = choose|c: Seq<bool>| c.len() == rows.len() && #[trigger] combination(rows, c) == y;
        assert forall|i: int| 0 <= i < rows.len() implies in_span(g, #[trigger] rows[i]) by {
            row_in_span(g, i);
            assert(g[i] == rows[i]);
        }
        combination_in_span(g, rows, c);
    }
}

/// The sum of two sets.
pub fn symmetric_difference(a: &HLLSet, b: &HLLSet) -> (s: HLLSet)
    ensures
        s@ == xor(a@, b@),
{
    let s = a.difference(b).union(&b.difference(a));
    proof {
        assert(s@ =~= xor(a@, b@));
    }
    s
}

/// The lowest member of a set.
pub fn lowest_bit(set: &HLLSet) -> (low: Option<u32>)
    ensures
        low is None <==> set@ == Set::<u32>::empty(),
        low is Some ==> is_lowest(set@, low->0),
{
    set.lowest()
}

/// The result of taking one set into a basis.
#[derive(Clone, Debug, PartialEq, Eq)]
pub enum InsertResult {
    /// The set is in the span; the rows that add up to it, by ascending pivot.
    InSpan { coords: Vec<usize> },
    /// The set left a residual, which is the new row; `rotation_count` older rows
    /// held its pivot.
    Added { residual: HLLSet, pivot: u32, rotation_count: usize },
}

/// A reduced row-echelon basis.
#[derive(Clone, Debug, PartialEq, Eq)]
pub struct BoolBasis {
    pub basis: Vec<HLLSet>,
    pub pivots: Vec<u32>,
}

impl BoolBasis {
    pub open spec fn rows(&self) -> Seq<Set<u32>> {
        set_views(self.basis@)
    }

    pub open spec fn wf(&self) -> bool {
        &&& reduced(self.rows(), self.pivots@)
        &&& forall|j: int| 0 <= j < self.pivots@.len() ==> #[trigger] self.pivots@[j] < PLANE
    }

    /// The empty basis.
    pub fn new() -> (b: BoolBasis)
        ensures
            b.wf(),
            b.rows() == Seq::<Set<u32>>::empty(),
            b.pivots@ == Seq::<u32>::empty(),
    {
        let b = BoolBasis { basis: Vec::new(), pivots: Vec::new() };
        proof {
            assert(b.rows() =~= Seq::<Set<u32>>::empty());
        }
        b
    }

    /// Copies the basis.
    pub fn copy(&self) -> (b: BoolBasis)
        ensures
            b.rows() == self.rows(),
            b.pivots@ == self.pivots@,
    {
        let b = BoolBasis {
            basis: vstd::slice::slice_to_vec(self.basis.as_slice()),
            pivots: vstd::slice::slice_to_vec(self.pivots.as_slice()),
        };
        b
    }

    /// The dimension of the span.
    pub fn dimension(&self) -> (n: usize)
        ensures
            n == self.rows().len(),
    {
        self.basis.len()
    }

    fn find_pivot(&self, p: u32) -> (j: usize)
        ensures
            j as int == pivot_index(self.pivots@, p, 0),
            j <= self.pivots@.len(),
    {
        let mut j: usize = 0;
        while j < self.pivots.len()
            invariant
                j <= self.pivots.len(),
                pivot_index(self.pivots@, p, 0) == pivot_index(self.pivots@, p, j as int),
            decreases self.pivots.len() - j,
        {
            if self.pivots[j] == p {
                return j;
            }
            j = j + 1;
        }
        j
    }

    /// Eliminates the pivots of a set: what is left, and the rows used.
    pub fn reduce(&self, set: &HLLSet) -> (out: (HLLSet, Vec<usize>))
        requires
            self.wf(),
        ensures
            out.0@ == residual_of(self.rows(), self.pivots@, set@),
            out.1@ == used_rows(self.pivots@, set@, PLANE as nat),
    {
        let mut cur = *set;
        let mut used: Vec<usize> = Vec::new();
        let mut p: u32 = 0;
        proof {
            combination_none(self.rows());
            assert(pivot_coords(self.pivots@, set@, 0) =~= no_coords(self.rows().len()));
            xor_facts(set@, set@);
        }
        while p < PLANE
            invariant
                p <= PLANE,
                self.wf(),
                cur@ == xor(set@, combination(self.rows(), pivot_coords(self.pivots@, set@, p as int))),
                used@ == used_rows(self.pivots@, set@, p as nat),
            decreases PLANE - p,
        {
            let ghost c = pivot_coords(self.pivots@, set@, p as int);
            let ghost d = pivot_coords(self.pivots@, set@, p as int + 1);
            proof {
                pivot_index_facts(self.pivots@, p, 0);
            }
            let j = self.find_pivot(p);
            if j < self.pivots.len() {
                proof {
                    row_pivot(self.rows(), self.pivots@, j as int);
                    combination_pivot(self.rows(), self.pivots@, c, p, j as int);
                    assert forall|q: int| 0 <= q < self.pivots@.len() && q != j implies #[trigger] self.pivots@[q] != p by {
                        assert(self.rows()[q].contains(self.pivots@[q]));
                        if self.pivots@[q] == p {
                            assert(self.rows()[q].contains(self.pivots@[j as int]));
                        }
                    }
                    assert(d =~= c.update(j as int, set@.contains(p)));
                }
                if cur.contains(p) {
                    proof {
                        combination_toggle(self.rows(), c, j as int);
                        assert(set@.contains(p));
                        assert(d =~= c.update(j as int, !c[j as int]));
                    }
                    let row = &self.basis[j];
                    let ghost was = cur@;
                    cur = symmetric_difference(&cur, row);
                    used.push(j);
                    proof {
                        assert(row@ == self.rows()[j as int]);
                        assert(cur@ =~= xor(set@, combination(self.rows(), d)));
                    }
                } else {
                    proof {
                        assert(!set@.contains(p));
                        assert(d =~= c);
                    }
                }
            } else {
                proof {
                    assert(d =~= c);
                }
            }
            p = p + 1;
        }
        (cur, used)
    }

    /// The part of a set outside the span.
    pub fn residual(&self, set: &HLLSet) -> (r: HLLSet)
        requires
            self.wf(),
        ensures
            r@ == residual_of(self.rows(), self.pivots@, set@),
            r@ == Set::<u32>::empty() <==> in_span(self.rows(), set@),
    {
        proof {
            residual_law(self.rows(), self.pivots@, set@);
        }
        self.reduce(set).0
    }

    /// The coordinates of a set in the span.
    pub fn coordinates(&self, set: &HLLSet) -> (coords: Option<Vec<bool>>)
        requires
            self.wf(),
        ensures
            coords is Some <==> in_span(self.rows(), set@),
            coords is Some ==> coords->0@ == coords_of(self.pivots@, set@) && combination(self.rows(), coords->0@)
                == set@,
    {
        proof {
            residual_law(self.rows(), self.pivots@, set@);
        }
        let residual = self.reduce(set).0;
        if !residual.is_empty() {
            return None;
        }
        let mut coords: Vec<bool> = Vec::new();
        let mut j: usize = 0;
        while j < self.pivots.len()
            invariant
                j <= self.pivots.len(),
                self.wf(),
                coords@ == coords_of(self.pivots@, set@).take(j as int),
            decreases self.pivots.len() - j,
        {
            coords.push(set.contains(self.pivots[j]));
            j = j + 1;
            proof {
                assert(coords@ =~= coords_of(self.pivots@, set@).take(j as int));
            }
        }
        proof {
            assert(coords_of(self.pivots@, set@).take(j as int) =~= coords_of(self.pivots@, set@));
        }
        Some(coords)
    }

    /// Takes one set in.
    pub fn insert(&mut self, set: &HLLSet) -> (result: InsertResult)
        requires
            old(self).wf(),
        ensures
            final(self).wf(),
            result is InSpan <==> in_span(old(self).rows(), set@),
            result matches InsertResult::InSpan { coords } ==> *final(self) == *old(self) && coords@ == used_rows(
                old(self).pivots@,
                set@,
                PLANE as nat,
            ),
            result matches InsertResult::Added { residual, pivot, rotation_count } ==> {
                &&& residual@ == residual_of(old(self).rows(), old(self).pivots@, set@)
                &&& is_lowest(residual@, pivot)
                &&& rotation_count == holders(old(self).rows(), pivot, old(self).rows().len())
                &&& final(self).rows() == rotated_rows(old(self).rows(), residual@, pivot).push(residual@)
                &&& final(self).pivots@ == old(self).pivots@.push(pivot)
            },
            forall|x: Set<u32>| #[trigger] in_span(final(self).rows(), x) == in_span(old(self).rows().push(set@), x),
    {
        let ghost before = *self;
        proof {
            residual_law(self.rows(), self.pivots@, set@);
        }
        let (residual, coords) = self.reduce(set);
        let low = lowest_bit(&residual);
        match low {
            None => {
                proof {
                    assert forall|x: Set<u32>| #[trigger] in_span(self.rows(), x) == in_span(
                        before.rows().push(set@),
                        x,
                    ) by {
                        redundant_row(before.rows(), set@, x);
                    }
                }
                InsertResult::InSpan { coords }
            },
            Some(p) => {
                let mut count: usize = 0;
                let mut i: usize = 0;
                while i < self.basis.len()
                    invariant
                        i <= self.basis.len(),
                        self.basis@.len() == before.basis@.len(),
                        self.pivots@ == before.pivots@,
                        count <= i,
                        count == holders(before.rows(), p, i as nat),
                        forall|k: int|
                            0 <= k < i ==> (#[trigger] self.basis@[k])@ == rotated_rows(before.rows(), residual@, p)[k],
                        forall|k: int| i <= k < self.basis@.len() ==> #[trigger] self.basis@[k] == before.basis@[k],
                    decreases self.basis.len() - i,
                {
                    proof {
                        assert(self.basis@[i as int] == before.basis@[i as int]);
                        assert(before.rows()[i as int] == before.basis@[i as int]@);
                    }
                    if self.basis[i].contains(p) {
                        let cleared = symmetric_difference(&self.basis[i], &residual);
                        self.basis[i] = cleared;
                        count = count + 1;
                    }
                    i = i + 1;
                }
                self.pivots.push(p);
                self.basis.push(residual);
                proof {
                    residual.members();
                    assert(self.rows() =~= rotated_rows(before.rows(), residual@, p).push(residual@));
                    insertion_law(before.rows(), before.pivots@, set@, p);
                    assert(residual@.contains(p));
                    assert forall|j: int| 0 <= j < self.pivots@.len() implies #[trigger] self.pivots@[j] < PLANE by {
                        if j < before.pivots@.len() {
                            assert(self.pivots@[j] == before.pivots@[j]);
                        }
                    }
                }
                InsertResult::Added { residual, pivot: p, rotation_count: count }
            },
        }
    }
}

/// The basis of a list of sets, taken in one by one.
pub fn span_basis(sets: &[HLLSet]) -> (b: BoolBasis)
    ensures
        b.wf(),
        basis_of(set_views(sets@), b.rows(), b.pivots@),
        forall|x: Set<u32>| #[trigger] in_span(b.rows(), x) == in_span(set_views(sets@), x),
{
    let mut b = BoolBasis::new();
    let mut i: usize = 0;
    proof {
        assert(set_views(sets@).take(0) =~= Seq::<Set<u32>>::empty());
    }
    while i < sets.len()
        invariant
            i <= sets.len(),
            b.wf(),
            basis_of(set_views(sets@).take(i as int), b.rows(), b.pivots@),
            forall|x: Set<u32>| #[trigger] in_span(b.rows(), x) == in_span(set_views(sets@).take(i as int), x),
        decreases sets.len() - i,
    {
        let ghost shorter = set_views(sets@).take(i as int);
        let ghost longer = set_views(sets@).take(i as int + 1);
        let ghost before = b;
        let result = b.insert(&sets[i]);
        proof {
            assert(longer =~= shorter.push(sets@[i as int]@));
            assert(longer.drop_last() =~= shorter);
            assert(longer.last() == sets@[i as int]@);
            residual_law(before.rows(), before.pivots@, sets@[i as int]@);
            basis_step(before, b, result, sets@[i as int]@);
            assert(basis_of(longer, b.rows(), b.pivots@));
            assert forall|x: Set<u32>| #[trigger] in_span(b.rows(), x) == in_span(longer, x) by {
                span_push(before.rows(), shorter, sets@[i as int]@, x);
            }
        }
        i = i + 1;
    }
    proof {
        assert(set_views(sets@).take(i as int) =~= set_views(sets@));
    }
    b
}

/// What one insertion makes of a basis.
pub open spec fn inserted(rows: Seq<Set<u32>>, pivots: Seq<u32>, s: Set<u32>) -> (Seq<Set<u32>>, Seq<u32>) {
    let r = residual_of(rows, pivots, s);
    if r == Set::<u32>::empty() {
        (rows, pivots)
    } else {
        let p = choose|p: u32| is_lowest(r, p);
        (rotated_rows(rows, r, p).push(r), pivots.push(p))
    }
}

/// The basis that taking sets in, in order, ends with.
pub open spec fn folded(sets: Seq<Set<u32>>) -> (Seq<Set<u32>>, Seq<u32>)
    decreases sets.len(),
{
    if sets.len() == 0 {
        (Seq::empty(), Seq::empty())
    } else {
        let b = folded(sets.drop_last());
        inserted(b.0, b.1, sets.last())
    }
}

/// Whether rows and pivots are the basis of a list of sets.
pub open spec fn basis_of(sets: Seq<Set<u32>>, rows: Seq<Set<u32>>, pivots: Seq<u32>) -> bool {
    folded(sets) == (rows, pivots)
}

/// An insertion does to a basis what `inserted` says.
pub proof fn basis_step(before: BoolBasis, after: BoolBasis, result: InsertResult, s: Set<u32>)
    requires
        before.wf(),
        result is InSpan <==> in_span(before.rows(), s),
        result is InSpan ==> after == before,
        result matches InsertResult::Added { residual, pivot, rotation_count } ==> {
            &&& residual@ == residual_of(before.rows(), before.pivots@, s)
            &&& is_lowest(residual@, pivot)
            &&& after.rows() == rotated_rows(before.rows(), residual@, pivot).push(residual@)
            &&& after.pivots@ == before.pivots@.push(pivot)
        },
    ensures
        inserted(before.rows(), before.pivots@, s) == (after.rows(), after.pivots@),
{
    residual_law(before.rows(), before.pivots@, s);
    if let InsertResult::Added { residual, pivot, rotation_count } = result {
        let r = residual_of(before.rows(), before.pivots@, s);
        let p = choose|p: u32| is_lowest(r, p);
        assert(is_lowest(r, pivot));
        assert(is_lowest(r, p));
        assert(r.contains(p) && r.contains(pivot));
        assert(p == pivot);
        assert(r != Set::<u32>::empty());
    }
}

/// The lowest member of a set of bits.
pub open spec fn lowest_of(s: Set<u32>) -> u32 {
    choose|p: u32| is_lowest(s, p)
}

proof fn lowest_unique(s: Set<u32>, p: u32)
    requires
        is_lowest(s, p),
    ensures
        lowest_of(s) == p,
{
    let q = lowest_of(s);
    assert(is_lowest(s, q));
    assert(s.contains(p) && s.contains(q));
}

proof fn holders_bound(rows: Seq<Set<u32>>, p: u32, n: nat)
    ensures
        holders(rows, p, n) <= n,
    decreases n,
{
    if n > 0 {
        holders_bound(rows, p, (n - 1) as nat);
    }
}

/// A reduced basis has no more rows than the plane has bits.
pub proof fn rows_bound(rows: Seq<Set<u32>>, pivots: Seq<u32>)
    requires
        reduced(rows, pivots),
        forall|j: int| 0 <= j < pivots.len() ==> #[trigger] pivots[j] < PLANE,
    ensures
        rows.len() <= PLANE,
{
    assert(pivots.no_duplicates()) by {
        assert forall|i: int, j: int| 0 <= i < pivots.len() && 0 <= j < pivots.len() && i != j implies pivots[i]
            != pivots[j] by {
            assert(rows[i].contains(pivots[i]));
            assert(!rows[i].contains(pivots[j]));
        }
    }
    pivots.unique_seq_to_set();
    let s = pivots.to_set();
    assert forall|b: u32| #[trigger] s.contains(b) implies b < PLANE by {
        let j = choose|j: int| 0 <= j < pivots.len() && pivots[j] == b;
        assert(pivots[j] < PLANE);
    }
    hllset::bit_list_facts(s);
}

/// A basis has no more rows than sets were taken in.
proof fn folded_len(sets: Seq<Set<u32>>)
    ensures
        folded(sets).0.len() <= sets.len(),
    decreases sets.len(),
{
    if sets.len() > 0 {
        folded_len(sets.drop_last());
    }
}

/// A window after a push: the oldest member leaves a full one.
pub open spec fn slid(window: Seq<Set<u32>>, s: Set<u32>, capacity: nat) -> Seq<Set<u32>> {
    if window.len() < capacity {
        window.push(s)
    } else {
        window.push(s).drop_first()
    }
}

/// What one push says of the ring.
#[derive(Clone, Copy, Debug, PartialEq, Eq, Structural)]
pub struct RingStats {
    /// Members of the residual against the window before the push.
    pub residual: u64,
    /// Whether the set was a sum of the window's members.
    pub in_span: bool,
    /// The dimension after the push and any eviction.
    pub dimension: usize,
    /// Older rows that held the new pivot.
    pub rotation_count: u64,
    /// `rotation_count * residual`.
    pub rotation_mass: u64,
}

/// The ring over the last sets pushed, at most `max_len` of them.
#[derive(Clone, Debug, PartialEq, Eq)]
pub struct BoolWindow {
    max_len: usize,
    originals: Vec<HLLSet>,
    basis: BoolBasis,
    generation: u64,
}

/// What a push of a set does to a window, and what it says of it.
pub open spec fn pushed(before: BoolWindow, after: BoolWindow, set: Set<u32>, stats: RingStats) -> bool {
    let rows = before.spec_basis().rows();
    let residual = residual_of(rows, before.spec_basis().pivots@, set);
    let full = before.window().len() == before.capacity();
    &&& after.wf()
    &&& after.capacity() == before.capacity()
    &&& after.window() == slid(before.window(), set, before.capacity())
    &&& after.changes() == before.changes() + (if stats.in_span { 0int } else { 1 }) + (if full { 1int } else { 0 })
    &&& stats.in_span && !full ==> after.spec_basis() == before.spec_basis()
    &&& stats.in_span == in_span(before.window(), set)
    &&& stats.residual == residual.len()
    &&& stats.in_span ==> stats.residual == 0 && stats.rotation_count == 0
    &&& !stats.in_span ==> stats.rotation_count == holders(rows, lowest_of(residual), rows.len())
    &&& stats.rotation_mass == stats.rotation_count * stats.residual
    &&& stats.dimension == after.spec_basis().rows().len()
}

impl BoolWindow {
    /// The capacity.
    pub closed spec fn capacity(&self) -> nat {
        self.max_len as nat
    }

    /// The sets in the window, oldest first.
    pub closed spec fn window(&self) -> Seq<Set<u32>> {
        set_views(self.originals@)
    }

    pub closed spec fn spec_basis(&self) -> BoolBasis {
        self.basis
    }

    /// How often the basis changed.
    pub closed spec fn changes(&self) -> nat {
        self.generation as nat
    }

    /// The basis is that of the window's members, in order.
    pub open spec fn wf(&self) -> bool {
        &&& self.capacity() >= 1
        &&& self.capacity() <= usize::MAX
        &&& self.window().len() <= self.capacity()
        &&& self.spec_basis().wf()
        &&& basis_of(self.window(), self.spec_basis().rows(), self.spec_basis().pivots@)
        &&& self.spec_basis().rows().len() <= self.window().len()
        &&& forall|x: Set<u32>| #[trigger] in_span(self.spec_basis().rows(), x) == in_span(self.window(), x)
    }

    /// An empty window; the capacity is at least one.
    pub fn new(max_len: usize) -> (w: BoolWindow)
        ensures
            w.wf(),
            w.capacity() == (if max_len > 1 { max_len } else { 1 }),
            w.window() == Seq::<Set<u32>>::empty(),
            w.changes() == 0,
    {
        let w = BoolWindow {
            max_len: if max_len > 1 {
                max_len
            } else {
                1
            },
            originals: Vec::new(),
            basis: BoolBasis::new(),
            generation: 0,
        };
        proof {
            assert(w.window() =~= Seq::<Set<u32>>::empty());
        }
        w
    }

    /// Copies the window.
    pub fn copy(&self) -> (w: BoolWindow)
        ensures
            w.capacity() == self.capacity(),
            w.window() == self.window(),
            w.changes() == self.changes(),
            w.spec_basis().rows() == self.spec_basis().rows(),
            w.spec_basis().pivots@ == self.spec_basis().pivots@,
    {
        BoolWindow {
            max_len: self.max_len,
            originals: vstd::slice::slice_to_vec(self.originals.as_slice()),
            basis: self.basis.copy(),
            generation: self.generation,
        }
    }

    pub fn window_len(&self) -> (n: usize)
        ensures
            n == self.window().len(),
    {
        self.originals.len()
    }

    pub fn dimension(&self) -> (n: usize)
        ensures
            n == self.spec_basis().rows().len(),
    {
        self.basis.dimension()
    }

    pub fn basis(&self) -> (b: &BoolBasis)
        ensures
            *b == self.spec_basis(),
    {
        &self.basis
    }

    /// The sets in the window, oldest first.
    pub fn originals(&self) -> (sets: &Vec<HLLSet>)
        ensures
            set_views(sets@) == self.window(),
    {
        &self.originals
    }

    /// How often the basis changed: once for each set outside the span, once for
    /// each eviction.
    pub fn generation(&self) -> (n: u64)
        ensures
            n == self.changes(),
    {
        self.generation
    }

    /// Takes one set in; the oldest leaves where the window is full.
    pub fn push(&mut self, set: &HLLSet) -> (stats: RingStats)
        requires
            old(self).wf(),
            old(self).changes() + 2 <= u64::MAX,
        ensures
            pushed(*old(self), *final(self), set@, stats),
    {
        let ghost before = *self;
        proof {
            residual_law(self.basis.rows(), self.basis.pivots@, set@);
            assert(in_span(before.basis.rows(), set@) == in_span(before.window(), set@));
        }
        let result = self.basis.insert(set);
        proof {
            basis_step(before.basis, self.basis, result, set@);
        }
        let mut residual: u64 = 0;
        let mut inside: bool = true;
        let mut rotation_count: u64 = 0;
        match result {
            InsertResult::InSpan { coords } => {
                proof {
                    set.members();
                    assert(residual_of(before.basis.rows(), before.basis.pivots@, set@) == Set::<u32>::empty());
                }
            },
            InsertResult::Added { residual: r, pivot, rotation_count: n } => {
                residual = r.popcount();
                inside = false;
                rotation_count = n as u64;
                self.generation = self.generation + 1;
                proof {
                    lowest_unique(r@, pivot);
                    holders_bound(before.basis.rows(), pivot, before.basis.rows().len());
                    rows_bound(before.basis.rows(), before.basis.pivots@);
                }
            },
        }
        self.originals.push(*set);
        proof {
            assert(self.window() =~= before.window().push(set@));
            assert(self.window().drop_last() =~= before.window());
            assert forall|x: Set<u32>| #[trigger] in_span(self.basis.rows(), x) == in_span(self.window(), x) by {
                span_push(before.basis.rows(), before.window(), set@, x);
            }
        }
        if self.originals.len() > self.max_len {
            let gone = self.originals.remove(0);
            self.recompute();
            self.generation = self.generation + 1;
            proof {
                assert(self.window() =~= before.window().push(set@).drop_first());
            }
        }
        let dimension = self.basis.dimension();
        proof {
            assert(rotation_count * residual <= PLANE * PLANE) by (nonlinear_arith)
                requires
                    rotation_count <= PLANE,
                    residual <= PLANE,
            ;
        }
        RingStats { residual, in_span: inside, dimension, rotation_count, rotation_mass: rotation_count * residual }
    }

    /// Computes the basis of the window's members anew.
    pub fn recompute(&mut self)
        requires
            old(self).capacity() >= 1,
            old(self).window().len() <= old(self).capacity(),
        ensures
            final(self).wf(),
            final(self).capacity() == old(self).capacity(),
            final(self).window() == old(self).window(),
            final(self).changes() == old(self).changes(),
    {
        let b = span_basis(self.originals.as_slice());
        self.basis = b;
        proof {
            folded_len(self.window());
        }
    }

    /// The part of a set outside the window's span.
    pub fn residual(&self, set: &HLLSet) -> (r: HLLSet)
        requires
            self.wf(),
        ensures
            r@ == residual_of(self.spec_basis().rows(), self.spec_basis().pivots@, set@),
            r@ == Set::<u32>::empty() <==> in_span(self.window(), set@),
    {
        self.basis.residual(set)
    }

    /// The coordinates of a set in the window's span.
    pub fn coordinates(&self, set: &HLLSet) -> (coords: Option<Vec<bool>>)
        requires
            self.wf(),
        ensures
            coords is Some <==> in_span(self.window(), set@),
            coords is Some ==> combination(self.spec_basis().rows(), coords->0@) == set@,
    {
        self.basis.coordinates(set)
    }
}

/// A set with a member has a lowest one.
proof fn lowest_exists(s: Set<u32>, b: u32)
    requires
        s.contains(b),
    ensures
        exists|p: u32| is_lowest(s, p),
    decreases b,
{
    if exists|c: u32| c < b && #[trigger] s.contains(c) {
        let c = choose|c: u32| c < b && #[trigger] s.contains(c);
        lowest_exists(s, c);
    } else {
        assert(is_lowest(s, b));
    }
}

/// A sum of sets on the plane is on the plane.
proof fn combination_on_plane(rows: Seq<Set<u32>>, c: Seq<bool>)
    requires
        forall|i: int| 0 <= i < rows.len() ==> hllset::on_plane(#[trigger] rows[i]),
    ensures
        hllset::on_plane(combination(rows, c)),
    decreases rows.len(),
{
    if rows.len() > 0 {
        let front = rows.drop_last();
        assert forall|i: int| 0 <= i < front.len() implies hllset::on_plane(#[trigger] front[i]) by {
            assert(front[i] == rows[i]);
        }
        combination_on_plane(front, c.drop_last());
        assert(hllset::on_plane(rows[rows.len() - 1]));
        assert forall|b: u32| #[trigger] combination(rows, c).contains(b) implies b < PLANE by {
            if rows.last().contains(b) {
                assert(rows[rows.len() - 1].contains(b));
            } else {
                assert(combination(front, c.drop_last()).contains(b));
            }
        }
    }
}

/// The basis of a list of sets spans what the list spans. Each row has one bit that is
/// its lowest and that no other row has. A further set adds one row where it is no sum
/// of the list's sets, and none where it is.
pub proof fn basis_law(sets: Seq<Set<u32>>, s: Set<u32>)
    requires
        forall|i: int| 0 <= i < sets.len() ==> hllset::on_plane(#[trigger] sets[i]),
        hllset::on_plane(s),
    ensures
        ({
            let (rows, pivots) = folded(sets);
            &&& rows.len() == pivots.len() && rows.len() <= sets.len()
            &&& forall|x: Set<u32>| #[trigger] in_span(rows, x) == in_span(sets, x)
            &&& forall|i: int| 0 <= i < rows.len() ==> hllset::on_plane(#[trigger] rows[i])
            &&& forall|j: int| 0 <= j < rows.len() ==> #[trigger] pivots[j] < PLANE
            &&& forall|i: int, j: int|
                0 <= i < rows.len() && 0 <= j < rows.len() ==> (#[trigger] rows[i].contains(#[trigger] pivots[j]) <==> i == j)
            &&& forall|i: int, b: u32| 0 <= i < rows.len() && b < pivots[i] ==> !#[trigger] rows[i].contains(b)
            &&& reduced(rows, pivots)
            &&& folded(sets.push(s)).0.len() == rows.len() + (if in_span(sets, s) {
                0int
            } else {
                1
            })
        }),
    decreases sets.len(),
{
    folded_len(sets);
    let (rows, pivots) = folded(sets);
    if sets.len() == 0 {
        assert(rows =~= sets);
    } else {
        let front = sets.drop_last();
        let t = sets.last();
        assert(sets =~= front.push(t));
        assert(hllset::on_plane(sets[sets.len() - 1]));
        assert forall|i: int| 0 <= i < front.len() implies hllset::on_plane(#[trigger] front[i]) by {
            assert(front[i] == sets[i]);
        }
        basis_law(front, t);
        let (a, p) = folded(front);
        let r = residual_of(a, p, t);
        residual_law(a, p, t);
        combination_on_plane(a, coords_of(p, t));
        assert(hllset::on_plane(r)) by {
            assert forall|b: u32| #[trigger] r.contains(b) implies b < PLANE by {
                assert(t.contains(b) || combination(a, coords_of(p, t)).contains(b));
            }
        }
        if r == Set::<u32>::empty() {
            assert forall|x: Set<u32>| #[trigger] in_span(rows, x) == in_span(sets, x) by {
                redundant_row(front, t, x);
            }
        } else {
            let b = choose|b: u32| #[trigger] r.contains(b);
            assert(exists|b: u32| #[trigger] r.contains(b)) by {
                if forall|b: u32| !#[trigger] r.contains(b) {
                    assert(r =~= Set::<u32>::empty());
                }
            }
            lowest_exists(r, b);
            let q = choose|q: u32| is_lowest(r, q);
            insertion_law(a, p, t, q);
            assert forall|x: Set<u32>| #[trigger] in_span(rows, x) == in_span(sets, x) by {
                span_push(a, front, t, x);
                assert(in_span(a.push(t), x) == in_span(front.push(t), x));
            }
            assert forall|i: int| 0 <= i < rows.len() implies hllset::on_plane(#[trigger] rows[i]) by {
                if i < a.len() {
                    assert(hllset::on_plane(a[i]));
                    assert forall|b: u32| #[trigger] rows[i].contains(b) implies b < PLANE by {
                        assert(a[i].contains(b) || r.contains(b));
                    }
                }
            }
        }
    }
    residual_law(rows, pivots, s);
    assert(sets.push(s).drop_last() =~= sets);
    assert(in_span(rows, s) == in_span(sets, s));
}

/// The rows that a set uses are those at whose pivots it has a bit, each once.
pub proof fn used_rows_law(pivots: Seq<u32>, s: Set<u32>, n: nat)
    requires
        pivots.len() <= PLANE,
        n <= PLANE,
        pivots.no_duplicates(),
    ensures
        forall|j: int|
            0 <= j < pivots.len() ==> (used_rows(pivots, s, n).contains(j as usize) <==> s.contains(#[trigger] pivots[j])
                && pivots[j] < n),
        used_rows(pivots, s, n).no_duplicates(),
        forall|i: int|
            0 <= i < used_rows(pivots, s, n).len() ==> #[trigger] used_rows(pivots, s, n)[i] < pivots.len() && pivots[used_rows(
                pivots,
                s,
                n,
            )[i] as int] < n,
    decreases n,
{
    if n > 0 {
        let p = (n - 1) as u32;
        let k = pivot_index(pivots, p, 0);
        pivot_index_facts(pivots, p, 0);
        used_rows_law(pivots, s, (n - 1) as nat);
        let before = used_rows(pivots, s, (n - 1) as nat);
        let after = used_rows(pivots, s, n);
        if s.contains(p) && k < pivots.len() {
            assert forall|j: int| 0 <= j < pivots.len() implies (after.contains(j as usize) <==> s.contains(#[trigger] pivots[j])
                && pivots[j] < n) by {
                crate::search::pushed_members(before, k as usize, j as usize);
                if pivots[j] == p {
                    assert(j == k);
                }
            }
            assert(!before.contains(k as usize)) by {
                assert(before.contains(k as usize) <==> s.contains(pivots[k]) && pivots[k] < n - 1);
            }
            assert(after.no_duplicates()) by {
                assert forall|i: int, j: int| 0 <= i < after.len() && 0 <= j < after.len() && i != j implies after[i] != after[j] by {
                    if i == before.len() {
                        assert(before.contains(before[j]));
                    } else if j == before.len() {
                        assert(before.contains(before[i]));
                    }
                }
            }
            assert forall|i: int| 0 <= i < after.len() implies #[trigger] after[i] < pivots.len() && pivots[after[i] as int] < n by {
                if i < before.len() {
                    assert(before[i] < pivots.len());
                }
            }
        } else {
            assert forall|j: int| 0 <= j < pivots.len() implies (after.contains(j as usize) <==> s.contains(#[trigger] pivots[j])
                && pivots[j] < n) by {
                if pivots[j] == p {
                    assert(k < pivots.len());
                }
            }
            assert forall|i: int| 0 <= i < after.len() implies #[trigger] after[i] < pivots.len() && pivots[after[i] as int] < n by {
                assert(before[i] < pivots.len());
            }
        }
    }
}

/// How many of the first `n` rows have a bit.
pub proof fn holders_law(rows: Seq<Set<u32>>, p: u32, n: nat)
    requires
        n <= rows.len(),
    ensures
        holders(rows, p, n) == rows.take(n as int).filter(|r: Set<u32>| r.contains(p)).len(),
    decreases n,
{
    reveal(Seq::filter);
    if n > 0 {
        holders_law(rows, p, (n - 1) as nat);
        assert(rows.take(n as int).drop_last() =~= rows.take(n - 1));
        assert(rows.take(n as int).last() == rows[n - 1]);
    }
}

/// A window after a push holds the new set last and before it, in order, the latest of
/// what it held; it never holds more than its capacity, and drops nothing before.
pub proof fn slide_law(window: Seq<Set<u32>>, s: Set<u32>, capacity: nat)
    requires
        capacity >= 1,
        window.len() <= capacity,
    ensures
        slid(window, s, capacity).len() == (if window.len() < capacity {
            window.len() + 1
        } else {
            capacity
        }),
        slid(window, s, capacity).last() == s,
        forall|i: int|
            2 <= i <= slid(window, s, capacity).len() ==> #[trigger] slid(window, s, capacity)[slid(window, s, capacity).len() - i]
                == window[window.len() - i + 1],
{
}

/// A sum of sets, bit by bit: adding a set to a list whose chosen members sum up to
/// some set turns each of its bits, if it is chosen, and none otherwise.
pub proof fn combination_grows(rows: Seq<Set<u32>>, c: Seq<bool>, s: Set<u32>, chosen: bool, x: u32)
    requires
        rows.len() == c.len(),
    ensures
        combination(Seq::empty(), Seq::empty()) == Set::<u32>::empty(),
        combination(rows.push(s), c.push(chosen)).contains(x) <==> (combination(rows, c).contains(x) != (chosen && s.contains(x))),
{
    assert(rows.push(s).drop_last() =~= rows);
    assert(c.push(chosen).drop_last() =~= c);
}

/// What is left of a set on the plane is on the plane.
pub proof fn residual_on_plane(rows: Seq<Set<u32>>, pivots: Seq<u32>, s: Set<u32>)
    requires
        forall|i: int| 0 <= i < rows.len() ==> hllset::on_plane(#[trigger] rows[i]),
        hllset::on_plane(s),
    ensures
        hllset::on_plane(residual_of(rows, pivots, s)),
{
    combination_on_plane(rows, coords_of(pivots, s));
    assert forall|b: u32| #[trigger] residual_of(rows, pivots, s).contains(b) implies b < PLANE by {
        assert(s.contains(b) || combination(rows, coords_of(pivots, s)).contains(b));
    }
}

} // verus!
