//! Restoring a sequence from what its windows leave behind: a depth-first walk
//! within a budget, and a beam search.
//!
//! Both fill positions one by one. A token may stand at the next position if its
//! count is not used up and the chain says that it extends the path.

use vstd::prelude::*;

use crate::order::Keyed;
use crate::order::Side;
use crate::hllset;
use crate::lut;
use crate::order;
use crate::tf;

verus! {

/// What is known of the sequence to restore.
pub trait Chain {
    spec fn wf(&self) -> bool;

    /// The number of positions.
    spec fn size(&self) -> nat;

    /// The count of a token.
    spec fn weight(&self, t: Seq<u8>) -> nat;

    /// Whether a token may stand behind a path.
    spec fn extends(&self, path: Seq<Seq<u8>>, t: Seq<u8>) -> bool;

    /// Whether a full path may end there.
    spec fn closes(&self, path: Seq<Seq<u8>>) -> bool;

    proof fn weight_fits(&self, t: Seq<u8>)
        ensures
            self.weight(t) <= u64::MAX,
    ;

    fn total(&self) -> (n: usize)
        requires
            self.wf(),
        ensures
            n == self.size(),
    ;

    fn count(&self, t: &[u8]) -> (n: u64)
        requires
            self.wf(),
        ensures
            n == self.weight(t@),
    ;

    fn follows(&self, path: &Vec<Vec<u8>>, t: &[u8]) -> (yes: bool)
        requires
            self.wf(),
            path@.len() < self.size(),
        ensures
            yes == self.extends(hllset::token_views(path@), t@),
    ;

    fn ends(&self, path: &Vec<Vec<u8>>) -> (yes: bool)
        requires
            self.wf(),
            path@.len() == self.size(),
            self.size() > 0,
        ensures
            yes == self.closes(hllset::token_views(path@)),
    ;
}

/// The tokens that may stand behind a path.
pub open spec fn fits<C: Chain>(m: C, path: Seq<Seq<u8>>) -> spec_fn(Seq<u8>) -> bool {
    |t: Seq<u8>| m.weight(t) > tf::occurrences(path, t) && m.extends(path, t)
}

/// The rank of a token: higher counts first, then byte order.
pub open spec fn weight_rank<C: Chain>(m: C) -> spec_fn(Seq<u8>) -> Seq<Seq<int>> {
    |t: Seq<u8>| seq![seq![-(m.weight(t) as int)], order::ints(t)]
}

/// The tokens that may stand behind a path, by rank.
pub open spec fn candidates<C: Chain>(m: C, tokens: Seq<Seq<u8>>, path: Seq<Seq<u8>>) -> Seq<Seq<u8>> {
    order::ranked(tokens.filter(fits(m, path)), weight_rank(m))
}

/// The walk from a path: the first full path found that closes, and the budget
/// left. Every visited path costs one unit.
pub open spec fn explore<C: Chain>(m: C, tokens: Seq<Seq<u8>>, path: Seq<Seq<u8>>, budget: nat) -> (
    Option<Seq<Seq<u8>>>,
    nat,
)
    decreases m.size() - path.len(), 1nat, 0nat,
{
    if budget == 0 {
        (None, 0)
    } else if path.len() >= m.size() {
        (if m.closes(path) { Some(path) } else { None }, (budget - 1) as nat)
    } else {
        explore_each(m, tokens, path, candidates(m, tokens, path), (budget - 1) as nat)
    }
}

/// The walk through the given continuations of a path, in turn.
pub open spec fn explore_each<C: Chain>(
    m: C,
    tokens: Seq<Seq<u8>>,
    path: Seq<Seq<u8>>,
    nexts: Seq<Seq<u8>>,
    budget: nat,
) -> (Option<Seq<Seq<u8>>>, nat)
    decreases m.size() - path.len(), 0nat, nexts.len(),
{
    if nexts.len() == 0 || path.len() >= m.size() {
        (None, budget)
    } else {
        let first = explore(m, tokens, path.push(nexts[0]), budget);
        if first.0 is Some {
            first
        } else {
            explore_each(m, tokens, path, nexts.drop_first(), first.1)
        }
    }
}

/// A path each of whose tokens extends what stands before it, within the counts.
pub open spec fn partial_chain<C: Chain>(m: C, path: Seq<Seq<u8>>) -> bool {
    &&& forall|i: int| 0 <= i < path.len() ==> m.extends(path.take(i), #[trigger] path[i])
    &&& forall|t: Seq<u8>| path.contains(t) ==> #[trigger] tf::occurrences(path, t) <= m.weight(t)
}

/// A full path that closes.
pub open spec fn full_chain<C: Chain>(m: C, path: Seq<Seq<u8>>) -> bool {
    path.len() == m.size() && partial_chain(m, path) && m.closes(path)
}

/// A token that fits behind a partial chain makes a longer one.
pub proof fn longer_chain<C: Chain>(m: C, path: Seq<Seq<u8>>, t: Seq<u8>)
    requires
        partial_chain(m, path),
        fits(m, path)(t),
    ensures
        partial_chain(m, path.push(t)),
{
    let q = path.push(t);
    assert(q.drop_last() =~= path);
    assert forall|i: int| 0 <= i < q.len() implies m.extends(q.take(i), #[trigger] q[i]) by {
        if i < path.len() {
            assert(q.take(i) =~= path.take(i));
            assert(q[i] == path[i]);
        } else {
            assert(q.take(i) =~= path);
        }
    }
    assert forall|x: Seq<u8>| q.contains(x) implies #[trigger] tf::occurrences(q, x) <= m.weight(x) by {
        if x != t {
            let i = choose|i: int| 0 <= i < q.len() && q[i] == x;
            assert(path[i] == x);
            assert(tf::occurrences(path, x) <= m.weight(x));
        }
    }
}

/// Candidates fit.
pub proof fn candidates_fit<C: Chain>(m: C, tokens: Seq<Seq<u8>>, path: Seq<Seq<u8>>)
    ensures
        forall|t: Seq<u8>| #[trigger] candidates(m, tokens, path).contains(t) ==> fits(m, path)(t) && tokens.contains(t),
{
    weight_rank_faithful(m);
    let f = tokens.filter(fits(m, path));
    order::ranked_facts(f, weight_rank(m));
    assert forall|t: Seq<u8>| #[trigger] candidates(m, tokens, path).contains(t) implies fits(m, path)(t) && tokens.contains(
        t,
    ) by {
        assert(f.contains(t));
        filter_members(tokens, fits(m, path), t);
    }
}

/// A filtered list holds nothing twice where the list does not.
pub proof fn filter_distinct<A>(s: Seq<A>, f: spec_fn(A) -> bool)
    requires
        s.no_duplicates(),
    ensures
        s.filter(f).no_duplicates(),
    decreases s.len(),
{
    reveal(Seq::filter);
    if s.len() > 0 {
        let p = s.drop_last();
        filter_distinct(p, f);
        if f(s.last()) {
            filter_members(p, f, s.last());
            assert(!p.contains(s.last())) by {
                if p.contains(s.last()) {
                    let i = choose|i: int| 0 <= i < p.len() && p[i] == s.last();
                    assert(s[i] == s[s.len() - 1]);
                }
            }
        }
    }
}

/// The members of a list that grew by one.
pub proof fn pushed_members<A>(s: Seq<A>, x: A, y: A)
    ensures
        s.push(x).contains(y) == (s.contains(y) || y == x),
{
    let longer = s.push(x);
    if s.contains(y) {
        let j = choose|j: int| 0 <= j < s.len() && s[j] == y;
        assert(longer[j] == y);
    }
    if y == x {
        assert(longer[s.len() as int] == y);
    }
    if longer.contains(y) {
        let j = choose|j: int| 0 <= j < longer.len() && longer[j] == y;
        if j < s.len() {
            assert(s[j] == y);
        }
    }
}

/// What a filtered list holds.
pub proof fn filter_members<A>(s: Seq<A>, f: spec_fn(A) -> bool, x: A)
    ensures
        s.filter(f).contains(x) == (s.contains(x) && f(x)),
    decreases s.len(),
{
    reveal(Seq::filter);
    if s.len() > 0 {
        let p = s.drop_last();
        filter_members(p, f, x);
        assert(s =~= p.push(s.last()));
        if p.contains(x) {
            let i = choose|i: int| 0 <= i < p.len() && p[i] == x;
            assert(s[i] == x);
        }
        if s.contains(x) && x != s.last() {
            let i = choose|i: int| 0 <= i < s.len() && s[i] == x;
            assert(p[i] == x);
        }
        let g = p.filter(f);
        if f(s.last()) {
            assert(s.filter(f) =~= g.push(s.last()));
            if g.contains(x) {
                let i = choose|i: int| 0 <= i < g.len() && g[i] == x;
                assert(g.push(s.last())[i] == x);
            }
            if g.push(s.last()).contains(x) && x != s.last() {
                let i = choose|i: int| 0 <= i < g.push(s.last()).len() && g.push(s.last())[i] == x;
                assert(g[i] == x);
            }
            assert(g.push(s.last())[g.len() as int] == s.last());
        } else {
            assert(s.filter(f) =~= g);
        }
        if x == s.last() {
            assert(s[s.len() - 1] == x);
        }
    }
}

/// The walk finds full chains only.
pub proof fn explore_sound<C: Chain>(m: C, tokens: Seq<Seq<u8>>, path: Seq<Seq<u8>>, budget: nat)
    requires
        partial_chain(m, path),
        path.len() <= m.size(),
    ensures
        explore(m, tokens, path, budget).0 is Some ==> full_chain(m, explore(m, tokens, path, budget).0->0),
        explore(m, tokens, path, budget).1 <= budget,
    decreases m.size() - path.len(), 1nat, 0nat,
{
    if budget > 0 && path.len() < m.size() {
        candidates_fit(m, tokens, path);
        explore_each_sound(m, tokens, path, candidates(m, tokens, path), (budget - 1) as nat);
    }
}

/// The walk through continuations that fit finds full chains only.
pub proof fn explore_each_sound<C: Chain>(
    m: C,
    tokens: Seq<Seq<u8>>,
    path: Seq<Seq<u8>>,
    nexts: Seq<Seq<u8>>,
    budget: nat,
)
    requires
        partial_chain(m, path),
        path.len() < m.size(),
        forall|t: Seq<u8>| #[trigger] nexts.contains(t) ==> fits(m, path)(t),
    ensures
        explore_each(m, tokens, path, nexts, budget).0 is Some ==> full_chain(
            m,
            explore_each(m, tokens, path, nexts, budget).0->0,
        ),
        explore_each(m, tokens, path, nexts, budget).1 <= budget,
    decreases m.size() - path.len(), 0nat, nexts.len(),
{
    if nexts.len() > 0 {
        assert(nexts.contains(nexts[0]));
        longer_chain(m, path, nexts[0]);
        explore_sound(m, tokens, path.push(nexts[0]), budget);
        let first = explore(m, tokens, path.push(nexts[0]), budget);
        if first.0 is None {
            let rest = nexts.drop_first();
            assert forall|t: Seq<u8>| #[trigger] rest.contains(t) implies fits(m, path)(t) by {
                let i = choose|i: int| 0 <= i < rest.len() && rest[i] == t;
                assert(nexts[i + 1] == t);
                assert(nexts.contains(t));
            }
            explore_each_sound(m, tokens, path, rest, first.1);
        }
    }
}

pub proof fn weight_rank_faithful<C: Chain>(m: C)
    ensures
        order::faithful(weight_rank(m)),
{
    let r = weight_rank(m);
    assert forall|a: Seq<u8>, b: Seq<u8>| #[trigger] r(a) == #[trigger] r(b) implies a == b by {
        assert(r(a)[1] == r(b)[1]);
        order::ints_injective(a, b);
    }
}

/// A token with its count and its index among the tokens.
pub struct Weighted {
    pub weight: u64,
    pub token: Vec<u8>,
    pub index: usize,
}

impl Keyed for Weighted {
    open spec fn rank(&self) -> Seq<Seq<int>> {
        seq![seq![-(self.weight as int)], order::ints(self.token@)]
    }

    fn before(&self, other: &Self) -> (first: bool) {
        let side = order::compare_bytes(self.token.as_slice(), other.token.as_slice());
        proof {
            lut::row_order(-(self.weight as int), order::ints(self.token@), -(other.weight as int), order::ints(other.token@));
            if order::ints(self.token@) == order::ints(other.token@) {
                order::ints_injective(self.token@, other.token@);
            }
        }
        if self.weight != other.weight {
            self.weight > other.weight
        } else {
            match side {
                Side::Less => true,
                _ => false,
            }
        }
    }
}

pub open spec fn weighted_token() -> spec_fn(Weighted) -> Seq<u8> {
    |w: Weighted| w.token@
}

/// The counts that a path leaves of each token.
pub open spec fn counts_left<C: Chain>(m: C, tokens: Seq<Seq<u8>>, path: Seq<Seq<u8>>, left: Seq<u64>) -> bool {
    &&& left.len() == tokens.len()
    &&& forall|i: int| 0 <= i < tokens.len() ==> #[trigger] left[i] + tf::occurrences(path, tokens[i]) == m.weight(tokens[i])
}

/// Items that stand for tokens of a list.
pub open spec fn indexed<C: Chain>(m: C, tokens: Seq<Seq<u8>>, items: Seq<Weighted>) -> bool {
    forall|i: int|
        0 <= i < items.len() ==> (#[trigger] items[i]).index < tokens.len() && tokens[items[i].index as int]
            == items[i].token@ && items[i].weight == m.weight(items[i].token@)
}

/// The tokens that fit behind a path, in token order.
fn fitting<C: Chain>(m: &C, tokens: &Vec<Vec<u8>>, path: &Vec<Vec<u8>>, left: &Vec<u64>) -> (items: Vec<Weighted>)
    requires
        m.wf(),
        path@.len() < m.size(),
        counts_left(*m, hllset::token_views(tokens@), hllset::token_views(path@), left@),
    ensures
        items@.map_values(weighted_token()) == hllset::token_views(tokens@).filter(fits(*m, hllset::token_views(path@))),
        indexed(*m, hllset::token_views(tokens@), items@),
{
    let ghost all = hllset::token_views(tokens@);
    let ghost p = hllset::token_views(path@);
    let mut items: Vec<Weighted> = Vec::new();
    let mut i: usize = 0;
    proof {
        reveal(Seq::filter);
        assert(items@.map_values(weighted_token()) =~= all.take(0).filter(fits(*m, p)));
    }
    while i < tokens.len()
        invariant
            i <= tokens.len(),
            m.wf(),
            path@.len() < m.size(),
            all == hllset::token_views(tokens@),
            p == hllset::token_views(path@),
            counts_left(*m, all, p, left@),
            items@.map_values(weighted_token()) == all.take(i as int).filter(fits(*m, p)),
            indexed(*m, all, items@),
        decreases tokens.len() - i,
    {
        let ghost before = items@;
        proof {
            assert(all[i as int] == tokens@[i as int]@);
            assert(left@[i as int] + tf::occurrences(p, all[i as int]) == m.weight(all[i as int]));
            assert(all.take(i as int + 1).drop_last() =~= all.take(i as int));
        }
        if left[i] > 0 && m.follows(path, tokens[i].as_slice()) {
            let w = Weighted {
                weight: m.count(tokens[i].as_slice()),
                token: lut::copy_bytes(tokens[i].as_slice()),
                index: i,
            };
            items.push(w);
            proof {
                assert(items@.map_values(weighted_token()) =~= before.map_values(weighted_token()).push(w.token@));
            }
        }
        proof {
            reveal(Seq::filter);
            assert(items@.map_values(weighted_token()) =~= all.take(i as int + 1).filter(fits(*m, p)));
        }
        i = i + 1;
    }
    proof {
        assert(all.take(i as int) =~= all);
    }
    items
}

/// The candidates behind a path, by rank.
pub fn rank_candidates<C: Chain>(m: &C, tokens: &Vec<Vec<u8>>, path: &Vec<Vec<u8>>, left: &Vec<u64>) -> (items: Vec<Weighted>)
    requires
        m.wf(),
        path@.len() < m.size(),
        counts_left(*m, hllset::token_views(tokens@), hllset::token_views(path@), left@),
    ensures
        items@.map_values(weighted_token()) == candidates(*m, hllset::token_views(tokens@), hllset::token_views(path@)),
        indexed(*m, hllset::token_views(tokens@), items@),
{
    let items = fitting(m, tokens, path, left);
    let sorted = order::sort_items(items);
    proof {
        weight_rank_faithful(*m);
        order::ranked_images(sorted@, items@, weighted_token(), weight_rank(*m));
        order::same_members(sorted@, items@);
        assert forall|i: int| 0 <= i < sorted@.len() implies (#[trigger] sorted@[i]).index < tokens@.len()
            && hllset::token_views(tokens@)[sorted@[i].index as int] == sorted@[i].token@ && sorted@[i].weight == m.weight(
            sorted@[i].token@,
        ) by {
            assert(sorted@.contains(sorted@[i]));
            let j = choose|j: int| 0 <= j < items@.len() && items@[j] == sorted@[i];
            assert(items@[j].index < hllset::token_views(tokens@).len());
        }
    }
    sorted
}

/// Placing a token uses up one of its count.
proof fn counts_after<C: Chain>(
    m: C,
    tokens: Seq<Seq<u8>>,
    path: Seq<Seq<u8>>,
    left: Seq<u64>,
    index: int,
    after: Seq<u64>,
)
    requires
        lut::ascending_tokens(tokens),
        counts_left(m, tokens, path, left),
        0 <= index < tokens.len(),
        left[index] > 0,
        after == left.update(index, (left[index] - 1) as u64),
    ensures
        counts_left(m, tokens, path.push(tokens[index]), after),
{
    let q = path.push(tokens[index]);
    assert(q.drop_last() =~= path);
    assert forall|i: int| 0 <= i < tokens.len() implies #[trigger] after[i] + tf::occurrences(q, tokens[i]) == m.weight(
        tokens[i],
    ) by {
        assert(left[i] + tf::occurrences(path, tokens[i]) == m.weight(tokens[i]));
        if i != index {
            order::bytes_irreflexive(tokens[i]);
            if i < index {
                assert(order::bytes_less(tokens[i], tokens[index]));
            } else {
                assert(order::bytes_less(tokens[index], tokens[i]));
            }
        }
    }
}

/// A candidate has some of its count left.
proof fn candidate_left<C: Chain>(
    m: C,
    tokens: Seq<Seq<u8>>,
    path: Seq<Seq<u8>>,
    left: Seq<u64>,
    items: Seq<Weighted>,
    k: int,
)
    requires
        counts_left(m, tokens, path, left),
        indexed(m, tokens, items),
        items.map_values(weighted_token()) == candidates(m, tokens, path),
        0 <= k < items.len(),
    ensures
        items[k].index < left.len(),
        left[items[k].index as int] > 0,
        tokens[items[k].index as int] == items[k].token@,
{
    candidates_fit(m, tokens, path);
    let c = candidates(m, tokens, path);
    assert(items.map_values(weighted_token())[k] == items[k].token@);
    assert(c.contains(c[k]));
    let j = items[k].index as int;
    assert(left[j] + tf::occurrences(path, tokens[j]) == m.weight(tokens[j]));
}

/// Walks on from a path. On success the path is the one found; on failure path
/// and counts are as before.
pub fn walk<C: Chain>(
    m: &C,
    tokens: &Vec<Vec<u8>>,
    path: &mut Vec<Vec<u8>>,
    left: &mut Vec<u64>,
    budget: &mut usize,
) -> (found: bool)
    requires
        m.wf(),
        m.size() > 0,
        lut::ascending_tokens(hllset::token_views(tokens@)),
        old(path)@.len() <= m.size(),
        counts_left(*m, hllset::token_views(tokens@), hllset::token_views(old(path)@), old(left)@),
    ensures
        *final(budget) as nat == explore(*m, hllset::token_views(tokens@), hllset::token_views(old(path)@), *old(budget) as nat).1,
        found == (explore(*m, hllset::token_views(tokens@), hllset::token_views(old(path)@), *old(budget) as nat).0 is Some),
        found ==> hllset::token_views(final(path)@) == explore(
            *m,
            hllset::token_views(tokens@),
            hllset::token_views(old(path)@),
            *old(budget) as nat,
        ).0->0,
        !found ==> hllset::token_views(final(path)@) == hllset::token_views(old(path)@) && final(left)@ == old(left)@,
    decreases m.size() - old(path)@.len(), 1nat,
{
    if *budget == 0 {
        return false;
    }
    *budget = *budget - 1;
    if path.len() == m.total() {
        return m.ends(path);
    }
    let nexts = rank_candidates(m, tokens, path, left);
    walk_each(m, tokens, path, left, budget, &nexts)
}

/// Walks through the given continuations of a path, in turn.
pub fn walk_each<C: Chain>(
    m: &C,
    tokens: &Vec<Vec<u8>>,
    path: &mut Vec<Vec<u8>>,
    left: &mut Vec<u64>,
    budget: &mut usize,
    nexts: &Vec<Weighted>,
) -> (found: bool)
    requires
        m.wf(),
        m.size() > 0,
        lut::ascending_tokens(hllset::token_views(tokens@)),
        old(path)@.len() < m.size(),
        counts_left(*m, hllset::token_views(tokens@), hllset::token_views(old(path)@), old(left)@),
        indexed(*m, hllset::token_views(tokens@), nexts@),
        nexts@.map_values(weighted_token()) == candidates(*m, hllset::token_views(tokens@), hllset::token_views(old(path)@)),
    ensures
        *final(budget) as nat == explore_each(
            *m,
            hllset::token_views(tokens@),
            hllset::token_views(old(path)@),
            nexts@.map_values(weighted_token()),
            *old(budget) as nat,
        ).1,
        found == (explore_each(
            *m,
            hllset::token_views(tokens@),
            hllset::token_views(old(path)@),
            nexts@.map_values(weighted_token()),
            *old(budget) as nat,
        ).0 is Some),
        found ==> hllset::token_views(final(path)@) == explore_each(
            *m,
            hllset::token_views(tokens@),
            hllset::token_views(old(path)@),
            nexts@.map_values(weighted_token()),
            *old(budget) as nat,
        ).0->0,
        !found ==> hllset::token_views(final(path)@) == hllset::token_views(old(path)@) && final(left)@ == old(left)@,
    decreases m.size() - old(path)@.len(), 0nat,
{
    let ghost all = hllset::token_views(tokens@);
    let ghost p = hllset::token_views(path@);
    let ghost before_left = left@;
    let ghost names = nexts@.map_values(weighted_token());
    let ghost goal = explore_each(*m, all, p, names, *budget as nat);
    let mut k: usize = 0;
    proof {
        assert(names.skip(0) =~= names);
    }
    while k < nexts.len()
        invariant
            k <= nexts.len(),
            m.wf(),
            m.size() > 0,
            all == hllset::token_views(tokens@),
            p == hllset::token_views(old(path)@),
            old(path)@.len() < m.size(),
            p.len() < m.size(),
            p.len() == old(path)@.len(),
            lut::ascending_tokens(all),
            hllset::token_views(path@) == p,
            left@ == before_left,
            before_left == old(left)@,
            counts_left(*m, all, p, before_left),
            indexed(*m, all, nexts@),
            names == nexts@.map_values(weighted_token()),
            names == candidates(*m, all, p),
            goal == explore_each(*m, all, p, names, *old(budget) as nat),
            goal == explore_each(*m, all, p, names.skip(k as int), *budget as nat),
        decreases nexts.len() - k,
    {
        let j = nexts[k].index;
        proof {
            candidate_left(*m, all, p, before_left, nexts@, k as int);
            assert(hllset::token_views(path@).len() == path@.len());
        }
        let n: u64 = left[j];
        left[j] = n - 1;
        let ghost shorter = path@;
        path.push(lut::copy_bytes(nexts[k].token.as_slice()));
        proof {
            counts_after(*m, all, p, before_left, j as int, left@);
            assert(hllset::token_views(path@) =~= p.push(nexts@[k as int].token@));
            assert(names.skip(k as int)[0] == nexts@[k as int].token@);
            assert(names.skip(k as int).drop_first() =~= names.skip(k as int + 1));
        }
        if walk(m, tokens, path, left, budget) {
            return true;
        }
        proof {
            assert(hllset::token_views(path@).len() == path@.len());
        }
        let ghost longer = path@;
        let gone = path.pop();
        left[j] = n;
        proof {
            assert forall|i: int| 0 <= i < p.len() implies hllset::token_views(path@)[i] == p[i] by {
                assert(hllset::token_views(longer)[i] == p.push(nexts@[k as int].token@)[i]);
            }
            assert(hllset::token_views(path@) =~= p);
            assert(left@ =~= before_left);
        }
        k = k + 1;
    }
    proof {
        assert(names.skip(k as int) =~= Seq::<Seq<u8>>::empty());
    }
    false
}

/// The sum of the counts of a path's tokens.
pub open spec fn path_score<C: Chain>(m: C, path: Seq<Seq<u8>>) -> nat
    decreases path.len(),
{
    if path.len() == 0 {
        0
    } else {
        path_score(m, path.drop_last()) + m.weight(path.last())
    }
}

proof fn path_score_bound<C: Chain>(m: C, path: Seq<Seq<u8>>)
    ensures
        path_score(m, path) <= path.len() * u64::MAX,
    decreases path.len(),
{
    if path.len() > 0 {
        path_score_bound(m, path.drop_last());
        m.weight_fits(path.last());
        assert((path.len() - 1) * u64::MAX + u64::MAX == path.len() * u64::MAX) by (nonlinear_arith);
    }
}

pub open spec fn path_ints(path: Seq<Seq<u8>>) -> Seq<Seq<int>> {
    path.map_values(|t: Seq<u8>| order::ints(t))
}

/// The rank of a path: higher scores first, then token by token in byte order.
pub open spec fn path_rank<C: Chain>(m: C) -> spec_fn(Seq<Seq<u8>>) -> Seq<Seq<int>> {
    |p: Seq<Seq<u8>>| seq![seq![-(path_score(m, p) as int)]] + path_ints(p)
}

pub proof fn path_ints_injective(a: Seq<Seq<u8>>, b: Seq<Seq<u8>>)
    requires
        path_ints(a) == path_ints(b),
    ensures
        a == b,
{
    assert(a.len() == path_ints(a).len() && b.len() == path_ints(b).len());
    assert forall|i: int| 0 <= i < a.len() implies a[i] == b[i] by {
        assert(path_ints(a)[i] == order::ints(a[i]));
        assert(path_ints(b)[i] == order::ints(b[i]));
        order::ints_injective(a[i], b[i]);
    }
    assert(a =~= b);
}

pub proof fn path_rank_faithful<C: Chain>(m: C)
    ensures
        order::faithful(path_rank(m)),
{
    let r = path_rank(m);
    assert forall|a: Seq<Seq<u8>>, b: Seq<Seq<u8>>| #[trigger] r(a) == #[trigger] r(b) implies a == b by {
        assert(r(a).skip(1) =~= path_ints(a));
        assert(r(b).skip(1) =~= path_ints(b));
        path_ints_injective(a, b);
    }
}

/// The paths one longer than a path, in token order; none behind a full path.
pub open spec fn longer_paths<C: Chain>(m: C, tokens: Seq<Seq<u8>>, path: Seq<Seq<u8>>) -> Seq<Seq<Seq<u8>>> {
    if path.len() >= m.size() {
        Seq::empty()
    } else {
        tokens.filter(fits(m, path)).map_values(|t: Seq<u8>| path.push(t))
    }
}

/// The paths one longer than those of a beam.
pub open spec fn widened<C: Chain>(m: C, tokens: Seq<Seq<u8>>, beam: Seq<Seq<Seq<u8>>>) -> Seq<Seq<Seq<u8>>>
    decreases beam.len(),
{
    if beam.len() == 0 {
        Seq::empty()
    } else {
        widened(m, tokens, beam.drop_last()) + longer_paths(m, tokens, beam.last())
    }
}

/// Whether a path is full and closes.
pub open spec fn finished<C: Chain>(m: C) -> spec_fn(Seq<Seq<u8>>) -> bool {
    |p: Seq<Seq<u8>>| p.len() >= m.size() && m.closes(p)
}

pub open spec fn cut<A>(s: Seq<A>, width: nat) -> Seq<A> {
    if s.len() <= width {
        s
    } else {
        s.take(width as int)
    }
}

/// The full paths that a beam of the given width reaches in `rounds` rounds.
pub open spec fn beam_run<C: Chain>(
    m: C,
    tokens: Seq<Seq<u8>>,
    beam: Seq<Seq<Seq<u8>>>,
    width: nat,
    rounds: nat,
) -> Seq<Seq<Seq<u8>>>
    decreases rounds,
{
    if rounds == 0 || beam.len() == 0 {
        Seq::empty()
    } else {
        let next = cut(order::ranked(widened(m, tokens, beam), path_rank(m)), width);
        beam.filter(finished(m)) + beam_run(m, tokens, next, width, (rounds - 1) as nat)
    }
}

/// The best of the given paths.
pub open spec fn best<C: Chain>(m: C, paths: Seq<Seq<Seq<u8>>>) -> Option<Seq<Seq<u8>>> {
    if paths.len() == 0 {
        None
    } else {
        Some(order::ranked(paths, path_rank(m))[0])
    }
}

/// What a beam search from the empty path ends with.
pub open spec fn beam_result<C: Chain>(m: C, tokens: Seq<Seq<u8>>, width: nat) -> Option<Seq<Seq<u8>>> {
    best(m, beam_run(m, tokens, seq![Seq::<Seq<u8>>::empty()], width, m.size() + 1))
}

/// A hypothesis of the beam.
pub struct BeamState {
    pub path: Vec<Vec<u8>>,
    pub score: u128,
    pub remaining: Vec<u64>,
}

/// The order of keys of a number and a list of byte strings.
proof fn path_order(a: int, x: Seq<Seq<int>>, b: int, y: Seq<Seq<int>>)
    ensures
        order::key_less(seq![seq![a]] + x, seq![seq![b]] + y) == (a < b || (a == b && order::key_less(x, y))),
{
    let k = seq![seq![a]] + x;
    let l = seq![seq![b]] + y;
    reveal_with_fuel(order::lex_less, 3);
    assert(k.drop_first() =~= x);
    assert(l.drop_first() =~= y);
    assert(k[0] == seq![a] && l[0] == seq![b]);
    assert((seq![a] == seq![b]) == (a == b)) by {
        if seq![a] == seq![b] {
            assert(seq![a][0] == seq![b][0]);
        }
    }
    assert(seq![a].drop_first() =~= Seq::<int>::empty());
    assert(seq![b].drop_first() =~= Seq::<int>::empty());
}

/// Compares two paths token by token.
fn path_before(a: &Vec<Vec<u8>>, b: &Vec<Vec<u8>>) -> (first: bool)
    ensures
        first == order::key_less(path_ints(hllset::token_views(a@)), path_ints(hllset::token_views(b@))),
{
    let ghost x = path_ints(hllset::token_views(a@));
    let ghost y = path_ints(hllset::token_views(b@));
    let mut i: usize = 0;
    proof {
        assert(x.skip(0) =~= x);
        assert(y.skip(0) =~= y);
    }
    while i < a.len() && i < b.len()
        invariant
            i <= a.len(),
            i <= b.len(),
            x == path_ints(hllset::token_views(a@)),
            y == path_ints(hllset::token_views(b@)),
            order::key_less(x, y) == order::key_less(x.skip(i as int), y.skip(i as int)),
        decreases a.len() - i,
    {
        let side = order::compare_bytes(a[i].as_slice(), b[i].as_slice());
        proof {
            assert(x.skip(i as int)[0] == order::ints(a@[i as int]@));
            assert(y.skip(i as int)[0] == order::ints(b@[i as int]@));
            assert(x.skip(i as int).drop_first() =~= x.skip(i as int + 1));
            assert(y.skip(i as int).drop_first() =~= y.skip(i as int + 1));
            if order::ints(a@[i as int]@) == order::ints(b@[i as int]@) {
                order::ints_injective(a@[i as int]@, b@[i as int]@);
            }
        }
        match side {
            Side::Less => {
                proof {
                    order::bytes_irreflexive(a@[i as int]@);
                }
                return true;
            },
            Side::Greater => {
                proof {
                    order::bytes_irreflexive(a@[i as int]@);
                    if order::bytes_less(a@[i as int]@, b@[i as int]@) {
                        order::bytes_transitive(a@[i as int]@, b@[i as int]@, a@[i as int]@);
                    }
                }
                return false;
            },
            Side::Same => {},
        }
        i = i + 1;
    }
    i < b.len()
}

impl Keyed for BeamState {
    open spec fn rank(&self) -> Seq<Seq<int>> {
        seq![seq![-(self.score as int)]] + path_ints(hllset::token_views(self.path@))
    }

    fn before(&self, other: &Self) -> (first: bool) {
        proof {
            path_order(
                -(self.score as int),
                path_ints(hllset::token_views(self.path@)),
                -(other.score as int),
                path_ints(hllset::token_views(other.path@)),
            );
        }
        if self.score != other.score {
            self.score > other.score
        } else {
            path_before(&self.path, &other.path)
        }
    }
}

pub open spec fn state_path() -> spec_fn(BeamState) -> Seq<Seq<u8>> {
    |s: BeamState| hllset::token_views(s.path@)
}

/// The paths of a beam.
pub open spec fn beam_paths(beam: Seq<BeamState>) -> Seq<Seq<Seq<u8>>> {
    beam.map_values(state_path())
}

/// Score and counts of a hypothesis are those of its path.
pub open spec fn state_ok<C: Chain>(m: C, tokens: Seq<Seq<u8>>, s: BeamState) -> bool {
    &&& s.path@.len() <= m.size()
    &&& s.score == path_score(m, hllset::token_views(s.path@))
    &&& counts_left(m, tokens, hllset::token_views(s.path@), s.remaining@)
}

pub open spec fn beam_ok<C: Chain>(m: C, tokens: Seq<Seq<u8>>, beam: Seq<BeamState>) -> bool {
    forall|i: int| 0 <= i < beam.len() ==> state_ok(m, tokens, #[trigger] beam[i])
}

/// Sorts a beam, best hypothesis first.
pub fn sort_beam(beam: Vec<BeamState>) -> (sorted: Vec<BeamState>)
    ensures
        order::in_order(sorted@),
        sorted@.to_multiset() == beam@.to_multiset(),
        sorted@.len() == beam@.len(),
{
    order::sort_items(beam)
}

fn sort_hypotheses<C: Chain>(m: &C, tokens: &Vec<Vec<u8>>, beam: Vec<BeamState>) -> (sorted: Vec<BeamState>)
    requires
        beam_ok(*m, hllset::token_views(tokens@), beam@),
    ensures
        beam_paths(sorted@) == order::ranked(beam_paths(beam@), path_rank(*m)),
        beam_ok(*m, hllset::token_views(tokens@), sorted@),
{
    let sorted = sort_beam(beam);
    proof {
        path_rank_faithful(*m);
        assert forall|i: int| 0 <= i < beam@.len() implies (#[trigger] beam@[i]).rank() == path_rank(*m)(
            state_path()(beam@[i]),
        ) by {
            assert(state_ok(*m, hllset::token_views(tokens@), beam@[i]));
        }
        order::ranked_images(sorted@, beam@, state_path(), path_rank(*m));
        order::same_members(sorted@, beam@);
        assert forall|i: int| 0 <= i < sorted@.len() implies state_ok(*m, hllset::token_views(tokens@), #[trigger] sorted@[i]) by {
            assert(sorted@.contains(sorted@[i]));
            let j = choose|j: int| 0 <= j < beam@.len() && beam@[j] == sorted@[i];
            assert(state_ok(*m, hllset::token_views(tokens@), beam@[j]));
        }
    }
    sorted
}

/// Adds the hypotheses one longer than a given one.
fn widen<C: Chain>(m: &C, tokens: &Vec<Vec<u8>>, st: &BeamState, next: &mut Vec<BeamState>)
    requires
        m.wf(),
        lut::ascending_tokens(hllset::token_views(tokens@)),
        state_ok(*m, hllset::token_views(tokens@), *st),
        st.path@.len() < m.size(),
        m.size() <= usize::MAX,
        beam_ok(*m, hllset::token_views(tokens@), old(next)@),
    ensures
        beam_ok(*m, hllset::token_views(tokens@), final(next)@),
        beam_paths(final(next)@) == beam_paths(old(next)@) + longer_paths(
            *m,
            hllset::token_views(tokens@),
            hllset::token_views(st.path@),
        ),
{
    let items = fitting(m, tokens, &st.path, &st.remaining);
    let ghost all = hllset::token_views(tokens@);
    let ghost p = hllset::token_views(st.path@);
    let ghost start = beam_paths(next@);
    let ghost names = items@.map_values(weighted_token());
    let ghost grow = |t: Seq<u8>| p.push(t);
    let mut k: usize = 0;
    proof {
        assert(names.take(0).map_values(grow) =~= Seq::<Seq<Seq<u8>>>::empty());
        assert(start + names.take(0).map_values(grow) =~= start);
        assert(p.len() == st.path@.len());
    }
    while k < items.len()
        invariant
            k <= items.len(),
            m.wf(),
            m.size() <= usize::MAX,
            all == hllset::token_views(tokens@),
            lut::ascending_tokens(all),
            p == hllset::token_views(st.path@),
            p.len() == st.path@.len(),
            st.path@.len() < m.size(),
            state_ok(*m, all, *st),
            indexed(*m, all, items@),
            names == items@.map_values(weighted_token()),
            names == all.filter(fits(*m, p)),
            grow == (|t: Seq<u8>| p.push(t)),
            beam_ok(*m, all, next@),
            beam_paths(next@) == start + names.take(k as int).map_values(grow),
        decreases items.len() - k,
    {
        let j = items[k].index;
        proof {
            assert(names[k as int] == items@[k as int].token@);
            assert(names.contains(names[k as int]));
            filter_members(all, fits(*m, p), names[k as int]);
            assert(st.remaining@[j as int] + tf::occurrences(p, all[j as int]) == m.weight(all[j as int]));
            path_score_bound(*m, p);
            m.weight_fits(items@[k as int].token@);
            assert(p.len() * u64::MAX + u64::MAX <= u128::MAX) by (nonlinear_arith)
                requires
                    p.len() < usize::MAX,
            ;
        }
        let mut path = lut::copy_tokens(&st.path);
        path.push(lut::copy_bytes(items[k].token.as_slice()));
        let mut remaining = vstd::slice::slice_to_vec(st.remaining.as_slice());
        remaining[j] = remaining[j] - 1;
        let fresh = BeamState { path, score: st.score + items[k].weight as u128, remaining };
        let ghost before = next@;
        next.push(fresh);
        proof {
            let t = items@[k as int].token@;
            assert(hllset::token_views(fresh.path@) =~= p.push(t));
            assert(p.push(t).drop_last() =~= p);
            counts_after(*m, all, p, st.remaining@, j as int, remaining@);
            assert(hllset::token_views(fresh.path@).len() == fresh.path@.len());
            assert(state_ok(*m, all, fresh));
            assert(beam_paths(next@) =~= beam_paths(before).push(p.push(t)));
            assert(names.take(k as int + 1) =~= names.take(k as int).push(t));
            assert(names.take(k as int + 1).map_values(grow) =~= names.take(k as int).map_values(grow).push(p.push(t)));
            assert(beam_paths(next@) =~= start + names.take(k as int + 1).map_values(grow));
        }
        k = k + 1;
    }
    proof {
        assert(names.take(k as int) =~= names);
    }
}

/// A beam search from the empty path.
pub fn beam_search<C: Chain>(m: &C, tokens: &Vec<Vec<u8>>, width: usize) -> (found: Option<Vec<Vec<u8>>>)
    requires
        m.wf(),
        0 < m.size() < usize::MAX,
        lut::ascending_tokens(hllset::token_views(tokens@)),
    ensures
        found is Some == beam_result(*m, hllset::token_views(tokens@), width as nat) is Some,
        found is Some ==> hllset::token_views(found->0@) == beam_result(*m, hllset::token_views(tokens@), width as nat)->0,
{
    let ghost all = hllset::token_views(tokens@);
    let n = m.total();
    let mut remaining: Vec<u64> = Vec::new();
    let mut i: usize = 0;
    while i < tokens.len()
        invariant
            i <= tokens.len(),
            m.wf(),
            all == hllset::token_views(tokens@),
            remaining@.len() == i,
            forall|k: int| 0 <= k < i ==> #[trigger] remaining@[k] == m.weight(all[k]),
        decreases tokens.len() - i,
    {
        proof {
            assert(all[i as int] == tokens@[i as int]@);
        }
        remaining.push(m.count(tokens[i].as_slice()));
        i = i + 1;
    }
    let root = BeamState { path: Vec::new(), score: 0, remaining };
    let mut beam: Vec<BeamState> = Vec::new();
    beam.push(root);
    let mut completed: Vec<BeamState> = Vec::new();
    let ghost origin = seq![Seq::<Seq<u8>>::empty()];
    let ghost goal = beam_run(*m, all, origin, width as nat, m.size() + 1);
    proof {
        assert(hllset::token_views(root.path@) =~= Seq::<Seq<u8>>::empty());
        assert(beam_paths(beam@) =~= origin);
        assert(state_ok(*m, all, root));
        assert(beam_paths(completed@) + beam_run(*m, all, beam_paths(beam@), width as nat, m.size() + 1) =~= goal);
    }
    let mut round: usize = 0;
    while round <= n && beam.len() > 0
        invariant
            round <= n + 1,
            n < usize::MAX,
            n == m.size(),
            m.size() > 0,
            m.wf(),
            all == hllset::token_views(tokens@),
            lut::ascending_tokens(all),
            beam_ok(*m, all, beam@),
            beam_ok(*m, all, completed@),
            beam_paths(completed@) + beam_run(
                *m,
                all,
                beam_paths(beam@),
                width as nat,
                (m.size() + 1 - round) as nat,
            ) == goal,
        decreases n + 1 - round,
    {
        let mut next: Vec<BeamState> = Vec::new();
        let ghost paths = beam_paths(beam@);
        let ghost done = beam_paths(completed@);
        let mut k: usize = 0;
        proof {
            reveal(Seq::filter);
            assert(paths.take(0) =~= Seq::<Seq<Seq<u8>>>::empty());
            assert(beam_paths(next@) =~= widened(*m, all, paths.take(0)));
            assert(beam_paths(completed@) =~= done + paths.take(0).filter(finished(*m)));
        }
        while k < beam.len()
            invariant
                k <= beam.len(),
                n < usize::MAX,
                n == m.size(),
                m.size() > 0,
                m.wf(),
                all == hllset::token_views(tokens@),
                lut::ascending_tokens(all),
                paths == beam_paths(beam@),
                beam_ok(*m, all, beam@),
                beam_ok(*m, all, next@),
                beam_ok(*m, all, completed@),
                beam_paths(next@) == widened(*m, all, paths.take(k as int)),
                beam_paths(completed@) == done + paths.take(k as int).filter(finished(*m)),
            decreases beam.len() - k,
        {
            let st = &beam[k];
            let ghost p = hllset::token_views(st.path@);
            let ghost longer = paths.take(k as int + 1);
            proof {
                assert(paths[k as int] == p);
                assert(state_ok(*m, all, beam@[k as int]));
                assert(longer.drop_last() =~= paths.take(k as int));
                assert(longer.last() == p);
                assert(p.len() == st.path@.len());
            }
            let ghost before = completed@;
            if st.path.len() == n {
                if m.ends(&st.path) {
                    let copy = BeamState {
                        path: lut::copy_tokens(&st.path),
                        score: st.score,
                        remaining: vstd::slice::slice_to_vec(st.remaining.as_slice()),
                    };
                    completed.push(copy);
                    proof {
                        assert(hllset::token_views(copy.path@).len() == copy.path@.len());
                        assert(state_ok(*m, all, copy));
                        assert(beam_paths(completed@) =~= beam_paths(before).push(p));
                    }
                }
                proof {
                    assert(longer_paths(*m, all, p) =~= Seq::<Seq<Seq<u8>>>::empty());
                    assert(widened(*m, all, longer) =~= widened(*m, all, paths.take(k as int)));
                }
            } else {
                widen(m, tokens, st, &mut next);
            }
            proof {
                reveal(Seq::filter);
                assert(beam_paths(completed@) =~= done + longer.filter(finished(*m)));
            }
            k = k + 1;
        }
        proof {
            assert(paths.take(k as int) =~= paths);
        }
        let mut sorted = sort_hypotheses(m, tokens, next);
        let ghost full = beam_paths(sorted@);
        if sorted.len() > width {
            sorted.truncate(width);
        }
        proof {
            assert(full.len() == beam_paths(next@).len()) by {
                path_rank_faithful(*m);
                order::ranked_facts(beam_paths(next@), path_rank(*m));
            }
            assert(beam_paths(sorted@) =~= cut(full, width as nat));
            let after = beam_run(*m, all, beam_paths(sorted@), width as nat, (m.size() - round) as nat);
            assert(done + (paths.filter(finished(*m)) + after) =~= beam_paths(completed@) + after);
        }
        beam = sorted;
        round = round + 1;
    }
    proof {
        assert(beam_run(*m, all, beam_paths(beam@), width as nat, (m.size() + 1 - round) as nat) =~= Seq::<
            Seq<Seq<u8>>,
        >::empty());
        assert(beam_paths(completed@) =~= goal);
        path_rank_faithful(*m);
        order::ranked_facts(goal, path_rank(*m));
    }
    let mut ordered = sort_hypotheses(m, tokens, completed);
    if ordered.len() == 0 {
        proof {
            assert(beam_paths(ordered@).len() == 0);
        }
        None
    } else {
        proof {
            assert(beam_paths(ordered@)[0] == hllset::token_views(ordered@[0].path@));
        }
        let first = ordered.remove(0);
        Some(first.path)
    }
}

/// A beam search ends with full chains only.
pub proof fn beam_sound<C: Chain>(
    m: C,
    tokens: Seq<Seq<u8>>,
    beam: Seq<Seq<Seq<u8>>>,
    width: nat,
    rounds: nat,
    p: Seq<Seq<u8>>,
)
    requires
        forall|i: int| 0 <= i < beam.len() ==> partial_chain(m, #[trigger] beam[i]) && beam[i].len() <= m.size(),
        beam_run(m, tokens, beam, width, rounds).contains(p),
    ensures
        full_chain(m, p),
    decreases rounds,
{
    if rounds > 0 && beam.len() > 0 {
        let wide = widened(m, tokens, beam);
        let sorted = order::ranked(wide, path_rank(m));
        let next = cut(sorted, width);
        let done = beam.filter(finished(m));
        let rest = beam_run(m, tokens, next, width, (rounds - 1) as nat);
        let i = choose|i: int| 0 <= i < (done + rest).len() && (done + rest)[i] == p;
        if i < done.len() {
            assert(done[i] == p);
            filter_members(beam, finished(m), p);
            let j = choose|j: int| 0 <= j < beam.len() && beam[j] == p;
            assert(partial_chain(m, beam[j]));
        } else {
            assert(rest[i - done.len()] == p);
            path_rank_faithful(m);
            order::ranked_facts(wide, path_rank(m));
            assert forall|k: int| 0 <= k < next.len() implies partial_chain(m, #[trigger] next[k]) && next[k].len()
                <= m.size() by {
                assert(next[k] == sorted[k]);
                assert(sorted.contains(next[k]));
                assert(wide.contains(next[k]));
                widened_chains(m, tokens, beam, next[k]);
            }
            beam_sound(m, tokens, next, width, (rounds - 1) as nat, p);
        }
    }
}

proof fn widened_chains<C: Chain>(m: C, tokens: Seq<Seq<u8>>, beam: Seq<Seq<Seq<u8>>>, q: Seq<Seq<u8>>)
    requires
        forall|i: int| 0 <= i < beam.len() ==> partial_chain(m, #[trigger] beam[i]) && beam[i].len() <= m.size(),
        widened(m, tokens, beam).contains(q),
    ensures
        partial_chain(m, q),
        q.len() <= m.size(),
    decreases beam.len(),
{
    if beam.len() > 0 {
        let a = widened(m, tokens, beam.drop_last());
        let b = longer_paths(m, tokens, beam.last());
        let i = choose|i: int| 0 <= i < (a + b).len() && (a + b)[i] == q;
        if i < a.len() {
            assert(a[i] == q);
            assert forall|k: int| 0 <= k < beam.drop_last().len() implies partial_chain(m, #[trigger] beam.drop_last()[k])
                && beam.drop_last()[k].len() <= m.size() by {
                assert(beam[k] == beam.drop_last()[k]);
            }
            widened_chains(m, tokens, beam.drop_last(), q);
        } else {
            let p = beam.last();
            assert(beam[beam.len() - 1] == p);
            assert(b[i - a.len()] == q);
            let f = tokens.filter(fits(m, p));
            let t = f[i - a.len()];
            assert(f.contains(t));
            filter_members(tokens, fits(m, p), t);
            longer_chain(m, p, t);
        }
    }
}

/// A full chain over the counts of a list is a rearrangement of that list.
pub proof fn chain_rearranges<C: Chain>(m: C, tokens: Seq<Seq<u8>>, path: Seq<Seq<u8>>)
    requires
        full_chain(m, path),
        m.size() == tokens.len(),
        forall|t: Seq<u8>| #[trigger] m.weight(t) == tf::occurrences(tokens, t),
    ensures
        path.to_multiset() == tokens.to_multiset(),
{
    assert forall|t: Seq<u8>| #[trigger] tf::occurrences(path, t) <= tf::occurrences(tokens, t) by {
        tf::occurrences_bounds(path, t);
        if path.contains(t) {
            assert(tf::occurrences(path, t) <= m.weight(t));
        }
    }
    same_counts(path, tokens);
}

/// Lists of one length, the one within the counts of the other, are
/// rearrangements of each other.
proof fn same_counts(a: Seq<Seq<u8>>, b: Seq<Seq<u8>>)
    requires
        a.len() == b.len(),
        forall|t: Seq<u8>| #[trigger] tf::occurrences(a, t) <= tf::occurrences(b, t),
    ensures
        a.to_multiset() == b.to_multiset(),
{
    let x = a.to_multiset();
    let y = b.to_multiset();
    a.to_multiset_ensures();
    b.to_multiset_ensures();
    assert forall|t: Seq<u8>| x.count(t) <= y.count(t) by {
        occurrences_count(a, t);
        occurrences_count(b, t);
        assert(tf::occurrences(a, t) <= tf::occurrences(b, t));
    }
    broadcast use vstd::multiset::group_multiset_axioms;
    assert(x.subset_of(y));
    let rest = y.sub(x);
    assert(y =~= x.add(rest));
    assert(rest.len() == 0);
    assert forall|t: Seq<u8>| rest.count(t) == 0 by {
        if rest.count(t) > 0 {
            let one = vstd::multiset::Multiset::<Seq<u8>>::empty().insert(t);
            let less = rest.remove(t);
            assert(rest =~= less.add(one));
            assert(one.len() == 1);
        }
    }
    assert(x =~= y);
}

/// Occurrences are the multiplicities of the multiset.
pub proof fn occurrences_count(s: Seq<Seq<u8>>, t: Seq<u8>)
    ensures
        tf::occurrences(s, t) == s.to_multiset().count(t),
    decreases s.len(),
{
    broadcast use vstd::multiset::group_multiset_axioms;
    s.to_multiset_ensures();
    if s.len() == 0 {
        assert(s.to_multiset().len() == 0);
        if s.to_multiset().count(t) > 0 {
            assert(s.contains(t));
        }
    } else {
        let p = s.drop_last();
        p.to_multiset_ensures();
        occurrences_count(p, t);
        assert(s =~= p.push(s.last()));
        assert(s.to_multiset() =~= p.to_multiset().insert(s.last()));
    }
}

/// Whether two chains say the same.
pub open spec fn alike<C: Chain>(a: C, b: C) -> bool {
    &&& a.size() == b.size()
    &&& forall|t: Seq<u8>| #[trigger] a.weight(t) == b.weight(t)
    &&& forall|path: Seq<Seq<u8>>, t: Seq<u8>| #[trigger] a.extends(path, t) == b.extends(path, t)
    &&& forall|path: Seq<Seq<u8>>| #[trigger] a.closes(path) == b.closes(path)
}

/// Chains that say the same have the same candidates.
proof fn alike_candidates<C: Chain>(a: C, b: C, tokens: Seq<Seq<u8>>, path: Seq<Seq<u8>>)
    requires
        alike(a, b),
    ensures
        fits(a, path) == fits(b, path),
        candidates(a, tokens, path) == candidates(b, tokens, path),
{
    assert(fits(a, path) =~= fits(b, path));
    assert(weight_rank(a) =~= weight_rank(b));
}

/// Chains that say the same are walked in the same way.
proof fn alike_explore<C: Chain>(a: C, b: C, tokens: Seq<Seq<u8>>, path: Seq<Seq<u8>>, budget: nat)
    requires
        alike(a, b),
    ensures
        explore(a, tokens, path, budget) == explore(b, tokens, path, budget),
    decreases a.size() - path.len(), 1nat, 0nat,
{
    if budget > 0 && path.len() < a.size() {
        alike_candidates(a, b, tokens, path);
        alike_explore_each(a, b, tokens, path, candidates(a, tokens, path), (budget - 1) as nat);
    }
}

proof fn alike_explore_each<C: Chain>(
    a: C,
    b: C,
    tokens: Seq<Seq<u8>>,
    path: Seq<Seq<u8>>,
    nexts: Seq<Seq<u8>>,
    budget: nat,
)
    requires
        alike(a, b),
    ensures
        explore_each(a, tokens, path, nexts, budget) == explore_each(b, tokens, path, nexts, budget),
    decreases a.size() - path.len(), 0nat, nexts.len(),
{
    if nexts.len() > 0 && path.len() < a.size() {
        alike_explore(a, b, tokens, path.push(nexts[0]), budget);
        let first = explore(a, tokens, path.push(nexts[0]), budget);
        alike_explore_each(a, b, tokens, path, nexts.drop_first(), first.1);
    }
}

proof fn alike_score<C: Chain>(a: C, b: C, path: Seq<Seq<u8>>)
    requires
        alike(a, b),
    ensures
        path_score(a, path) == path_score(b, path),
    decreases path.len(),
{
    if path.len() > 0 {
        alike_score(a, b, path.drop_last());
    }
}

proof fn alike_widened<C: Chain>(a: C, b: C, tokens: Seq<Seq<u8>>, beam: Seq<Seq<Seq<u8>>>)
    requires
        alike(a, b),
    ensures
        widened(a, tokens, beam) == widened(b, tokens, beam),
    decreases beam.len(),
{
    if beam.len() > 0 {
        alike_widened(a, b, tokens, beam.drop_last());
        alike_candidates(a, b, tokens, beam.last());
    }
}

proof fn alike_beam<C: Chain>(a: C, b: C, tokens: Seq<Seq<u8>>, beam: Seq<Seq<Seq<u8>>>, width: nat, rounds: nat)
    requires
        alike(a, b),
        path_rank(a) == path_rank(b),
    ensures
        beam_run(a, tokens, beam, width, rounds) == beam_run(b, tokens, beam, width, rounds),
    decreases rounds,
{
    if rounds > 0 && beam.len() > 0 {
        alike_widened(a, b, tokens, beam);
        assert(finished(a) =~= finished(b));
        let next = cut(order::ranked(widened(a, tokens, beam), path_rank(a)), width);
        alike_beam(a, b, tokens, next, width, (rounds - 1) as nat);
    }
}

/// Chains that say the same are searched with the same result.
pub proof fn alike_searches<C: Chain>(a: C, b: C, tokens: Seq<Seq<u8>>, width: nat, budget: nat)
    requires
        alike(a, b),
    ensures
        candidates(a, tokens, Seq::empty()) == candidates(b, tokens, Seq::empty()),
        beam_result(a, tokens, width) == beam_result(b, tokens, width),
        explore(a, tokens, Seq::empty(), budget) == explore(b, tokens, Seq::empty(), budget),
        explore_each(a, tokens, Seq::empty(), candidates(a, tokens, Seq::empty()), budget) == explore_each(
            b,
            tokens,
            Seq::empty(),
            candidates(b, tokens, Seq::empty()),
            budget,
        ),
{
    let none = Seq::<Seq<u8>>::empty();
    alike_candidates(a, b, tokens, none);
    alike_explore(a, b, tokens, none, budget);
    alike_explore_each(a, b, tokens, none, candidates(a, tokens, none), budget);
    assert forall|p: Seq<Seq<u8>>| #[trigger] path_score(a, p) == path_score(b, p) by {
        alike_score(a, b, p);
    }
    assert(path_rank(a) =~= path_rank(b));
    alike_beam(a, b, tokens, seq![none], width, a.size() + 1);
}

/// Whether one path is the only full chain.
pub open spec fn sole<C: Chain>(m: C, full: Seq<Seq<u8>>) -> bool {
    forall|p: Seq<Seq<u8>>| #[trigger] full_chain(m, p) ==> p == full
}

/// Whether a path can be walked without a choice: behind each of its beginnings
/// stands one candidate, the path's next token.
pub open spec fn straight<C: Chain>(m: C, tokens: Seq<Seq<u8>>, full: Seq<Seq<u8>>) -> bool {
    &&& full.len() == m.size()
    &&& m.closes(full)
    &&& forall|k: int| 0 <= k < full.len() ==> #[trigger] candidates(m, tokens, full.take(k)) == seq![full[k]]
}

/// A beginning of a list holds no more of a token than the list.
proof fn occurrences_in_part(s: Seq<Seq<u8>>, n: int, t: Seq<u8>)
    requires
        0 <= n <= s.len(),
    ensures
        tf::occurrences(s.take(n), t) <= tf::occurrences(s, t),
    decreases s.len() - n,
{
    if n == s.len() {
        assert(s.take(n) =~= s);
    } else {
        assert(s.take(n + 1).drop_last() =~= s.take(n));
        occurrences_in_part(s, n + 1, t);
    }
}

/// The beginnings of a full chain are chains, and the next token is a candidate.
proof fn beginning_of_chain<C: Chain>(m: C, tokens: Seq<Seq<u8>>, full: Seq<Seq<u8>>, n: int)
    requires
        full_chain(m, full),
        0 <= n <= full.len(),
        forall|t: Seq<u8>| #[trigger] full.contains(t) ==> tokens.contains(t),
    ensures
        partial_chain(m, full.take(n)),
        n < full.len() ==> candidates(m, tokens, full.take(n)).contains(full[n]),
{
    let path = full.take(n);
    assert forall|i: int| 0 <= i < path.len() implies m.extends(path.take(i), #[trigger] path[i]) by {
        assert(path.take(i) =~= full.take(i));
        assert(path[i] == full[i]);
    }
    assert forall|t: Seq<u8>| path.contains(t) implies #[trigger] tf::occurrences(path, t) <= m.weight(t) by {
        let i = choose|i: int| 0 <= i < path.len() && path[i] == t;
        assert(full[i] == t);
        occurrences_in_part(full, n, t);
        assert(tf::occurrences(full, t) <= m.weight(t));
    }
    if n < full.len() {
        let t = full[n];
        assert(full.contains(t));
        assert(full.take(n + 1).drop_last() =~= path);
        occurrences_in_part(full, n + 1, t);
        assert(tf::occurrences(full, t) <= m.weight(t));
        assert(m.extends(full.take(n), full[n]));
        assert(fits(m, path)(t));
        filter_members(tokens, fits(m, path), t);
        weight_rank_faithful(m);
        order::ranked_facts(tokens.filter(fits(m, path)), weight_rank(m));
    }
}

/// A walk from the beginning of a full chain that ends within its budget finds a
/// full chain.
pub proof fn explore_complete<C: Chain>(m: C, tokens: Seq<Seq<u8>>, full: Seq<Seq<u8>>, n: int, budget: nat)
    requires
        full_chain(m, full),
        0 <= n <= full.len(),
        forall|t: Seq<u8>| #[trigger] full.contains(t) ==> tokens.contains(t),
        explore(m, tokens, full.take(n), budget).1 > 0,
    ensures
        explore(m, tokens, full.take(n), budget).0 is Some,
    decreases m.size() - n, 1nat, 0nat,
{
    let path = full.take(n);
    beginning_of_chain(m, tokens, full, n);
    explore_sound(m, tokens, path, budget);
    if n == full.len() {
        assert(path =~= full);
    } else {
        candidates_fit(m, tokens, path);
        explore_each_complete(m, tokens, full, n, candidates(m, tokens, path), (budget - 1) as nat);
    }
}

/// A walk through the continuations of a beginning of a full chain, among them the
/// chain's next token, that ends within its budget finds a full chain.
pub proof fn explore_each_complete<C: Chain>(
    m: C,
    tokens: Seq<Seq<u8>>,
    full: Seq<Seq<u8>>,
    n: int,
    nexts: Seq<Seq<u8>>,
    budget: nat,
)
    requires
        full_chain(m, full),
        0 <= n < full.len(),
        forall|t: Seq<u8>| #[trigger] full.contains(t) ==> tokens.contains(t),
        nexts.contains(full[n]),
        forall|t: Seq<u8>| #[trigger] nexts.contains(t) ==> fits(m, full.take(n))(t),
        explore_each(m, tokens, full.take(n), nexts, budget).1 > 0,
    ensures
        explore_each(m, tokens, full.take(n), nexts, budget).0 is Some,
    decreases m.size() - n, 0nat, nexts.len(),
{
    let path = full.take(n);
    beginning_of_chain(m, tokens, full, n);
    let t = nexts[0];
    assert(nexts.contains(t));
    longer_chain(m, path, t);
    explore_sound(m, tokens, path.push(t), budget);
    let first = explore(m, tokens, path.push(t), budget);
    if first.0 is None {
        let rest = nexts.drop_first();
        assert forall|x: Seq<u8>| #[trigger] rest.contains(x) implies fits(m, path)(x) by {
            let i = choose|i: int| 0 <= i < rest.len() && rest[i] == x;
            assert(nexts[i + 1] == x);
            assert(nexts.contains(x));
        }
        explore_each_sound(m, tokens, path, rest, first.1);
        if t == full[n] {
            assert(path.push(t) =~= full.take(n + 1));
            explore_complete(m, tokens, full, n + 1, budget);
        } else {
            let i = choose|i: int| 0 <= i < nexts.len() && nexts[i] == full[n];
            assert(rest[i - 1] == full[n]);
            explore_each_complete(m, tokens, full, n, rest, first.1);
        }
    }
}

/// A path that can be walked without a choice is found, where the budget suffices.
pub proof fn straight_walk<C: Chain>(m: C, tokens: Seq<Seq<u8>>, full: Seq<Seq<u8>>, n: int, budget: nat)
    requires
        straight(m, tokens, full),
        0 <= n <= full.len(),
        budget > full.len() - n,
    ensures
        explore(m, tokens, full.take(n), budget).0 == Some(full),
    decreases full.len() - n,
{
    let path = full.take(n);
    if n == full.len() {
        assert(path =~= full);
    } else {
        let nexts = candidates(m, tokens, path);
        assert(nexts == seq![full[n]]);
        assert(path.push(full[n]) =~= full.take(n + 1));
        straight_walk(m, tokens, full, n + 1, (budget - 1) as nat);
    }
}

/// A list of one item is in order.
proof fn ranked_single<A>(x: A, rank: spec_fn(A) -> Seq<Seq<int>>)
    requires
        order::faithful(rank),
    ensures
        order::ranked(seq![x], rank) == seq![x],
{
    order::ranked_facts(seq![x], rank);
    let r = order::ranked(seq![x], rank);
    assert(r.len() == 1);
    assert(r.contains(r[0]));
    assert(seq![x].contains(r[0]));
    assert(r =~= seq![x]);
}

/// A beam on a path that can be walked without a choice ends with that path alone.
proof fn straight_run<C: Chain>(m: C, tokens: Seq<Seq<u8>>, full: Seq<Seq<u8>>, n: int, width: nat, rounds: nat)
    requires
        straight(m, tokens, full),
        0 <= n <= full.len(),
        width > 0,
        rounds > full.len() - n,
    ensures
        beam_run(m, tokens, seq![full.take(n)], width, rounds) == seq![full],
    decreases full.len() - n,
{
    let path = full.take(n);
    let beam = seq![path];
    reveal_with_fuel(widened, 2);
    reveal_with_fuel(Seq::filter, 2);
    path_rank_faithful(m);
    assert(beam.drop_last() =~= Seq::empty());
    assert(widened(m, tokens, beam) =~= longer_paths(m, tokens, path));
    if n == full.len() {
        assert(path =~= full);
        let none = Seq::<Seq<Seq<u8>>>::empty();
        assert(widened(m, tokens, beam) =~= none);
        order::ranked_facts(none, path_rank(m));
        assert(order::ranked(none, path_rank(m)) =~= none);
        assert(beam.filter(finished(m)) =~= seq![full]);
        let next = cut(order::ranked(widened(m, tokens, beam), path_rank(m)), width);
        assert(next =~= none);
        assert(beam_run(m, tokens, next, width, (rounds - 1) as nat) =~= none);
        assert(beam_run(m, tokens, beam, width, rounds) =~= seq![full]);
    } else {
        let fitting = tokens.filter(fits(m, path));
        weight_rank_faithful(m);
        order::ranked_facts(fitting, weight_rank(m));
        assert(candidates(m, tokens, path) == seq![full[n]]);
        assert(fitting.len() == 1);
        assert(fitting.contains(fitting[0]));
        assert(candidates(m, tokens, path).contains(fitting[0]));
        assert(fitting[0] == full[n]);
        assert(path.push(full[n]) =~= full.take(n + 1));
        assert(longer_paths(m, tokens, path) =~= seq![full.take(n + 1)]);
        ranked_single(full.take(n + 1), path_rank(m));
        let next = cut(order::ranked(widened(m, tokens, beam), path_rank(m)), width);
        assert(next =~= seq![full.take(n + 1)]);
        assert(beam.filter(finished(m)) =~= Seq::empty());
        straight_run(m, tokens, full, n + 1, width, (rounds - 1) as nat);
        assert(beam_run(m, tokens, beam, width, rounds) =~= seq![full]);
    }
}

/// A path that can be walked without a choice is what a beam search ends with.
pub proof fn straight_beam<C: Chain>(m: C, tokens: Seq<Seq<u8>>, full: Seq<Seq<u8>>, width: nat)
    requires
        straight(m, tokens, full),
        width > 0,
    ensures
        beam_result(m, tokens, width) == Some(full),
{
    assert(full.take(0) =~= Seq::empty());
    straight_run(m, tokens, full, 0, width, m.size() + 1);
    path_rank_faithful(m);
    ranked_single(full, path_rank(m));
}

/// What a beam search ends with is a full chain.
pub proof fn beam_result_sound<C: Chain>(m: C, tokens: Seq<Seq<u8>>, width: nat)
    ensures
        beam_result(m, tokens, width) is Some ==> full_chain(m, beam_result(m, tokens, width)->0),
{
    let empty = Seq::<Seq<u8>>::empty();
    let paths = beam_run(m, tokens, seq![empty], width, m.size() + 1);
    if paths.len() > 0 {
        path_rank_faithful(m);
        order::ranked_facts(paths, path_rank(m));
        let first = order::ranked(paths, path_rank(m))[0];
        assert(order::ranked(paths, path_rank(m)).contains(first));
        beam_sound(m, tokens, seq![empty], width, m.size() + 1, first);
    }
}

/// The first token of a full chain is a candidate behind the empty path.
pub proof fn first_candidate<C: Chain>(m: C, tokens: Seq<Seq<u8>>, full: Seq<Seq<u8>>)
    requires
        full_chain(m, full),
        full.len() > 0,
        forall|t: Seq<u8>| #[trigger] full.contains(t) ==> tokens.contains(t),
    ensures
        candidates(m, tokens, Seq::empty()).contains(full[0]),
        partial_chain(m, Seq::empty()),
{
    assert(full.take(0) =~= Seq::empty());
    beginning_of_chain(m, tokens, full, 0);
}

/// A walk from the empty path over all candidates that ends within its budget finds
/// a full chain, where there is one over the tokens.
pub proof fn first_walk_complete<C: Chain>(m: C, tokens: Seq<Seq<u8>>, full: Seq<Seq<u8>>, budget: nat)
    requires
        full_chain(m, full),
        full.len() > 0,
        forall|t: Seq<u8>| #[trigger] full.contains(t) ==> tokens.contains(t),
        explore_each(m, tokens, Seq::empty(), candidates(m, tokens, Seq::empty()), budget).1 > 0,
    ensures
        explore_each(m, tokens, Seq::empty(), candidates(m, tokens, Seq::empty()), budget).0 is Some,
        full_chain(m, explore_each(m, tokens, Seq::empty(), candidates(m, tokens, Seq::empty()), budget).0->0),
{
    let empty = Seq::<Seq<u8>>::empty();
    assert(full.take(0) =~= empty);
    candidates_fit(m, tokens, empty);
    first_candidate(m, tokens, full);
    explore_each_sound(m, tokens, empty, candidates(m, tokens, empty), budget);
    explore_each_complete(m, tokens, full, 0, candidates(m, tokens, empty), budget);
}

/// Whether one token is tried before another: it has the higher count, or the same
/// count and the lower bytes.
pub open spec fn tried_before<C: Chain>(m: C, a: Seq<u8>, b: Seq<u8>) -> bool {
    m.weight(a) > m.weight(b) || m.weight(a) == m.weight(b) && order::bytes_less(a, b)
}

/// The candidates behind a path are the tokens with some of their count left that
/// extend it. A higher count comes first; tokens of one count come in byte order.
pub proof fn candidates_law<C: Chain>(m: C, tokens: Seq<Seq<u8>>, path: Seq<Seq<u8>>)
    ensures
        forall|t: Seq<u8>| #[trigger]
            candidates(m, tokens, path).contains(t) <==> tokens.contains(t) && tf::occurrences(path, t) < m.weight(t)
                && m.extends(path, t),
        forall|i: int, j: int|
            0 <= i < j < candidates(m, tokens, path).len() ==> tried_before(
                m,
                #[trigger] candidates(m, tokens, path)[i],
                #[trigger] candidates(m, tokens, path)[j],
            ) || candidates(m, tokens, path)[i] == candidates(m, tokens, path)[j],
{
    weight_rank_faithful(m);
    let f = tokens.filter(fits(m, path));
    let r = weight_rank(m);
    order::ranked_facts(f, r);
    let c = candidates(m, tokens, path);
    assert forall|t: Seq<u8>| #[trigger] c.contains(t) <==> tokens.contains(t) && tf::occurrences(path, t) < m.weight(t)
        && m.extends(path, t) by {
        filter_members(tokens, fits(m, path), t);
    }
    assert forall|i: int, j: int| 0 <= i < j < c.len() implies tried_before(m, #[trigger] c[i], #[trigger] c[j]) || c[i]
        == c[j] by {
        let a = c[i];
        let b = c[j];
        assert(!order::key_less(r(b), r(a)));
        lut::row_order(-(m.weight(b) as int), order::ints(b), -(m.weight(a) as int), order::ints(a));
        order::bytes_total(a, b);
    }
}

/// Whether a path comes no later than another of its length: at the first place
/// where they differ it has the token that is tried before the other's.
pub open spec fn no_later<C: Chain>(m: C, q: Seq<Seq<u8>>, r: Seq<Seq<u8>>) -> bool {
    q == r || exists|i: int| 0 <= i < q.len() && i < r.len() && #[trigger] q.take(i) == r.take(i) && tried_before(m, q[i], r[i])
}

/// The walk from a beginning of a full chain finds a chain that comes no later.
pub proof fn explore_first<C: Chain>(m: C, tokens: Seq<Seq<u8>>, full: Seq<Seq<u8>>, n: int, budget: nat)
    requires
        full_chain(m, full),
        0 <= n <= full.len(),
        forall|t: Seq<u8>| #[trigger] full.contains(t) ==> tokens.contains(t),
        explore(m, tokens, full.take(n), budget).0 is Some,
    ensures
        no_later(m, explore(m, tokens, full.take(n), budget).0->0, full),
        full.take(n).is_prefix_of(explore(m, tokens, full.take(n), budget).0->0),
    decreases m.size() - n, 1nat, 0nat,
{
    let path = full.take(n);
    beginning_of_chain(m, tokens, full, n);
    if n == full.len() {
        assert(path =~= full);
    } else {
        candidates_fit(m, tokens, path);
        let c = candidates(m, tokens, path);
        candidates_law(m, tokens, path);
        explore_each_first(m, tokens, full, n, c, (budget - 1) as nat);
    }
}

/// The walk through ranked continuations of a beginning of a full chain, the chain's
/// own among them, finds a chain that comes no later.
pub proof fn explore_each_first<C: Chain>(
    m: C,
    tokens: Seq<Seq<u8>>,
    full: Seq<Seq<u8>>,
    n: int,
    nexts: Seq<Seq<u8>>,
    budget: nat,
)
    requires
        full_chain(m, full),
        0 <= n < full.len(),
        forall|t: Seq<u8>| #[trigger] full.contains(t) ==> tokens.contains(t),
        nexts.contains(full[n]),
        forall|t: Seq<u8>| #[trigger] nexts.contains(t) ==> fits(m, full.take(n))(t),
        forall|i: int, j: int|
            0 <= i < j < nexts.len() ==> tried_before(m, #[trigger] nexts[i], #[trigger] nexts[j]) || nexts[i] == nexts[j],
        explore_each(m, tokens, full.take(n), nexts, budget).0 is Some,
    ensures
        no_later(m, explore_each(m, tokens, full.take(n), nexts, budget).0->0, full),
        full.take(n).is_prefix_of(explore_each(m, tokens, full.take(n), nexts, budget).0->0),
    decreases m.size() - n, 0nat, nexts.len(),
{
    let path = full.take(n);
    beginning_of_chain(m, tokens, full, n);
    let t = nexts[0];
    assert(nexts.contains(t));
    longer_chain(m, path, t);
    explore_sound(m, tokens, path.push(t), budget);
    let first = explore(m, tokens, path.push(t), budget);
    let at = choose|i: int| 0 <= i < nexts.len() && nexts[i] == full[n];
    if t == full[n] {
        assert(path.push(t) =~= full.take(n + 1));
        if first.0 is Some {
            explore_first(m, tokens, full, n + 1, budget);
            assert(path.is_prefix_of(full.take(n + 1)));
        } else {
            if first.1 > 0 {
                explore_complete(m, tokens, full, n + 1, budget);
            }
            let rest = nexts.drop_first();
            spent_each(m, tokens, path, rest);
        }
    } else {
        let rest = nexts.drop_first();
        assert forall|x: Seq<u8>| #[trigger] rest.contains(x) implies fits(m, path)(x) by {
            let i = choose|i: int| 0 <= i < rest.len() && rest[i] == x;
            assert(nexts[i + 1] == x);
            assert(nexts.contains(x));
        }
        if first.0 is Some {
            let q = first.0->0;
            begins_with(m, tokens, path.push(t), budget);
            assert(path.push(t) =~= q.subrange(0, n + 1));
            assert(q.subrange(0, n + 1)[n] == t);
            assert(q.take(n) =~= path.push(t).take(n));
            assert(q.take(n) =~= full.take(n));
            assert(tried_before(m, nexts[0], nexts[at]));
            assert(no_later(m, q, full));
        } else {
            assert(rest[at - 1] == full[n]);
            assert forall|i: int, j: int| 0 <= i < j < rest.len() implies tried_before(m, #[trigger] rest[i], #[trigger] rest[j])
                || rest[i] == rest[j] by {
                assert(rest[i] == nexts[i + 1] && rest[j] == nexts[j + 1]);
            }
            explore_each_first(m, tokens, full, n, rest, first.1);
        }
    }
}

/// Without budget nothing is found.
proof fn spent_each<C: Chain>(m: C, tokens: Seq<Seq<u8>>, path: Seq<Seq<u8>>, nexts: Seq<Seq<u8>>)
    ensures
        explore_each(m, tokens, path, nexts, 0).0 is None,
    decreases nexts.len(),
{
    if nexts.len() > 0 && path.len() < m.size() {
        assert(explore(m, tokens, path.push(nexts[0]), 0) == (None::<Seq<Seq<u8>>>, 0nat));
        spent_each(m, tokens, path, nexts.drop_first());
    }
}

/// What a walk finds begins with the path from which it started.
proof fn begins_with<C: Chain>(m: C, tokens: Seq<Seq<u8>>, path: Seq<Seq<u8>>, budget: nat)
    ensures
        explore(m, tokens, path, budget).0 is Some ==> path.is_prefix_of(explore(m, tokens, path, budget).0->0),
    decreases m.size() - path.len(), 1nat, 0nat,
{
    if budget > 0 && path.len() < m.size() {
        begins_each(m, tokens, path, candidates(m, tokens, path), (budget - 1) as nat);
    }
}

proof fn begins_each<C: Chain>(m: C, tokens: Seq<Seq<u8>>, path: Seq<Seq<u8>>, nexts: Seq<Seq<u8>>, budget: nat)
    ensures
        explore_each(m, tokens, path, nexts, budget).0 is Some ==> path.is_prefix_of(
            explore_each(m, tokens, path, nexts, budget).0->0,
        ),
    decreases m.size() - path.len(), 0nat, nexts.len(),
{
    if nexts.len() > 0 && path.len() < m.size() {
        let longer = path.push(nexts[0]);
        begins_with(m, tokens, longer, budget);
        let first = explore(m, tokens, longer, budget);
        if first.0 is Some {
            assert(longer.is_prefix_of(first.0->0));
            assert(path =~= longer.take(path.len() as int));
        } else {
            begins_each(m, tokens, path, nexts.drop_first(), first.1);
        }
    }
}

/// The walk from the empty path finds the first full chain over the tokens: every
/// other one has, where the two part, a token that is tried later.
pub proof fn walk_is_first<C: Chain>(m: C, tokens: Seq<Seq<u8>>, full: Seq<Seq<u8>>, budget: nat)
    requires
        full_chain(m, full),
        full.len() > 0,
        forall|t: Seq<u8>| #[trigger] full.contains(t) ==> tokens.contains(t),
        explore_each(m, tokens, Seq::empty(), candidates(m, tokens, Seq::empty()), budget).0 is Some,
    ensures
        no_later(m, explore_each(m, tokens, Seq::empty(), candidates(m, tokens, Seq::empty()), budget).0->0, full),
{
    let empty = Seq::<Seq<u8>>::empty();
    assert(full.take(0) =~= empty);
    candidates_fit(m, tokens, empty);
    candidates_law(m, tokens, empty);
    first_candidate(m, tokens, full);
    explore_each_first(m, tokens, full, 0, candidates(m, tokens, empty), budget);
}

/// The score of a path is the sum of its tokens' counts.
pub proof fn score_law<C: Chain>(m: C, path: Seq<Seq<u8>>, t: Seq<u8>)
    ensures
        path_score(m, Seq::empty()) == 0,
        path_score(m, path.push(t)) == path_score(m, path) + m.weight(t),
{
    assert(path.push(t).drop_last() =~= path);
}

/// Whether one path ranks before another of its length: it has the higher score, or the
/// same score and, where the two part, the lower bytes.
pub open spec fn ranks_before<C: Chain>(m: C, q: Seq<Seq<u8>>, p: Seq<Seq<u8>>) -> bool {
    path_score(m, q) > path_score(m, p) || path_score(m, q) == path_score(m, p) && exists|i: int|
        0 <= i < q.len() && i < p.len() && #[trigger] q.take(i) == p.take(i) && order::bytes_less(q[i], p[i])
}

proof fn parted_paths(q: Seq<Seq<u8>>, p: Seq<Seq<u8>>)
    requires
        q.len() == p.len(),
        q != p,
        !order::key_less(path_ints(p), path_ints(q)),
    ensures
        exists|i: int| 0 <= i < q.len() && i < p.len() && #[trigger] q.take(i) == p.take(i) && order::bytes_less(q[i], p[i]),
    decreases q.len(),
{
    if q.len() == 0 {
        assert(q =~= p);
    } else {
        let x = path_ints(q);
        let y = path_ints(p);
        assert(x[0] == order::ints(q[0]) && y[0] == order::ints(p[0]));
        assert(x.drop_first() =~= path_ints(q.drop_first()));
        assert(y.drop_first() =~= path_ints(p.drop_first()));
        if q[0] == p[0] {
            assert(q =~= seq![q[0]] + q.drop_first());
            assert(p =~= seq![p[0]] + p.drop_first());
            parted_paths(q.drop_first(), p.drop_first());
            let i = choose|i: int|
                0 <= i < q.drop_first().len() && i < p.drop_first().len() && #[trigger] q.drop_first().take(i)
                    == p.drop_first().take(i) && order::bytes_less(q.drop_first()[i], p.drop_first()[i]);
            assert(q.take(i + 1) =~= seq![q[0]] + q.drop_first().take(i));
            assert(p.take(i + 1) =~= seq![p[0]] + p.drop_first().take(i));
            assert(q.take(i + 1) == p.take(i + 1));
        } else {
            order::bytes_total(q[0], p[0]);
            if order::ints(q[0]) == order::ints(p[0]) {
                order::ints_injective(q[0], p[0]);
            }
            assert(q.take(0) =~= p.take(0));
        }
    }
}

/// Of two paths of one length that differ, what does not rank behind ranks before.
proof fn ranked_paths<C: Chain>(m: C, q: Seq<Seq<u8>>, p: Seq<Seq<u8>>)
    requires
        q.len() == p.len(),
        q != p,
        !order::key_less(path_rank(m)(p), path_rank(m)(q)),
    ensures
        ranks_before(m, q, p),
{
    path_order(-(path_score(m, p) as int), path_ints(p), -(path_score(m, q) as int), path_ints(q));
    if path_score(m, q) == path_score(m, p) {
        parted_paths(q, p);
    }
}

proof fn widened_members<C: Chain>(m: C, tokens: Seq<Seq<u8>>, beam: Seq<Seq<Seq<u8>>>, p: Seq<Seq<u8>>)
    requires
        forall|i: int| 0 <= i < beam.len() ==> (#[trigger] beam[i]).len() < m.size(),
    ensures
        widened(m, tokens, beam).contains(p) <==> p.len() > 0 && beam.contains(p.drop_last()) && tokens.contains(p.last())
            && tf::occurrences(p.drop_last(), p.last()) < m.weight(p.last()) && m.extends(p.drop_last(), p.last()),
    decreases beam.len(),
{
    if beam.len() > 0 {
        let front = beam.drop_last();
        let last = beam.last();
        assert forall|i: int| 0 <= i < front.len() implies (#[trigger] front[i]).len() < m.size() by {
            assert(front[i] == beam[i]);
        }
        widened_members(m, tokens, front, p);
        assert(beam =~= front.push(last));
        assert(beam[beam.len() - 1].len() < m.size());
        if p.len() > 0 {
            pushed_members(front, last, p.drop_last());
            filter_members(tokens, fits(m, last), p.last());
        }
        let fitting = tokens.filter(fits(m, last));
        let longer = longer_paths(m, tokens, last);
        let wide = widened(m, tokens, front);
        if (wide + longer).contains(p) {
            let i = choose|i: int| 0 <= i < (wide + longer).len() && (wide + longer)[i] == p;
            if i < wide.len() {
                assert(wide[i] == p);
                assert(wide.contains(p));
            } else {
                let k = i - wide.len();
                assert(longer[k] == p);
                assert(p == last.push(fitting[k]));
                assert(p.drop_last() =~= last);
                assert(fitting.contains(fitting[k]));
                filter_members(tokens, fits(m, last), p.last());
                pushed_members(front, last, p.drop_last());
            }
        }
        if wide.contains(p) {
            let i = choose|i: int| 0 <= i < wide.len() && wide[i] == p;
            assert((wide + longer)[i] == p);
        }
        if p.len() > 0 && p.drop_last() == last && tokens.contains(p.last()) && tf::occurrences(p.drop_last(), p.last()) < m.weight(
            p.last(),
        ) && m.extends(p.drop_last(), p.last()) {
            assert(fitting.contains(p.last()));
            let k = choose|k: int| 0 <= k < fitting.len() && fitting[k] == p.last();
            assert(longer[k] == last.push(fitting[k]));
            assert(p =~= last.push(p.last()));
            assert((wide + longer)[wide.len() + k] == p);
        }
    }
}

/// One round of a beam whose paths are not yet full: it goes on with the paths that are
/// one token longer, of which it keeps no more than its width; a longer path that it
/// drops ranks behind each path that it keeps.
pub proof fn beam_round_law<C: Chain>(
    m: C,
    tokens: Seq<Seq<u8>>,
    beam: Seq<Seq<Seq<u8>>>,
    size: nat,
    width: nat,
    rounds: nat,
) -> (next: Seq<Seq<Seq<u8>>>)
    requires
        rounds > 0,
        beam.len() > 0,
        size < m.size(),
        forall|i: int| 0 <= i < beam.len() ==> (#[trigger] beam[i]).len() == size,
    ensures
        beam_run(m, tokens, beam, width, rounds) == beam_run(m, tokens, next, width, (rounds - 1) as nat),
        next.len() <= width,
        forall|p: Seq<Seq<u8>>| #[trigger]
            next.contains(p) ==> p.len() == size + 1 && beam.contains(p.drop_last()) && tokens.contains(p.last()) && tf::occurrences(
                p.drop_last(),
                p.last(),
            ) < m.weight(p.last()) && m.extends(p.drop_last(), p.last()),
        forall|p: Seq<Seq<u8>>, q: Seq<Seq<u8>>|
            p.len() == size + 1 && beam.contains(p.drop_last()) && tokens.contains(p.last()) && tf::occurrences(
                p.drop_last(),
                p.last(),
            ) < m.weight(p.last()) && m.extends(p.drop_last(), p.last()) && !#[trigger] next.contains(p) && #[trigger] next.contains(q)
                ==> ranks_before(m, q, p),
        forall|p: Seq<Seq<u8>>|
            p.len() == size + 1 && beam.contains(p.drop_last()) && tokens.contains(p.last()) && tf::occurrences(
                p.drop_last(),
                p.last(),
            ) < m.weight(p.last()) && m.extends(p.drop_last(), p.last()) && !#[trigger] next.contains(p) ==> next.len() == width,
{
    let wide = widened(m, tokens, beam);
    let sorted = order::ranked(wide, path_rank(m));
    let next = cut(sorted, width);
    path_rank_faithful(m);
    order::ranked_facts(wide, path_rank(m));
    let done = beam.filter(finished(m));
    assert(done.len() == 0) by {
        if done.len() > 0 {
            filter_members(beam, finished(m), done[0]);
            assert(done.contains(done[0]));
            let i = choose|i: int| 0 <= i < beam.len() && beam[i] == done[0];
            assert(beam[i].len() == size);
        }
    }
    assert(done + beam_run(m, tokens, next, width, (rounds - 1) as nat) =~= beam_run(m, tokens, next, width, (rounds - 1) as nat));
    assert forall|p: Seq<Seq<u8>>| #[trigger] next.contains(p) implies p.len() == size + 1 && beam.contains(p.drop_last())
        && tokens.contains(p.last()) && tf::occurrences(p.drop_last(), p.last()) < m.weight(p.last()) && m.extends(
        p.drop_last(),
        p.last(),
    ) by {
        let i = choose|i: int| 0 <= i < next.len() && next[i] == p;
        assert(sorted[i] == p);
        assert(sorted.contains(p));
        widened_members(m, tokens, beam, p);
        let j = choose|j: int| 0 <= j < beam.len() && beam[j] == p.drop_last();
        assert(beam[j].len() == size);
    }
    assert forall|p: Seq<Seq<u8>>, q: Seq<Seq<u8>>|
        p.len() == size + 1 && beam.contains(p.drop_last()) && tokens.contains(p.last()) && tf::occurrences(p.drop_last(), p.last())
            < m.weight(p.last()) && m.extends(p.drop_last(), p.last()) && !#[trigger] next.contains(p) && #[trigger] next.contains(
            q,
        ) implies ranks_before(m, q, p) by {
        widened_members(m, tokens, beam, p);
        assert(sorted.contains(p));
        let j = choose|j: int| 0 <= j < sorted.len() && sorted[j] == p;
        let i = choose|i: int| 0 <= i < next.len() && next[i] == q;
        assert(sorted[i] == q);
        if j < next.len() {
            assert(next[j] == p);
        }
        assert(i < j);
        assert(!order::key_less(path_rank(m)(sorted[j]), path_rank(m)(sorted[i])));
        ranked_paths(m, q, p);
    }
    assert forall|p: Seq<Seq<u8>>|
        p.len() == size + 1 && beam.contains(p.drop_last()) && tokens.contains(p.last()) && tf::occurrences(p.drop_last(), p.last())
            < m.weight(p.last()) && m.extends(p.drop_last(), p.last()) && !#[trigger] next.contains(p) implies next.len() == width by {
        widened_members(m, tokens, beam, p);
        assert(sorted.contains(p));
        let j = choose|j: int| 0 <= j < sorted.len() && sorted[j] == p;
        if sorted.len() <= width {
            assert(next[j] == p);
        }
    }
    next
}

/// A beam search ends with the full path that ranks before every other it reached; where
/// it reached one, it ends with one.
pub proof fn best_law<C: Chain>(m: C, tokens: Seq<Seq<u8>>, width: nat, p: Seq<Seq<u8>>)
    requires
        beam_run(m, tokens, seq![Seq::<Seq<u8>>::empty()], width, m.size() + 1).contains(p),
    ensures
        beam_result(m, tokens, width) matches Some(q) && full_chain(m, q) && (q == p || ranks_before(m, q, p)),
{
    let empty = Seq::<Seq<u8>>::empty();
    let paths = beam_run(m, tokens, seq![empty], width, m.size() + 1);
    let sorted = order::ranked(paths, path_rank(m));
    path_rank_faithful(m);
    order::ranked_facts(paths, path_rank(m));
    beam_result_sound(m, tokens, width);
    beam_sound(m, tokens, seq![empty], width, m.size() + 1, p);
    assert(sorted.contains(p));
    let j = choose|j: int| 0 <= j < sorted.len() && sorted[j] == p;
    let q = sorted[0];
    if j > 0 && q != p {
        assert(!order::key_less(path_rank(m)(sorted[j]), path_rank(m)(sorted[0])));
        ranked_paths(m, q, p);
    }
}

} // verus!
