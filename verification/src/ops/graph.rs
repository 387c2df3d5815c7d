//! Values, operators, and the graph that wires them.

use vstd::prelude::*;

use crate::hllset::HLLSet;
use crate::ops::expr::EvalError;
use crate::ops::expr::Expression;
use crate::ops::expr::ExpressionModel;
use crate::ops::expr::Fault;
use crate::order::Keyed;
use crate::order::Side;
use crate::table::TextTable;
use crate::hllset;
use crate::ops::expr;
use crate::order;
use crate::table;
use crate::text;

verus! {

/// Sets by content key.
#[derive(Clone, Debug, PartialEq, Eq)]
pub struct ValueStore {
    values: TextTable<HLLSet>,
}

impl View for ValueStore {
    type V = Map<Seq<char>, Set<u32>>;

    closed spec fn view(&self) -> Map<Seq<char>, Set<u32>> {
        self.values@.map_values(|s: HLLSet| s@)
    }
}

/// Values with one more set, under its key.
pub open spec fn stored(m: Map<Seq<char>, Set<u32>>, s: Set<u32>) -> Map<Seq<char>, Set<u32>> {
    if m.dom().contains(hllset::key_of(s)) {
        m
    } else {
        m.insert(hllset::key_of(s), s)
    }
}

/// Every set stands under its own key.
pub open spec fn keyed_values(m: Map<Seq<char>, Set<u32>>) -> bool {
    forall|k: Seq<char>| #[trigger] m.dom().contains(k) ==> k == hllset::key_of(m[k])
}

/// Storing keeps every set under its own key, and storing twice is storing once.
pub proof fn stored_law(m: Map<Seq<char>, Set<u32>>, s: Set<u32>)
    ensures
        keyed_values(m) ==> keyed_values(stored(m, s)),
        stored(stored(m, s), s) == stored(m, s),
        m.submap_of(stored(m, s)),
{
}

impl ValueStore {
    pub closed spec fn wf(&self) -> bool {
        self.values.wf()
    }

    /// The keys in order.
    pub closed spec fn keys(&self) -> Seq<Seq<char>> {
        self.values.names()
    }

    /// The keys list each key once, ascending.
    pub proof fn keys_facts(&self)
        requires
            self.wf(),
        ensures
            self.keys().to_set() == self@.dom(),
            self.keys().no_duplicates(),
            table::ascending_names(self.keys()),
            self@.dom().finite(),
            self@.dom().len() == self.keys().len(),
    {
        self.values.facts();
        assert(self@.dom() =~= self.values@.dom());
    }

    pub fn new() -> (v: ValueStore)
        ensures
            v.wf(),
            v@ == Map::<Seq<char>, Set<u32>>::empty(),
    {
        let v = ValueStore { values: TextTable::new() };
        proof {
            assert(v@ =~= Map::<Seq<char>, Set<u32>>::empty());
        }
        v
    }

    /// Stores a set under its key; the key.
    pub fn insert(&mut self, set: HLLSet) -> (cid: String)
        requires
            old(self).wf(),
        ensures
            final(self).wf(),
            cid@ == hllset::key_of(set@),
            final(self)@ == stored(old(self)@, set@),
            final(self)@.dom().contains(cid@),
    {
        let ghost before = self@;
        let cid = set.content_key();
        if !self.values.contains(cid.as_str()) {
            self.values.insert(cid.clone(), set);
        }
        proof {
            assert(self@ =~= stored(before, set@));
        }
        cid
    }

    /// The set under a key.
    pub fn get(&self, cid: &str) -> (s: Option<&HLLSet>)
        requires
            self.wf(),
        ensures
            s is Some <==> self@.dom().contains(cid@),
            s is Some ==> s->0@ == self@[cid@],
    {
        self.values.get(cid)
    }

    pub fn contains(&self, cid: &str) -> (yes: bool)
        requires
            self.wf(),
        ensures
            yes == self@.dom().contains(cid@),
    {
        self.values.contains(cid)
    }

    pub fn len(&self) -> (n: usize)
        requires
            self.wf(),
        ensures
            n == self@.dom().len(),
            n == self.keys().len(),
    {
        proof {
            assert(self@.dom() =~= self.values@.dom());
        }
        self.values.len()
    }

    pub fn is_empty(&self) -> (yes: bool)
        requires
            self.wf(),
        ensures
            yes == (self@ == Map::<Seq<char>, Set<u32>>::empty()),
    {
        let yes = self.values.is_empty();
        proof {
            assert(self@.dom() =~= self.values@.dom());
            if yes {
                assert(self@ =~= Map::<Seq<char>, Set<u32>>::empty());
            } else if self@ == Map::<Seq<char>, Set<u32>>::empty() {
                assert(self.values@ =~= Map::<Seq<char>, HLLSet>::empty());
            }
        }
        yes
    }

    /// The keys in order.
    pub fn cids(&self) -> (list: Vec<String>)
        requires
            self.wf(),
        ensures
            text::texts(list@) == self.keys(),
    {
        let mut list: Vec<String> = Vec::new();
        let mut i: usize = 0;
        while i < self.values.len()
            invariant
                self.wf(),
                i <= self.values.names().len(),
                list@.len() == i,
                forall|j: int| 0 <= j < i ==> (#[trigger] list@[j])@ == self.values.names()[j],
            decreases self.values.names().len() - i,
        {
            list.push(self.values.at(i).0.clone());
            i = i + 1;
        }
        proof {
            assert(text::texts(list@) =~= self.keys());
        }
        list
    }

    /// The keys with their sets, in order.
    pub fn iter(&self) -> (list: Vec<(&String, &HLLSet)>)
        requires
            self.wf(),
        ensures
            list@.len() == self.keys().len(),
            forall|i: int|
                0 <= i < list@.len() ==> (#[trigger] list@[i]).0@ == self.keys()[i] && list@[i].1@ == self@[self.keys()[i]],
    {
        let mut list: Vec<(&String, &HLLSet)> = Vec::new();
        let mut i: usize = 0;
        proof {
            self.values.facts();
        }
        while i < self.values.len()
            invariant
                self.wf(),
                i <= self.values.names().len(),
                self.values.names().to_set() == self.values@.dom(),
                list@.len() == i,
                forall|j: int|
                    0 <= j < i ==> (#[trigger] list@[j]).0@ == self.keys()[j] && list@[j].1@ == self@[self.keys()[j]],
            decreases self.values.names().len() - i,
        {
            let e = self.values.at(i);
            proof {
                assert(self.values.names().to_set().contains(self.values.names()[i as int]));
            }
            list.push(e);
            i = i + 1;
        }
        list
    }
}

/// An operator.
#[derive(Clone, Debug, PartialEq, Eq)]
pub struct OpSpec {
    pub cid: String,
    pub arity: usize,
    pub outputs: usize,
    pub expr: Expression,
}

/// What an operator says.
pub struct OpModel {
    pub cid: Seq<char>,
    pub arity: nat,
    pub outputs: nat,
    pub expr: ExpressionModel,
}

impl View for OpSpec {
    type V = OpModel;

    open spec fn view(&self) -> OpModel {
        OpModel { cid: self.cid@, arity: self.arity as nat, outputs: self.outputs as nat, expr: self.expr@ }
    }
}

/// The operator of an expression.
pub open spec fn op_of(e: ExpressionModel) -> OpModel {
    OpModel { cid: expr::op_key(e.source), arity: e.arity, outputs: e.outputs, expr: e }
}

/// Operators with one more, under its id.
pub open spec fn registered(m: Map<Seq<char>, OpModel>, e: ExpressionModel) -> Map<Seq<char>, OpModel> {
    if m.dom().contains(expr::op_key(e.source)) {
        m
    } else {
        m.insert(expr::op_key(e.source), op_of(e))
    }
}

/// Every operator stands under its own id.
pub open spec fn keyed_ops(m: Map<Seq<char>, OpModel>) -> bool {
    forall|k: Seq<char>| #[trigger] m.dom().contains(k) ==> k == expr::op_key(m[k].expr.source) && m[k] == op_of(m[k].expr)
}

/// Adding keeps every operator under its own id, and adding twice is adding once.
pub proof fn registered_law(m: Map<Seq<char>, OpModel>, e: ExpressionModel)
    ensures
        keyed_ops(m) ==> keyed_ops(registered(m, e)),
        registered(registered(m, e), e) == registered(m, e),
        m.submap_of(registered(m, e)),
{
}

/// Operators by id.
#[derive(Clone, Debug, PartialEq, Eq)]
pub struct OpTable {
    ops: TextTable<OpSpec>,
}

impl View for OpTable {
    type V = Map<Seq<char>, OpModel>;

    closed spec fn view(&self) -> Map<Seq<char>, OpModel> {
        self.ops@.map_values(|s: OpSpec| s@)
    }
}

impl OpTable {
    pub closed spec fn wf(&self) -> bool {
        self.ops.wf()
    }

    /// The ids in order.
    pub closed spec fn keys(&self) -> Seq<Seq<char>> {
        self.ops.names()
    }

    /// The ids list each id once, ascending.
    pub proof fn keys_facts(&self)
        requires
            self.wf(),
        ensures
            self.keys().to_set() == self@.dom(),
            self.keys().no_duplicates(),
            table::ascending_names(self.keys()),
            self@.dom().finite(),
            self@.dom().len() == self.keys().len(),
    {
        self.ops.facts();
        assert(self@.dom() =~= self.ops@.dom());
    }

    pub fn new() -> (t: OpTable)
        ensures
            t.wf(),
            t@ == Map::<Seq<char>, OpModel>::empty(),
    {
        let t = OpTable { ops: TextTable::new() };
        proof {
            assert(t@ =~= Map::<Seq<char>, OpModel>::empty());
        }
        t
    }

    /// Compiles a source text and adds the operator; its id.
    pub fn add(&mut self, source: &str) -> (r: Result<String, EvalError>)
        requires
            old(self).wf(),
        ensures
            final(self).wf(),
            match r {
                Ok(cid) => expr::compiled(source@) is Ok && cid@ == expr::op_key(source@) && final(self)@ == registered(
                    old(self)@,
                    expr::compiled(source@)->Ok_0,
                ),
                Err(e) => expr::compiled(source@) == Err::<ExpressionModel, Fault>(e@) && final(self)@ == old(self)@,
            },
    {
        let ghost before = self@;
        let expr = match Expression::compile(source) {
            Ok(e) => e,
            Err(e) => {
                return Err(e);
            },
        };
        let ghost m = expr@;
        let cid = expr.op_cid();
        if !self.ops.contains(cid.as_str()) {
            let spec = OpSpec { cid: cid.clone(), arity: expr.arity, outputs: expr.outputs, expr };
            self.ops.insert(cid.clone(), spec);
            proof {
                assert(spec@ == op_of(m));
            }
        }
        proof {
            assert(self@ =~= registered(before, m));
        }
        Ok(cid)
    }

    /// The operator under an id.
    pub fn get(&self, cid: &str) -> (s: Option<&OpSpec>)
        requires
            self.wf(),
        ensures
            s is Some <==> self@.dom().contains(cid@),
            s is Some ==> s->0@ == self@[cid@],
    {
        self.ops.get(cid)
    }

    pub fn contains(&self, cid: &str) -> (yes: bool)
        requires
            self.wf(),
        ensures
            yes == self@.dom().contains(cid@),
    {
        self.ops.contains(cid)
    }

    pub fn len(&self) -> (n: usize)
        requires
            self.wf(),
        ensures
            n == self@.dom().len(),
            n == self.keys().len(),
    {
        proof {
            assert(self@.dom() =~= self.ops@.dom());
        }
        self.ops.len()
    }

    pub fn is_empty(&self) -> (yes: bool)
        requires
            self.wf(),
        ensures
            yes == (self@ == Map::<Seq<char>, OpModel>::empty()),
    {
        let yes = self.ops.is_empty();
        proof {
            assert(self@.dom() =~= self.ops@.dom());
            if yes {
                assert(self@ =~= Map::<Seq<char>, OpModel>::empty());
            } else if self@ == Map::<Seq<char>, OpModel>::empty() {
                assert(self.ops@ =~= Map::<Seq<char>, OpSpec>::empty());
            }
        }
        yes
    }

    /// The ids with their operators, in order.
    pub fn iter(&self) -> (list: Vec<(&String, &OpSpec)>)
        requires
            self.wf(),
        ensures
            list@.len() == self.keys().len(),
            forall|i: int|
                0 <= i < list@.len() ==> (#[trigger] list@[i]).0@ == self.keys()[i] && list@[i].1@ == self@[self.keys()[i]],
    {
        let mut list: Vec<(&String, &OpSpec)> = Vec::new();
        let mut i: usize = 0;
        proof {
            self.ops.facts();
        }
        while i < self.ops.len()
            invariant
                self.wf(),
                i <= self.ops.names().len(),
                self.ops.names().to_set() == self.ops@.dom(),
                list@.len() == i,
                forall|j: int|
                    0 <= j < i ==> (#[trigger] list@[j]).0@ == self.keys()[j] && list@[j].1@ == self@[self.keys()[j]],
            decreases self.ops.names().len() - i,
        {
            let e = self.ops.at(i);
            proof {
                assert(self.ops.names().to_set().contains(self.ops.names()[i as int]));
            }
            list.push(e);
            i = i + 1;
        }
        list
    }
}

/// Where an edge starts: a value, or an output of an operator.
#[derive(Clone, Debug, PartialEq, Eq, PartialOrd, Ord, Hash)]
pub enum Port {
    Value(String),
    OpOut { op: String, index: usize },
}

/// Where an edge ends: an input of an operator.
#[derive(Clone, Debug, PartialEq, Eq, PartialOrd, Ord, Hash)]
pub enum Target {
    OpIn { op: String, index: usize },
}

/// An edge.
#[derive(Clone, Debug, PartialEq, Eq, PartialOrd, Ord, Hash)]
pub struct Edge {
    pub from: Port,
    pub to: Target,
}

/// What a port says.
pub enum PortModel {
    Value(Seq<char>),
    OpOut { op: Seq<char>, index: nat },
}

impl View for Port {
    type V = PortModel;

    open spec fn view(&self) -> PortModel {
        match self {
            Port::Value(c) => PortModel::Value(c@),
            Port::OpOut { op, index } => PortModel::OpOut { op: op@, index: *index as nat },
        }
    }
}

impl View for Target {
    type V = (Seq<char>, nat);

    open spec fn view(&self) -> (Seq<char>, nat) {
        match self {
            Target::OpIn { op, index } => (op@, *index as nat),
        }
    }
}

impl View for Edge {
    type V = (PortModel, (Seq<char>, nat));

    open spec fn view(&self) -> (PortModel, (Seq<char>, nat)) {
        (self.from@, self.to@)
    }
}

/// The views of a list of edges.
pub open spec fn edge_views(edges: Seq<Edge>) -> Seq<(PortModel, (Seq<char>, nat))> {
    edges.map_values(|e: Edge| e@)
}

impl Port {
    /// Whether two ports are the same.
    pub fn same(&self, other: &Port) -> (yes: bool)
        ensures
            yes == (self@ == other@),
    {
        match self {
            Port::Value(a) => match other {
                Port::Value(b) => text::same_text(a.as_str(), b.as_str()),
                _ => false,
            },
            Port::OpOut { op: a, index: i } => match other {
                Port::OpOut { op: b, index: j } => *i == *j && text::same_text(a.as_str(), b.as_str()),
                _ => false,
            },
        }
    }
}

/// The inputs that a port feeds.
pub open spec fn fed_by(edges: Seq<(PortModel, (Seq<char>, nat))>, from: PortModel) -> Set<(Seq<char>, nat)> {
    Set::new(|t: (Seq<char>, nat)| edges.contains((from, t)))
}

/// The rank of an input: operator, then place.
pub open spec fn input_rank(t: (Seq<char>, nat)) -> Seq<Seq<int>> {
    seq![order::ints(text::utf8(t.0)), seq![t.1 as int]]
}

/// Inputs in strictly ascending order.
pub open spec fn ascending_inputs(l: Seq<(Seq<char>, nat)>) -> bool {
    forall|i: int, j: int| 0 <= i < j < l.len() ==> order::key_less(input_rank(#[trigger] l[i]), input_rank(#[trigger] l[j]))
}

/// The inputs that a port feeds, ascending, each once.
pub open spec fn consumers(edges: Seq<(PortModel, (Seq<char>, nat))>, from: PortModel) -> Seq<(Seq<char>, nat)> {
    choose|l: Seq<(Seq<char>, nat)>| #[trigger] ascending_inputs(l) && l.to_set() == fed_by(edges, from)
}

impl Keyed for (String, usize) {
    open spec fn rank(&self) -> Seq<Seq<int>> {
        input_rank((self.0@, self.1 as nat))
    }

    fn before(&self, other: &Self) -> (first: bool) {
        let a = order::compare_bytes(self.0.as_str().as_bytes(), other.0.as_str().as_bytes());
        proof {
            input_order((self.0@, self.1 as nat), (other.0@, other.1 as nat));
        }
        match a {
            Side::Less => true,
            Side::Greater => false,
            Side::Same => self.1 < other.1,
        }
    }
}

/// The order of inputs: by operator, then by place.
pub proof fn input_order(a: (Seq<char>, nat), b: (Seq<char>, nat))
    ensures
        order::key_less(input_rank(a), input_rank(b)) == (order::bytes_less(text::utf8(a.0), text::utf8(b.0)) || (text::utf8(a.0) == text::utf8(b.0) && a.1
            < b.1)),
        order::bytes_less(text::utf8(a.0), text::utf8(b.0)) ==> !order::bytes_less(text::utf8(b.0), text::utf8(a.0)) && text::utf8(a.0) != text::utf8(b.0),
        input_rank(a) == input_rank(b) ==> a == b,
{
    let x = text::utf8(a.0);
    let y = text::utf8(b.0);
    let k = input_rank(a);
    let l = input_rank(b);
    order::bytes_irreflexive(x);
    if order::bytes_less(x, y) && order::bytes_less(y, x) {
        order::bytes_transitive(x, y, x);
    }
    if order::ints(x) == order::ints(y) {
        order::ints_injective(x, y);
        text::utf8_injective(a.0, b.0);
        let p = seq![a.1 as int];
        let q = seq![b.1 as int];
        assert(k.drop_first() =~= seq![p]);
        assert(l.drop_first() =~= seq![q]);
        assert(p[0] == a.1 && q[0] == b.1);
        assert(p.drop_first() =~= Seq::<int>::empty());
        assert(q.drop_first() =~= Seq::<int>::empty());
        assert(seq![p].drop_first() =~= Seq::<Seq<int>>::empty());
        assert(seq![q].drop_first() =~= Seq::<Seq<int>>::empty());
        reveal_with_fuel(order::key_less, 3);
        reveal_with_fuel(order::lex_less, 3);
    } else if input_rank(a) == input_rank(b) {
        assert(k[0] == l[0]);
    }
    if input_rank(a) == input_rank(b) {
        assert(k[0] == l[0] && k[1] == l[1]);
        assert(k[1][0] == l[1][0]);
    }
}

/// Two ascending lists of the same inputs are the same list.
pub proof fn ascending_inputs_unique(a: Seq<(Seq<char>, nat)>, b: Seq<(Seq<char>, nat)>)
    requires
        ascending_inputs(a),
        ascending_inputs(b),
        a.to_set() == b.to_set(),
    ensures
        a == b,
    decreases a.len(),
{
    if a.len() == 0 {
        if b.len() > 0 {
            assert(b.to_set().contains(b[0]));
            assert(a.contains(b[0]));
        }
        assert(a =~= b);
    } else {
        let n = a.len() - 1;
        let m = b.len() - 1;
        assert(a.to_set().contains(a.last()));
        assert(b.contains(a.last()));
        assert(b.to_set().contains(b.last()));
        assert(a.contains(b.last()));
        let i = choose|i: int| 0 <= i < b.len() && b[i] == a.last();
        let j = choose|j: int| 0 <= j < a.len() && a[j] == b.last();
        if i < m {
            assert(order::key_less(input_rank(b[i]), input_rank(b[m])));
            if j < n {
                assert(order::key_less(input_rank(a[j]), input_rank(a[n])));
                order::key_transitive(input_rank(a[j]), input_rank(a[n]), input_rank(a[j]));
            }
            order::key_irreflexive(input_rank(b[m]));
        }
        assert(a.last() == b.last());
        let x = a.drop_last();
        let y = b.drop_last();
        assert forall|t: (Seq<char>, nat)| x.to_set().contains(t) == y.to_set().contains(t) by {
            order::key_irreflexive(input_rank(t));
            if x.contains(t) {
                let k = choose|k: int| 0 <= k < x.len() && x[k] == t;
                assert(order::key_less(input_rank(a[k]), input_rank(a[n])));
                assert(a.to_set().contains(a[k]));
                assert(b.contains(t));
                let q = choose|q: int| 0 <= q < b.len() && b[q] == t;
                assert(y[q] == t);
            }
            if y.contains(t) {
                let k = choose|k: int| 0 <= k < y.len() && y[k] == t;
                assert(order::key_less(input_rank(b[k]), input_rank(b[m])));
                assert(b.to_set().contains(b[k]));
                assert(a.contains(t));
                let q = choose|q: int| 0 <= q < a.len() && a[q] == t;
                assert(x[q] == t);
            }
        }
        assert(x.to_set() =~= y.to_set());
        ascending_inputs_unique(x, y);
        assert(a =~= x.push(a.last()));
        assert(b =~= y.push(b.last()));
    }
}

/// The views of a list of inputs.
pub open spec fn input_views(l: Seq<(String, usize)>) -> Seq<(Seq<char>, nat)> {
    l.map_values(|t: (String, usize)| (t.0@, t.1 as nat))
}

proof fn input_views_push(l: Seq<(String, usize)>, t: (String, usize))
    ensures
        input_views(l.push(t)) == input_views(l).push((t.0@, t.1 as nat)),
{
    assert(input_views(l.push(t)) =~= input_views(l).push((t.0@, t.1 as nat)));
}

/// What a list with one more input holds.
proof fn contains_push<A>(s: Seq<A>, x: A)
    ensures
        forall|y: A| #[trigger] s.push(x).contains(y) == (s.contains(y) || y == x),
{
    let p = s.push(x);
    assert forall|y: A| #[trigger] p.contains(y) == (s.contains(y) || y == x) by {
        if p.contains(y) {
            let i = choose|i: int| 0 <= i < p.len() && p[i] == y;
            if i < s.len() {
                assert(s[i] == y);
            }
        }
        if s.contains(y) {
            let i = choose|i: int| 0 <= i < s.len() && s[i] == y;
            assert(p[i] == y);
        }
        assert(p[s.len() as int] == x);
    }
}

/// Takes repetitions out of a list in order.
fn without_repeats(sorted: Vec<(String, usize)>) -> (out: Vec<(String, usize)>)
    requires
        order::in_order(sorted@),
    ensures
        ascending_inputs(input_views(out@)),
        forall|t: (Seq<char>, nat)| #[trigger] input_views(out@).contains(t) == input_views(sorted@).contains(t),
{
    let ghost all = input_views(sorted@);
    let mut out: Vec<(String, usize)> = Vec::new();
    let mut i: usize = 0;
    while i < sorted.len()
        invariant
            i <= sorted@.len(),
            order::in_order(sorted@),
            all == input_views(sorted@),
            ascending_inputs(input_views(out@)),
            i > 0 ==> out@.len() > 0 && (out@.last().0@, out@.last().1 as nat) == all[i - 1],
            i == 0 ==> out@.len() == 0,
            forall|t: (Seq<char>, nat)| #[trigger] input_views(out@).contains(t) == all.take(i as int).contains(t),
        decreases sorted.len() - i,
    {
        let ghost here = all[i as int];
        let ghost before = out@;
        let ghost shown = input_views(out@);
        proof {
            assert(all.take(i as int + 1) =~= all.take(i as int).push(here));
            contains_push(all.take(i as int), here);
            assert(sorted@[i as int].rank() == input_rank(here));
        }
        let fresh: bool = if i == 0 {
            true
        } else {
            let last = out.len() - 1;
            let same = out[last].1 == sorted[i].1 && text::same_text(out[last].0.as_str(), sorted[i].0.as_str());
            !same
        };
        if fresh {
            proof {
                input_views_push(out@, (sorted@[i as int].0, sorted@[i as int].1));
                if i > 0 {
                    let prev = all[i - 1];
                    assert(sorted@[i - 1].rank() == input_rank(prev));
                    assert(!order::key_less(sorted@[i as int].rank(), sorted@[i - 1].rank()));
                    order::key_total(input_rank(prev), input_rank(here));
                    input_order(prev, here);
                    assert(order::key_less(input_rank(prev), input_rank(here)));
                    assert(shown.last() == prev);
                }
            }
            out.push((sorted[i].0.clone(), sorted[i].1));
            proof {
                let now = input_views(out@);
                assert(now =~= shown.push(here));
                contains_push(shown, here);
                assert forall|a: int, b: int| 0 <= a < b < now.len() implies order::key_less(
                    input_rank(#[trigger] now[a]),
                    input_rank(#[trigger] now[b]),
                ) by {
                    if b == shown.len() {
                        if a < shown.len() - 1 {
                            assert(order::key_less(input_rank(shown[a]), input_rank(shown[shown.len() - 1])));
                            order::key_transitive(
                                input_rank(shown[a]),
                                input_rank(shown[shown.len() - 1]),
                                input_rank(here),
                            );
                        }
                    } else {
                        assert(order::key_less(input_rank(shown[a]), input_rank(shown[b])));
                    }
                }
            }
        } else {
            proof {
                assert(all[i - 1] == here);
                assert(all.take(i as int)[i - 1] == here);
            }
        }
        i = i + 1;
    }
    proof {
        assert(all.take(i as int) =~= all);
    }
    out
}

/// A graph of values and operators.
#[derive(Clone, Debug, PartialEq, Eq)]
pub struct OpGraph {
    pub values: ValueStore,
    pub ops: OpTable,
    pub edges: Vec<Edge>,
}

impl OpGraph {
    pub open spec fn wf(&self) -> bool {
        self.values.wf() && self.ops.wf()
    }

    /// The edges as views.
    pub open spec fn wires(&self) -> Seq<(PortModel, (Seq<char>, nat))> {
        edge_views(self.edges@)
    }

    pub fn new() -> (g: OpGraph)
        ensures
            g.wf(),
            g.values@ == Map::<Seq<char>, Set<u32>>::empty(),
            g.ops@ == Map::<Seq<char>, OpModel>::empty(),
            g.wires() == Seq::<(PortModel, (Seq<char>, nat))>::empty(),
    {
        let g = OpGraph { values: ValueStore::new(), ops: OpTable::new(), edges: Vec::new() };
        proof {
            assert(g.wires() =~= Seq::<(PortModel, (Seq<char>, nat))>::empty());
        }
        g
    }

    /// Stores a value; its key.
    pub fn add_value(&mut self, set: HLLSet) -> (cid: String)
        requires
            old(self).wf(),
        ensures
            final(self).wf(),
            cid@ == hllset::key_of(set@),
            final(self).values@ == stored(old(self).values@, set@),
            final(self).values@.dom().contains(cid@),
            final(self).ops == old(self).ops,
            final(self).edges == old(self).edges,
    {
        self.values.insert(set)
    }

    /// Stores the union of two values; its key.
    pub fn join(&mut self, a: &str, b: &str) -> (r: Result<String, EvalError>)
        requires
            old(self).wf(),
        ensures
            final(self).wf(),
            final(self).ops == old(self).ops,
            final(self).edges == old(self).edges,
            match r {
                Ok(cid) => {
                    let s = old(self).values@[a@].union(old(self).values@[b@]);
                    &&& looked_up(old(self).values@, a@, b@) is None
                    &&& cid@ == hllset::key_of(s)
                    &&& final(self).values@ == stored(old(self).values@, s)
                },
                Err(e) => final(self).values@ == old(self).values@ && looked_up(old(self).values@, a@, b@) == Some(e@),
            },
    {
        let (x, y) = match self.lookup2(a, b) {
            Ok(p) => p,
            Err(e) => {
                return Err(e);
            },
        };
        let s = x.union(&y);
        Ok(self.values.insert(s))
    }

    /// Stores the intersection of two values; its key.
    pub fn meet(&mut self, a: &str, b: &str) -> (r: Result<String, EvalError>)
        requires
            old(self).wf(),
        ensures
            final(self).wf(),
            final(self).ops == old(self).ops,
            final(self).edges == old(self).edges,
            match r {
                Ok(cid) => {
                    let s = old(self).values@[a@].intersect(old(self).values@[b@]);
                    &&& looked_up(old(self).values@, a@, b@) is None
                    &&& cid@ == hllset::key_of(s)
                    &&& final(self).values@ == stored(old(self).values@, s)
                },
                Err(e) => final(self).values@ == old(self).values@ && looked_up(old(self).values@, a@, b@) == Some(e@),
            },
    {
        let (x, y) = match self.lookup2(a, b) {
            Ok(p) => p,
            Err(e) => {
                return Err(e);
            },
        };
        let s = x.intersection(&y);
        Ok(self.values.insert(s))
    }

    /// Whether one value lies within another.
    pub fn subset(&self, a: &str, b: &str) -> (r: Result<bool, EvalError>)
        requires
            self.wf(),
        ensures
            match r {
                Ok(yes) => looked_up(self.values@, a@, b@) is None && yes == self.values@[a@].subset_of(self.values@[b@]),
                Err(e) => looked_up(self.values@, a@, b@) == Some(e@),
            },
    {
        let (x, y) = match self.lookup2(a, b) {
            Ok(p) => p,
            Err(e) => {
                return Err(e);
            },
        };
        let d = x.difference(&y);
        let yes = d.is_empty();
        proof {
            if yes {
                assert forall|i: u32| x@.contains(i) implies y@.contains(i) by {
                    assert(!d@.contains(i));
                }
            } else if x@.subset_of(y@) {
                assert(d@ =~= Set::<u32>::empty());
            }
        }
        Ok(yes)
    }

    fn lookup2(&self, a: &str, b: &str) -> (r: Result<(HLLSet, HLLSet), EvalError>)
        requires
            self.wf(),
        ensures
            match r {
                Ok(p) => looked_up(self.values@, a@, b@) is None && p.0@ == self.values@[a@] && p.1@ == self.values@[b@],
                Err(e) => looked_up(self.values@, a@, b@) == Some(e@),
            },
    {
        let x = match self.values.get(a) {
            Some(s) => *s,
            None => {
                return Err(EvalError::MissingValue(text::copy_str(a)));
            },
        };
        let y = match self.values.get(b) {
            Some(s) => *s,
            None => {
                return Err(EvalError::MissingValue(text::copy_str(b)));
            },
        };
        Ok((x, y))
    }

    /// Compiles a source text and adds the operator; its id.
    pub fn add_op(&mut self, source: &str) -> (r: Result<String, EvalError>)
        requires
            old(self).wf(),
        ensures
            final(self).wf(),
            final(self).values == old(self).values,
            final(self).edges == old(self).edges,
            match r {
                Ok(cid) => expr::compiled(source@) is Ok && cid@ == expr::op_key(source@) && final(self).ops@ == registered(
                    old(self).ops@,
                    expr::compiled(source@)->Ok_0,
                ),
                Err(e) => expr::compiled(source@) == Err::<ExpressionModel, Fault>(e@) && final(self).ops@ == old(self).ops@,
            },
    {
        self.ops.add(source)
    }

    /// Adds an edge.
    pub fn connect(&mut self, from: Port, to: Target)
        ensures
            final(self).values == old(self).values,
            final(self).ops == old(self).ops,
            final(self).wires() == old(self).wires().push((from@, to@)),
    {
        let ghost before = self.wires();
        self.edges.push(Edge { from, to });
        proof {
            assert(self.wires() =~= before.push((from@, to@)));
        }
    }

    /// The inputs that a port feeds, ascending, each once.
    pub fn consumers_of(&self, from: &Port) -> (out: Vec<(String, usize)>)
        ensures
            input_views(out@) == consumers(self.wires(), from@),
            ascending_inputs(input_views(out@)),
            input_views(out@).to_set() == fed_by(self.wires(), from@),
    {
        let ghost wires = self.wires();
        let mut list: Vec<(String, usize)> = Vec::new();
        let mut i: usize = 0;
        while i < self.edges.len()
            invariant
                i <= self.edges@.len(),
                wires == self.wires(),
                forall|t: (Seq<char>, nat)|
                    #[trigger] input_views(list@).contains(t) == wires.take(i as int).contains((from@, t)),
            decreases self.edges.len() - i,
        {
            let ghost here = wires[i as int];
            let ghost before = input_views(list@);
            proof {
                assert(wires.take(i as int + 1) =~= wires.take(i as int).push(here));
                contains_push(wires.take(i as int), here);
            }
            if self.edges[i].from.same(from) {
                match &self.edges[i].to {
                    Target::OpIn { op, index } => {
                        let item = (op.clone(), *index);
                        proof {
                            input_views_push(list@, item);
                            contains_push(before, (item.0@, item.1 as nat));
                        }
                        list.push(item);
                    },
                }
            }
            i = i + 1;
        }
        let ghost items = list@;
        let sorted = order::sort_items(list);
        let ghost s = sorted@;
        let out = without_repeats(sorted);
        proof {
            assert(wires.take(i as int) =~= wires);
            order::same_members(s, items);
            assert forall|t: (Seq<char>, nat)| #[trigger] input_views(s).contains(t) == input_views(items).contains(t) by {
                if input_views(s).contains(t) {
                    let k = choose|k: int| 0 <= k < input_views(s).len() && input_views(s)[k] == t;
                    assert(s.contains(s[k]));
                    let q = choose|q: int| 0 <= q < items.len() && items[q] == s[k];
                    assert(input_views(items)[q] == t);
                }
                if input_views(items).contains(t) {
                    let k = choose|k: int| 0 <= k < input_views(items).len() && input_views(items)[k] == t;
                    assert(items.contains(items[k]));
                    assert(s.contains(items[k]));
                    let q = choose|q: int| 0 <= q < s.len() && s[q] == items[k];
                    assert(input_views(s)[q] == t);
                }
            }
            let o = input_views(out@);
            assert(o.to_set() =~= fed_by(wires, from@));
            let c = consumers(wires, from@);
            assert(ascending_inputs(o) && o.to_set() == fed_by(wires, from@));
            assert(ascending_inputs(c) && c.to_set() == fed_by(wires, from@));
            ascending_inputs_unique(o, c);
        }
        out
    }

    /// The id that a source text has as an operator.
    pub fn op_cid_for(source: &str) -> (cid: String)
        ensures
            cid@ == expr::op_key(source@),
    {
        expr::op_cid(source)
    }
}

/// Which of two ids has no value.
pub open spec fn looked_up(m: Map<Seq<char>, Set<u32>>, a: Seq<char>, b: Seq<char>) -> Option<Fault> {
    if !m.dom().contains(a) {
        Some(Fault::MissingValue(a))
    } else if !m.dom().contains(b) {
        Some(Fault::MissingValue(b))
    } else {
        None
    }
}

/// Every port has a list of the inputs it feeds.
proof fn consumers_exist(edges: Seq<(PortModel, (Seq<char>, nat))>, from: PortModel)
    ensures
        ascending_inputs(consumers(edges, from)),
        consumers(edges, from).to_set() == fed_by(edges, from),
    decreases edges.len(),
{
    let targets = edges.map_values(|e: (PortModel, (Seq<char>, nat))| e.1);
    let r = |t: (Seq<char>, nat)| input_rank(t);
    assert forall|a: (Seq<char>, nat), b: (Seq<char>, nat)| #[trigger] r(a) == #[trigger] r(b) implies a == b by {
        input_order(a, b);
    }
    let s = fed_by(edges, from);
    vstd::seq_lib::seq_to_set_is_finite(targets);
    assert(s.subset_of(targets.to_set())) by {
        assert forall|t: (Seq<char>, nat)| s.contains(t) implies targets.to_set().contains(t) by {
            let i = choose|i: int| 0 <= i < edges.len() && edges[i] == (from, t);
            assert(targets[i] == t);
        }
    }
    vstd::set_lib::lemma_len_subset(s, targets.to_set());
    let l = s.to_seq();
    s.lemma_to_seq_to_set_id();
    let sorted = order::ranked(l, r);
    order::ranked_facts(l, r);
    distinct_inputs(s);
    l.to_multiset_ensures();
    sorted.to_multiset_ensures();
    l.lemma_multiset_has_no_duplicates();
    sorted.lemma_multiset_has_no_duplicates_conv();
    assert forall|i: int, j: int| 0 <= i < j < sorted.len() implies order::key_less(
        input_rank(#[trigger] sorted[i]),
        input_rank(#[trigger] sorted[j]),
    ) by {
        let a = sorted[i];
        let b = sorted[j];
        assert(!order::key_less(r(b), r(a)));
        order::key_total(input_rank(a), input_rank(b));
        input_order(a, b);
    }
    assert forall|t: (Seq<char>, nat)| sorted.to_set().contains(t) == s.contains(t) by {
        assert(l.to_set().contains(t) == s.contains(t));
        assert(sorted.contains(t) == l.contains(t));
    }
    assert(sorted.to_set() =~= s);
    assert(ascending_inputs(sorted) && sorted.to_set() == s);
}

/// The list of a finite set holds no input twice.
proof fn distinct_inputs(s: Set<(Seq<char>, nat)>)
    requires
        s.finite(),
    ensures
        s.to_seq().no_duplicates(),
    decreases s.len(),
{
    reveal(Set::to_seq);
    if s.len() > 0 {
        let e = s.choose();
        distinct_inputs(s.remove(e));
        s.remove(e).lemma_to_seq_to_set_id();
        let rest = s.remove(e).to_seq();
        assert(!rest.contains(e)) by {
            if rest.contains(e) {
                assert(rest.to_set().contains(e));
            }
        }
    }
}

/// A port feeds exactly the inputs that edges lead to from it, each once, by the bytes
/// of the operator's id and then by place.
pub proof fn consumers_law(edges: Seq<(PortModel, (Seq<char>, nat))>, from: PortModel)
    ensures
        forall|t: (Seq<char>, nat)| #[trigger] consumers(edges, from).contains(t) <==> edges.contains((from, t)),
        forall|i: int, j: int|
            0 <= i < j < consumers(edges, from).len() ==> {
                let a = #[trigger] consumers(edges, from)[i];
                let b = #[trigger] consumers(edges, from)[j];
                order::bytes_less(text::utf8(a.0), text::utf8(b.0)) || a.0 == b.0 && a.1 < b.1
            },
{
    consumers_exist(edges, from);
    let c = consumers(edges, from);
    assert forall|t: (Seq<char>, nat)| #[trigger] c.contains(t) <==> edges.contains((from, t)) by {
        assert(c.to_set().contains(t) == fed_by(edges, from).contains(t));
    }
    assert forall|i: int, j: int| 0 <= i < j < c.len() implies ({
        let a = #[trigger] c[i];
        let b = #[trigger] c[j];
        order::bytes_less(text::utf8(a.0), text::utf8(b.0)) || a.0 == b.0 && a.1 < b.1
    }) by {
        input_order(c[i], c[j]);
        if text::utf8(c[i].0) == text::utf8(c[j].0) {
            text::utf8_injective(c[i].0, c[j].0);
        }
    }
}

/// A stored set stands under its key, unless another took the key; nothing else
/// changes.
pub proof fn stored_under_key(m: Map<Seq<char>, Set<u32>>, s: Set<u32>)
    ensures
        stored(m, s).dom().contains(hllset::key_of(s)),
        !m.dom().contains(hllset::key_of(s)) ==> stored(m, s)[hllset::key_of(s)] == s,
        forall|k: Seq<char>| k != hllset::key_of(s) ==> #[trigger] stored(m, s).dom().contains(k) == m.dom().contains(k),
        forall|k: Seq<char>| #[trigger] m.dom().contains(k) ==> stored(m, s)[k] == m[k],
{
}

/// An added operator stands under the id of its source, with the numbers of inputs and
/// outputs and the words of its expression, unless another took the id; nothing else
/// changes.
pub proof fn registered_under_id(m: Map<Seq<char>, OpModel>, e: ExpressionModel)
    ensures
        ({
            let id = expr::op_key(e.source);
            let after = registered(m, e);
            &&& after.dom().contains(id)
            &&& !m.dom().contains(id) ==> after[id].cid == id && after[id].arity == e.arity && after[id].outputs == e.outputs
                && after[id].expr == e
            &&& forall|k: Seq<char>| k != id ==> #[trigger] after.dom().contains(k) == m.dom().contains(k)
            &&& forall|k: Seq<char>| #[trigger] m.dom().contains(k) ==> after[k] == m[k]
        }),
{
}

} // verus!
