//! The dispatcher: values flow along the edges of a graph, and operators fire
//! once all their inputs are filled.

use vstd::prelude::*;

use crate::hllset::HLLSet;
use crate::ops::expr::EvalError;
use crate::ops::expr::Fault;
use crate::ops::graph::OpGraph;
use crate::ops::graph::OpModel;
use crate::ops::graph::Port;
use crate::ops::graph::PortModel;
use crate::ops::graph::Target;
use crate::sorted::Key;
use crate::sorted::SortedMap;
use crate::hllset;
use crate::ops::expr;
use crate::ops::graph;
use crate::text;

verus! {

/// What waits on the stack: a value to route, or an operator to fire.
#[derive(Clone, Debug, PartialEq, Eq)]
pub enum Token {
    Value(String),
    Fire(String),
}

/// What a token says.
pub enum TokenModel {
    Value(Seq<char>),
    Fire(Seq<char>),
}

impl View for Token {
    type V = TokenModel;

    open spec fn view(&self) -> TokenModel {
        match self {
            Token::Value(c) => TokenModel::Value(c@),
            Token::Fire(c) => TokenModel::Fire(c@),
        }
    }
}

/// One firing.
#[derive(Clone, Debug, PartialEq, Eq)]
pub struct FireRecord {
    pub op: String,
    pub inputs: Vec<String>,
    pub outputs: Vec<String>,
}

/// What a firing says.
pub struct FireModel {
    pub op: Seq<char>,
    pub inputs: Seq<Seq<char>>,
    pub outputs: Seq<Seq<char>>,
}

impl View for FireRecord {
    type V = FireModel;

    open spec fn view(&self) -> FireModel {
        FireModel { op: self.op@, inputs: text::texts(self.inputs@), outputs: text::texts(self.outputs@) }
    }
}

/// The firings so far.
#[derive(Clone, Debug, PartialEq, Eq)]
pub struct FireLog {
    pub records: Vec<FireRecord>,
}

impl View for FireLog {
    type V = Seq<FireModel>;

    open spec fn view(&self) -> Seq<FireModel> {
        self.records@.map_values(|r: FireRecord| r@)
    }
}

/// The outputs of all firings, in order.
pub open spec fn all_outputs(log: Seq<FireModel>) -> Seq<Seq<char>>
    decreases log.len(),
{
    if log.len() == 0 {
        Seq::empty()
    } else {
        all_outputs(log.drop_last()) + log.last().outputs
    }
}

impl FireLog {
    pub fn new() -> (l: FireLog)
        ensures
            l@ == Seq::<FireModel>::empty(),
    {
        let l = FireLog { records: Vec::new() };
        proof {
            assert(l@ =~= Seq::<FireModel>::empty());
        }
        l
    }

    pub fn len(&self) -> (n: usize)
        ensures
            n == self@.len(),
    {
        self.records.len()
    }

    pub fn is_empty(&self) -> (yes: bool)
        ensures
            yes == (self@.len() == 0),
    {
        self.records.len() == 0
    }

    /// The keys of the values produced, in order.
    pub fn produced_values(&self) -> (list: Vec<String>)
        ensures
            text::texts(list@) == all_outputs(self@),
    {
        let mut list: Vec<String> = Vec::new();
        let mut i: usize = 0;
        proof {
            assert(self@.take(0) =~= Seq::<FireModel>::empty());
            assert(text::texts(list@) =~= Seq::<Seq<char>>::empty());
        }
        while i < self.records.len()
            invariant
                i <= self.records@.len(),
                text::texts(list@) == all_outputs(self@.take(i as int)),
            decreases self.records.len() - i,
        {
            let mut more = text::copy_texts(&self.records[i].outputs);
            let ghost a = list@;
            let ghost b = more@;
            list.append(&mut more);
            proof {
                assert(self@.take(i as int + 1).drop_last() =~= self@.take(i as int));
                assert(self@.take(i as int + 1).last() == self.records@[i as int]@);
                assert(text::texts(list@) =~= text::texts(a) + text::texts(b));
            }
            i = i + 1;
        }
        proof {
            assert(self@.take(i as int) =~= self@);
        }
        list
    }
}

/// Why a run stopped.
#[derive(Clone, Copy, Debug, PartialEq, Eq, Structural)]
pub enum CommitReason {
    /// Nothing was left to do.
    Quiescence,
    /// The predicate held.
    Predicate,
    /// The budget was used up.
    FireBudget,
}

impl CommitReason {
    /// The name of a reason.
    pub open spec fn title(self) -> Seq<char> {
        match self {
            CommitReason::Quiescence => "Quiescence"@,
            CommitReason::Predicate => "Predicate"@,
            CommitReason::FireBudget => "FireBudget"@,
        }
    }

    /// The name of the reason.
    pub fn name(self) -> (name: &'static str)
        ensures
            name@ == self.title(),
    {
        match self {
            CommitReason::Quiescence => "Quiescence",
            CommitReason::Predicate => "Predicate",
            CommitReason::FireBudget => "FireBudget",
        }
    }
}

/// Where a run stopped.
#[derive(Clone, Copy, Debug, PartialEq, Eq, Structural)]
pub struct CommitPoint {
    pub fired: usize,
    pub reason: CommitReason,
}

/// The whole state of a dispatcher.
#[verifier::ext_equal]
pub struct Machine {
    pub values: Map<Seq<char>, Set<u32>>,
    pub ops: Map<Seq<char>, OpModel>,
    pub wires: Seq<(PortModel, (Seq<char>, nat))>,
    pub stack: Seq<TokenModel>,
    pub filled: Map<(Seq<char>, nat), Seq<char>>,
    pub log: Seq<FireModel>,
}

impl Machine {
    pub open spec fn with_stack(self, stack: Seq<TokenModel>) -> Machine {
        Machine { stack, ..self }
    }

    pub open spec fn with_filled(self, filled: Map<(Seq<char>, nat), Seq<char>>) -> Machine {
        Machine { filled, ..self }
    }

    pub open spec fn with_values(self, values: Map<Seq<char>, Set<u32>>) -> Machine {
        Machine { values, ..self }
    }

    pub open spec fn with_log(self, log: Seq<FireModel>) -> Machine {
        Machine { log, ..self }
    }
}

/// Whether the first `n` inputs of an operator are filled.
pub open spec fn filled_up(filled: Map<(Seq<char>, nat), Seq<char>>, op: Seq<char>, n: nat) -> bool {
    forall|i: nat| i < n ==> filled.dom().contains((op, i))
}

/// A value offered to one input: it fills the input where that is free, and an
/// operator with all inputs filled is put on the stack.
pub open spec fn offered(m: Machine, input: (Seq<char>, nat), cid: Seq<char>) -> (Machine, Option<Fault>) {
    if m.filled.dom().contains(input) {
        (m, None)
    } else {
        let next = m.with_filled(m.filled.insert(input, cid));
        if !m.ops.dom().contains(input.0) {
            (next, Some(Fault::MissingOp(input.0)))
        } else if filled_up(next.filled, input.0, m.ops[input.0].arity) {
            (next.with_stack(next.stack.push(TokenModel::Fire(input.0))), None)
        } else {
            (next, None)
        }
    }
}

/// A value offered to inputs one by one, up to the first fault.
pub open spec fn offered_all(m: Machine, inputs: Seq<(Seq<char>, nat)>, cid: Seq<char>) -> (Machine, Option<Fault>)
    decreases inputs.len(),
{
    if inputs.len() == 0 {
        (m, None)
    } else {
        let (next, fault) = offered_all(m, inputs.drop_last(), cid);
        if fault is Some {
            (next, fault)
        } else {
            offered(next, inputs.last(), cid)
        }
    }
}

/// A value routed to whatever it feeds.
pub open spec fn routed(m: Machine, cid: Seq<char>) -> (Machine, Option<Fault>) {
    offered_all(m, graph::consumers(m.wires, PortModel::Value(cid)), cid)
}

/// The first `n` outputs of an operator routed to what they feed.
pub open spec fn passed_on(m: Machine, op: Seq<char>, cids: Seq<Seq<char>>, n: nat) -> (Machine, Option<Fault>)
    decreases n,
{
    if n == 0 {
        (m, None)
    } else {
        let (next, fault) = passed_on(m, op, cids, (n - 1) as nat);
        if fault is Some {
            (next, fault)
        } else {
            offered_all(next, graph::consumers(next.wires, PortModel::OpOut { op, index: (n - 1) as nat }), cids[n - 1])
        }
    }
}

/// What fills the first `n` inputs of an operator, or the first that is not filled.
pub open spec fn port_values(filled: Map<(Seq<char>, nat), Seq<char>>, op: Seq<char>, n: nat) -> Result<
    Seq<Seq<char>>,
    Fault,
>
    decreases n,
{
    if n == 0 {
        Ok(Seq::empty())
    } else {
        match port_values(filled, op, (n - 1) as nat) {
            Ok(list) => if filled.dom().contains((op, (n - 1) as nat)) {
                Ok(list.push(filled[(op, (n - 1) as nat)]))
            } else {
                Err(Fault::InputNotFilled { op, port: (n - 1) as nat })
            },
            Err(e) => Err(e),
        }
    }
}

/// Inputs with the first `n` of an operator emptied.
pub open spec fn emptied(filled: Map<(Seq<char>, nat), Seq<char>>, op: Seq<char>, n: nat) -> Map<
    (Seq<char>, nat),
    Seq<char>,
> {
    filled.remove_keys(Set::new(|k: (Seq<char>, nat)| k.0 == op && k.1 < n))
}

/// Values with sets stored one by one.
pub open spec fn stored_all(m: Map<Seq<char>, Set<u32>>, sets: Seq<Set<u32>>) -> Map<Seq<char>, Set<u32>>
    decreases sets.len(),
{
    if sets.len() == 0 {
        m
    } else {
        graph::stored(stored_all(m, sets.drop_last()), sets.last())
    }
}

/// The keys of sets.
pub open spec fn set_keys(sets: Seq<Set<u32>>) -> Seq<Seq<char>> {
    sets.map_values(|s: Set<u32>| hllset::key_of(s))
}

/// Value tokens for keys.
pub open spec fn value_tokens(cids: Seq<Seq<char>>) -> Seq<TokenModel> {
    cids.map_values(|c: Seq<char>| TokenModel::Value(c))
}

/// An operator fired: its inputs are taken, its outputs stored, put on the stack and
/// passed on, and the firing is logged.
pub open spec fn fired(m: Machine, op: Seq<char>) -> (Machine, Option<Fault>) {
    if !m.ops.dom().contains(op) {
        (m, Some(Fault::MissingOp(op)))
    } else {
        let spec = m.ops[op];
        match port_values(m.filled, op, spec.arity) {
            Err(e) => (m, Some(e)),
            Ok(inputs) => {
                let taken = m.with_filled(emptied(m.filled, op, spec.arity));
                match expr::evaluated(spec.expr, inputs, m.values, m.ops) {
                    Err(e) => (taken, Some(e)),
                    Ok(sets) => {
                        let cids = set_keys(sets);
                        let held = taken.with_values(stored_all(m.values, sets)).with_stack(m.stack + value_tokens(cids));
                        let (next, fault) = passed_on(held, op, cids, cids.len());
                        if fault is Some {
                            (next, fault)
                        } else {
                            (next.with_log(next.log.push(FireModel { op, inputs, outputs: cids })), None)
                        }
                    },
                }
            },
        }
    }
}

/// How many values wait on a stack.
pub open spec fn waiting(stack: Seq<TokenModel>) -> nat
    decreases stack.len(),
{
    if stack.len() == 0 {
        0
    } else {
        waiting(stack.drop_last()) + (if stack.last() is Value { 1nat } else { 0 })
    }
}

/// How many firings a budget still allows.
pub open spec fn allowance(m: Machine, budget: nat) -> nat {
    if m.log.len() >= budget {
        0
    } else {
        (budget - m.log.len()) as nat
    }
}

/// A run from a state: tokens are taken from the stack until it is empty, the
/// budget is used up or the predicate holds before a firing, or a fault comes.
pub open spec fn run_of(m: Machine, budget: nat, stop: spec_fn(Seq<FireModel>) -> bool) -> (
    Machine,
    Result<(nat, CommitReason), Fault>,
)
    decreases allowance(m, budget), waiting(m.stack), m.stack.len(),
    via run_of_decreases
{
    if m.stack.len() == 0 {
        (m, Ok((m.log.len(), CommitReason::Quiescence)))
    } else {
        let rest = m.with_stack(m.stack.drop_last());
        match m.stack.last() {
            TokenModel::Value(cid) => {
                let (next, fault) = routed(rest, cid);
                match fault {
                    Some(e) => (next, Err(e)),
                    None => run_of(next, budget, stop),
                }
            },
            TokenModel::Fire(op) => {
                if m.log.len() >= budget {
                    (m, Ok((m.log.len(), CommitReason::FireBudget)))
                } else if stop(m.log) {
                    (m, Ok((m.log.len(), CommitReason::Predicate)))
                } else {
                    let (next, fault) = fired(rest, op);
                    match fault {
                        Some(e) => (next, Err(e)),
                        None => run_of(next, budget, stop),
                    }
                }
            },
        }
    }
}

#[via_fn]
proof fn run_of_decreases(m: Machine, budget: nat, stop: spec_fn(Seq<FireModel>) -> bool) {
    if m.stack.len() > 0 {
        let rest = m.with_stack(m.stack.drop_last());
        match m.stack.last() {
            TokenModel::Value(cid) => {
                offered_all_keeps(rest, graph::consumers(rest.wires, PortModel::Value(cid)), cid);
            },
            TokenModel::Fire(op) => {
                fired_logs(rest, op);
            },
        }
    }
}

/// Offering values changes neither the log nor how many values wait.
pub proof fn offered_all_keeps(m: Machine, inputs: Seq<(Seq<char>, nat)>, cid: Seq<char>)
    ensures
        offered_all(m, inputs, cid).0.log == m.log,
        offered_all(m, inputs, cid).0.values == m.values,
        offered_all(m, inputs, cid).0.ops == m.ops,
        offered_all(m, inputs, cid).0.wires == m.wires,
        waiting(offered_all(m, inputs, cid).0.stack) == waiting(m.stack),
    decreases inputs.len(),
{
    if inputs.len() > 0 {
        offered_all_keeps(m, inputs.drop_last(), cid);
        let (next, fault) = offered_all(m, inputs.drop_last(), cid);
        let more = next.stack.push(TokenModel::Fire(inputs.last().0));
        assert(more.drop_last() =~= next.stack);
    }
}

proof fn passed_on_keeps(m: Machine, op: Seq<char>, cids: Seq<Seq<char>>, n: nat)
    ensures
        passed_on(m, op, cids, n).0.log == m.log,
        passed_on(m, op, cids, n).0.values == m.values,
        passed_on(m, op, cids, n).0.ops == m.ops,
        passed_on(m, op, cids, n).0.wires == m.wires,
    decreases n,
{
    if n > 0 {
        passed_on_keeps(m, op, cids, (n - 1) as nat);
        let (next, fault) = passed_on(m, op, cids, (n - 1) as nat);
        offered_all_keeps(next, graph::consumers(next.wires, PortModel::OpOut { op, index: (n - 1) as nat }), cids[n - 1]);
    }
}

/// A firing without a fault is one more record; it changes neither the operators
/// nor the edges.
pub proof fn fired_logs(m: Machine, op: Seq<char>)
    ensures
        fired(m, op).1 is None ==> fired(m, op).0.log.len() == m.log.len() + 1 && fired(m, op).0.log.drop_last() == m.log
            && fired(m, op).0.log.last().op == op,
        fired(m, op).1 is Some ==> fired(m, op).0.log == m.log,
        fired(m, op).0.ops == m.ops,
        fired(m, op).0.wires == m.wires,
{
    if m.ops.dom().contains(op) && port_values(m.filled, op, m.ops[op].arity) is Ok {
        let spec = m.ops[op];
        let inputs = port_values(m.filled, op, spec.arity)->Ok_0;
        let taken = m.with_filled(emptied(m.filled, op, spec.arity));
        if expr::evaluated(spec.expr, inputs, m.values, m.ops) is Ok {
            let sets = expr::evaluated(spec.expr, inputs, m.values, m.ops)->Ok_0;
            let cids = set_keys(sets);
            let held = taken.with_values(stored_all(m.values, sets)).with_stack(m.stack + value_tokens(cids));
            passed_on_keeps(held, op, cids, cids.len());
            if fired(m, op).1 is None {
                assert(fired(m, op).0.log.drop_last() =~= m.log);
            }
        }
    }
}

/// A run never exceeds its budget (unless it started beyond it), only adds to the
/// log, and changes neither operators nor edges. It stops for want of budget only
/// with the budget used up.
pub proof fn run_law(m: Machine, budget: nat, stop: spec_fn(Seq<FireModel>) -> bool)
    ensures
        m.log.is_prefix_of(run_of(m, budget, stop).0.log),
        m.log.len() <= budget ==> run_of(m, budget, stop).0.log.len() <= budget,
        run_of(m, budget, stop).0.ops == m.ops,
        run_of(m, budget, stop).0.wires == m.wires,
        run_of(m, budget, stop).1 matches Ok((n, reason)) ==> n == run_of(m, budget, stop).0.log.len() && (reason
            == CommitReason::Quiescence ==> run_of(m, budget, stop).0.stack.len() == 0) && (reason
            == CommitReason::FireBudget ==> n >= budget) && (reason == CommitReason::Predicate ==> stop(
            run_of(m, budget, stop).0.log,
        )),
    decreases allowance(m, budget), waiting(m.stack), m.stack.len(),
{
    assert(m.log =~= m.log.subrange(0, m.log.len() as int));
    if m.stack.len() > 0 {
        let rest = m.with_stack(m.stack.drop_last());
        match m.stack.last() {
            TokenModel::Value(cid) => {
                offered_all_keeps(rest, graph::consumers(rest.wires, PortModel::Value(cid)), cid);
                let (next, fault) = routed(rest, cid);
                if fault is None {
                    run_law(next, budget, stop);
                }
            },
            TokenModel::Fire(op) => {
                fired_logs(rest, op);
                if m.log.len() < budget && !stop(m.log) {
                    let (next, fault) = fired(rest, op);
                    if fault is None {
                        run_law(next, budget, stop);
                        let out = run_of(next, budget, stop).0.log;
                        assert(next.log == out.subrange(0, next.log.len() as int));
                        assert(m.log =~= out.subrange(0, m.log.len() as int)) by {
                            assert forall|i: int| 0 <= i < m.log.len() implies m.log[i] == out[i] by {
                                assert(next.log.drop_last()[i] == next.log[i]);
                                assert(out.subrange(0, next.log.len() as int)[i] == out[i]);
                            }
                        }
                    }
                }
            },
        }
    }
}

/// The key of an input in the table of filled inputs.
pub open spec fn port_key(input: (Seq<char>, nat)) -> Seq<u8> {
    vstd::bytes::spec_u64_to_le_bytes(input.1 as u64) + text::utf8(input.0)
}

/// The filled inputs of a table.
pub open spec fn filled_in(m: Map<Seq<u8>, String>) -> Map<(Seq<char>, nat), Seq<char>> {
    Map::new(
        |k: (Seq<char>, nat)| k.1 <= u64::MAX && m.dom().contains(port_key(k)),
        |k: (Seq<char>, nat)| m[port_key(k)]@,
    )
}

proof fn port_key_injective(a: (Seq<char>, nat), b: (Seq<char>, nat))
    requires
        a.1 <= u64::MAX,
        b.1 <= u64::MAX,
        port_key(a) == port_key(b),
    ensures
        a == b,
{
    vstd::bytes::lemma_auto_spec_u64_to_from_le_bytes();
    let x = port_key(a);
    assert(x.subrange(0, 8) =~= vstd::bytes::spec_u64_to_le_bytes(a.1 as u64));
    assert(x.subrange(0, 8) =~= vstd::bytes::spec_u64_to_le_bytes(b.1 as u64));
    assert(x.subrange(8, x.len() as int) =~= text::utf8(a.0));
    assert(x.subrange(8, x.len() as int) =~= text::utf8(b.0));
    text::utf8_injective(a.0, b.0);
}

proof fn filled_insert(m: Map<Seq<u8>, String>, k: (Seq<char>, nat), v: String)
    requires
        k.1 <= u64::MAX,
    ensures
        filled_in(m.insert(port_key(k), v)) == filled_in(m).insert(k, v@),
{
    let x = filled_in(m.insert(port_key(k), v));
    let y = filled_in(m).insert(k, v@);
    assert forall|q: (Seq<char>, nat)| #![trigger x.dom().contains(q)] #![trigger y.dom().contains(q)] x.dom().contains(q)
        == y.dom().contains(q) && (x.dom().contains(q) ==> x[q] == y[q]) by {
        if q.1 <= u64::MAX && port_key(q) == port_key(k) {
            port_key_injective(q, k);
        }
    }
    assert(x.dom() =~= y.dom());
    assert(x =~= y);
}

proof fn filled_remove(m: Map<Seq<u8>, String>, k: (Seq<char>, nat))
    requires
        k.1 <= u64::MAX,
    ensures
        filled_in(m.remove(port_key(k))) == filled_in(m).remove(k),
{
    let x = filled_in(m.remove(port_key(k)));
    let y = filled_in(m).remove(k);
    assert forall|q: (Seq<char>, nat)| #![trigger x.dom().contains(q)] #![trigger y.dom().contains(q)] x.dom().contains(q)
        == y.dom().contains(q) && (x.dom().contains(q) ==> x[q] == y[q]) by {
        if q.1 <= u64::MAX && port_key(q) == port_key(k) {
            port_key_injective(q, k);
        }
    }
    assert(x.dom() =~= y.dom());
    assert(x =~= y);
}

/// The views of a list of tokens.
pub open spec fn token_models(v: Seq<Token>) -> Seq<TokenModel> {
    v.map_values(|t: Token| t@)
}

proof fn token_models_push(v: Seq<Token>, t: Token)
    ensures
        token_models(v.push(t)) == token_models(v).push(t@),
{
    assert(token_models(v.push(t)) =~= token_models(v).push(t@));
}

/// A dispatcher over a graph.
pub struct Dispatcher<'g> {
    pub graph: &'g mut OpGraph,
    pub stack: Vec<Token>,
    pub filled: SortedMap<Vec<u8>, String>,
    pub log: FireLog,
}

/// What a predicate on logs decides, where its answer rests on the log alone.
pub open spec fn describes<P: FnMut(&FireLog) -> bool>(pred: P, stop: spec_fn(Seq<FireModel>) -> bool) -> bool {
    forall|l: &FireLog, b: bool| #[trigger] call_ensures(pred, (l,), b) ==> b == stop(l@)
}

/// A predicate on logs may give an answer on a log.
pub open spec fn answers<P: FnMut(&FireLog) -> bool>(pred: P, log: Seq<FireModel>, b: bool) -> bool {
    exists|l: &FireLog| l@ == log && #[trigger] call_ensures(pred, (l,), b)
}

/// A run was stopped by its predicate.
pub open spec fn stopped(r: Result<CommitPoint, EvalError>) -> bool {
    r matches Ok(p) && p.reason == CommitReason::Predicate
}

/// The predicate that holds on one log, or on none.
pub open spec fn holds_on(log: Seq<FireModel>, ever: bool) -> spec_fn(Seq<FireModel>) -> bool {
    |l: Seq<FireModel>| ever && l == log
}

/// A result of a run says what the run came to.
pub open spec fn ran(r: Result<CommitPoint, EvalError>, m: Result<(nat, CommitReason), Fault>) -> bool {
    match r {
        Ok(p) => m == Ok::<(nat, CommitReason), Fault>((p.fired as nat, p.reason)),
        Err(e) => m == Err::<(nat, CommitReason), Fault>(e@),
    }
}

/// The key of an input.
fn port_bytes(op: &str, index: usize) -> (key: Vec<u8>)
    ensures
        key@ == port_key((op@, index as nat)),
{
    let mut key = vstd::bytes::u64_to_le_bytes(index as u64);
    let mut rest = vstd::slice::slice_to_vec(op.as_bytes());
    key.append(&mut rest);
    key
}

impl<'g> Dispatcher<'g> {
    pub open spec fn wf(&self) -> bool {
        self.graph.wf() && self.filled.wf()
    }

    /// The state of the dispatcher.
    pub open spec fn machine(&self) -> Machine {
        Machine {
            values: self.graph.values@,
            ops: self.graph.ops@,
            wires: self.graph.wires(),
            stack: token_models(self.stack@),
            filled: filled_in(self.filled@),
            log: self.log@,
        }
    }

    /// A dispatcher with nothing to do.
    pub fn new(graph: &'g mut OpGraph) -> (d: Dispatcher<'g>)
        requires
            old(graph).wf(),
        ensures
            d.wf(),
            *d.graph == *old(graph),
            *final(d.graph) == *final(graph),
            d.machine().stack == Seq::<TokenModel>::empty(),
            d.machine().filled == Map::<(Seq<char>, nat), Seq<char>>::empty(),
            d.machine().log == Seq::<FireModel>::empty(),
    {
        let d = Dispatcher { graph, stack: Vec::new(), filled: SortedMap::new(), log: FireLog::new() };
        proof {
            assert(token_models(d.stack@) =~= Seq::<TokenModel>::empty());
            assert(filled_in(d.filled@) =~= Map::<(Seq<char>, nat), Seq<char>>::empty());
        }
        d
    }

    /// Puts a value on the stack.
    pub fn seed_value(&mut self, cid: &str)
        requires
            old(self).wf(),
        ensures
            final(self).wf(),
            *final(final(self).graph) == *final(old(self).graph),
            final(self).machine() == old(self).machine().with_stack(
                old(self).machine().stack.push(TokenModel::Value(cid@)),
            ),
    {
        let token = Token::Value(text::copy_str(cid));
        proof {
            token_models_push(self.stack@, token);
        }
        self.stack.push(token);
    }

    /// Puts values on the stack, one after the other.
    pub fn seed_values(&mut self, cids: &Vec<String>)
        requires
            old(self).wf(),
        ensures
            final(self).wf(),
            *final(final(self).graph) == *final(old(self).graph),
            final(self).machine() == old(self).machine().with_stack(
                old(self).machine().stack + value_tokens(text::texts(cids@)),
            ),
    {
        let ghost start = self.machine();
        let ghost all = text::texts(cids@);
        let mut i: usize = 0;
        proof {
            assert(start.stack + value_tokens(all.take(0)) =~= start.stack);
        }
        while i < cids.len()
            invariant
                i <= cids@.len(),
                self.wf(),
                all == text::texts(cids@),
                *final(self.graph) == *final(old(self).graph),
                self.machine() == start.with_stack(start.stack + value_tokens(all.take(i as int))),
            decreases cids.len() - i,
        {
            self.seed_value(cids[i].as_str());
            proof {
                assert(start.stack + value_tokens(all.take(i as int + 1)) =~= (start.stack + value_tokens(
                    all.take(i as int),
                )).push(TokenModel::Value(all[i as int])));
            }
            i = i + 1;
        }
        proof {
            assert(all.take(i as int) =~= all);
        }
    }

    /// The firings so far.
    pub fn log(&self) -> (l: &FireLog)
        ensures
            l@ == self.machine().log,
    {
        &self.log
    }

    /// Whether all inputs of an operator are filled.
    fn is_ready(&self, op: &str) -> (r: Result<bool, EvalError>)
        requires
            self.wf(),
        ensures
            match r {
                Ok(yes) => self.machine().ops.dom().contains(op@) && yes == filled_up(
                    self.machine().filled,
                    op@,
                    self.machine().ops[op@].arity,
                ),
                Err(e) => !self.machine().ops.dom().contains(op@) && e@ == Fault::MissingOp(op@),
            },
    {
        let arity = match self.graph.ops.get(op) {
            Some(spec) => spec.arity,
            None => {
                return Err(EvalError::MissingOp(text::copy_str(op)));
            },
        };
        let mut i: usize = 0;
        while i < arity
            invariant
                i <= arity,
                self.wf(),
                self.machine().ops.dom().contains(op@),
                arity == self.machine().ops[op@].arity,
                forall|j: nat| j < i ==> self.machine().filled.dom().contains((op@, j)),
            decreases arity - i,
        {
            let key = port_bytes(op, i);
            if !self.filled.contains(key.as_slice()) {
                proof {
                    assert(!self.machine().filled.dom().contains((op@, i as nat)));
                }
                return Ok(false);
            }
            i = i + 1;
        }
        Ok(true)
    }

    /// Offers a value to one input.
    fn offer(&mut self, op: &str, port: usize, cid: &str) -> (r: Result<(), EvalError>)
        requires
            old(self).wf(),
        ensures
            final(self).wf(),
            *final(final(self).graph) == *final(old(self).graph),
            ({
                let (next, fault) = offered(old(self).machine(), (op@, port as nat), cid@);
                final(self).machine() == next && fault == (match r {
                    Ok(_) => None,
                    Err(e) => Some(e@),
                })
            }),
    {
        let ghost start = self.machine();
        let key = port_bytes(op, port);
        if self.filled.contains(key.as_slice()) {
            return Ok(());
        }
        let value = text::copy_str(cid);
        proof {
            filled_insert(self.filled@, (op@, port as nat), value);
        }
        self.filled.insert(key, value);
        proof {
            assert(self.machine() =~= start.with_filled(start.filled.insert((op@, port as nat), cid@)));
        }
        match self.is_ready(op) {
            Ok(yes) => {
                if yes {
                    let token = Token::Fire(text::copy_str(op));
                    proof {
                        token_models_push(self.stack@, token);
                    }
                    self.stack.push(token);
                }
                Ok(())
            },
            Err(e) => Err(e),
        }
    }

    /// Offers a value to inputs one by one.
    fn offer_all(&mut self, inputs: &Vec<(String, usize)>, cid: &str) -> (r: Result<(), EvalError>)
        requires
            old(self).wf(),
        ensures
            final(self).wf(),
            *final(final(self).graph) == *final(old(self).graph),
            ({
                let (next, fault) = offered_all(old(self).machine(), graph::input_views(inputs@), cid@);
                final(self).machine() == next && fault == (match r {
                    Ok(_) => None,
                    Err(e) => Some(e@),
                })
            }),
    {
        let ghost start = self.machine();
        let ghost all = graph::input_views(inputs@);
        let mut i: usize = 0;
        proof {
            assert(all.take(0) =~= Seq::<(Seq<char>, nat)>::empty());
        }
        while i < inputs.len()
            invariant
                i <= inputs@.len(),
                self.wf(),
                all == graph::input_views(inputs@),
                start == old(self).machine(),
                *final(self.graph) == *final(old(self).graph),
                offered_all(start, all.take(i as int), cid@) == (self.machine(), None::<Fault>),
            decreases inputs.len() - i,
        {
            proof {
                assert(all.take(i as int + 1).drop_last() =~= all.take(i as int));
                assert(all.take(i as int + 1).last() == (inputs@[i as int].0@, inputs@[i as int].1 as nat));
                offered_prefix(start, all, cid@, i as int + 1);
            }
            match self.offer(inputs[i].0.as_str(), inputs[i].1, cid) {
                Ok(_) => {},
                Err(e) => {
                    return Err(e);
                },
            }
            i = i + 1;
        }
        proof {
            assert(all.take(i as int) =~= all);
        }
        Ok(())
    }

    /// Routes a value to whatever it feeds.
    fn route_value(&mut self, cid: &str) -> (r: Result<(), EvalError>)
        requires
            old(self).wf(),
        ensures
            final(self).wf(),
            *final(final(self).graph) == *final(old(self).graph),
            ({
                let (next, fault) = routed(old(self).machine(), cid@);
                final(self).machine() == next && fault == (match r {
                    Ok(_) => None,
                    Err(e) => Some(e@),
                })
            }),
    {
        let from = Port::Value(text::copy_str(cid));
        let inputs = self.graph.consumers_of(&from);
        self.offer_all(&inputs, cid)
    }

    /// Takes what fills the inputs of an operator, emptying them.
    fn take_inputs(&mut self, op: &str, arity: usize) -> (r: Result<Vec<String>, EvalError>)
        requires
            old(self).wf(),
        ensures
            final(self).wf(),
            *final(final(self).graph) == *final(old(self).graph),
            match r {
                Ok(list) => port_values(old(self).machine().filled, op@, arity as nat) == Ok::<Seq<Seq<char>>, Fault>(
                    text::texts(list@),
                ) && final(self).machine() == old(self).machine().with_filled(
                    emptied(old(self).machine().filled, op@, arity as nat),
                ),
                Err(e) => port_values(old(self).machine().filled, op@, arity as nat) == Err::<Seq<Seq<char>>, Fault>(e@)
                    && final(self).machine() == old(self).machine(),
            },
    {
        let ghost start = self.machine();
        let mut list: Vec<String> = Vec::new();
        let mut i: usize = 0;
        proof {
            assert(text::texts(list@) =~= Seq::<Seq<char>>::empty());
        }
        while i < arity
            invariant
                i <= arity,
                self.wf(),
                start == self.machine(),
                *self == *old(self),
                port_values(start.filled, op@, i as nat) == Ok::<Seq<Seq<char>>, Fault>(text::texts(list@)),
            decreases arity - i,
        {
            let key = port_bytes(op, i);
            proof {
                port_values_prefix(start.filled, op@, i as nat + 1, arity as nat);
            }
            match self.filled.get(key.as_slice()) {
                Some(v) => {
                    let s = v.clone();
                    proof {
                        assert(start.filled.dom().contains((op@, i as nat)));
                        assert(start.filled[(op@, i as nat)] == s@);
                        text::texts_push(list@, s);
                    }
                    list.push(s);
                },
                None => {
                    proof {
                        assert(!start.filled.dom().contains((op@, i as nat)));
                    }
                    return Err(EvalError::InputNotFilled { op: text::copy_str(op), port: i });
                },
            }
            i = i + 1;
        }
        let mut k: usize = 0;
        proof {
            assert(emptied(start.filled, op@, 0) =~= start.filled);
        }
        while k < arity
            invariant
                k <= arity,
                self.wf(),
                start == old(self).machine(),
                *final(self.graph) == *final(old(self).graph),
                self.machine() == start.with_filled(emptied(start.filled, op@, k as nat)),
            decreases arity - k,
        {
            let key = port_bytes(op, k);
            proof {
                filled_remove(self.filled@, (op@, k as nat));
            }
            self.filled.remove(key.as_slice());
            proof {
                assert(emptied(start.filled, op@, k as nat + 1) =~= emptied(start.filled, op@, k as nat).remove(
                    (op@, k as nat),
                ));
            }
            k = k + 1;
        }
        Ok(list)
    }

    /// Stores the outputs of a firing and puts them on the stack; their keys.
    fn hold_outputs(&mut self, sets: &Vec<HLLSet>) -> (cids: Vec<String>)
        requires
            old(self).wf(),
        ensures
            final(self).wf(),
            *final(final(self).graph) == *final(old(self).graph),
            text::texts(cids@) == set_keys(expr::stack_views(sets@)),
            final(self).machine() == old(self).machine().with_values(
                stored_all(old(self).machine().values, expr::stack_views(sets@)),
            ).with_stack(old(self).machine().stack + value_tokens(set_keys(expr::stack_views(sets@)))),
    {
        let ghost start = self.machine();
        let ghost all = expr::stack_views(sets@);
        let mut cids: Vec<String> = Vec::new();
        let mut i: usize = 0;
        proof {
            assert(all.take(0) =~= Seq::<Set<u32>>::empty());
            assert(text::texts(cids@) =~= set_keys(all.take(0)));
        }
        while i < sets.len()
            invariant
                i <= sets@.len(),
                self.wf(),
                all == expr::stack_views(sets@),
                *final(self.graph) == *final(old(self).graph),
                text::texts(cids@) == set_keys(all.take(i as int)),
                self.machine() == start.with_values(stored_all(start.values, all.take(i as int))),
            decreases sets.len() - i,
        {
            let cid = self.graph.values.insert(sets[i]);
            proof {
                assert(all.take(i as int + 1).drop_last() =~= all.take(i as int));
                assert(all.take(i as int + 1).last() == sets@[i as int]@);
                text::texts_push(cids@, cid);
                assert(set_keys(all.take(i as int + 1)) =~= set_keys(all.take(i as int)).push(hllset::key_of(all[i as int])));
            }
            cids.push(cid);
            i = i + 1;
        }
        proof {
            assert(all.take(i as int) =~= all);
        }
        self.seed_values(&cids);
        cids
    }

    /// Passes the outputs of a firing on to what they feed.
    fn pass_on(&mut self, op: &str, cids: &Vec<String>) -> (r: Result<(), EvalError>)
        requires
            old(self).wf(),
        ensures
            final(self).wf(),
            *final(final(self).graph) == *final(old(self).graph),
            ({
                let (next, fault) = passed_on(old(self).machine(), op@, text::texts(cids@), cids@.len());
                final(self).machine() == next && fault == (match r {
                    Ok(_) => None,
                    Err(e) => Some(e@),
                })
            }),
    {
        let ghost start = self.machine();
        let ghost all = text::texts(cids@);
        let mut i: usize = 0;
        while i < cids.len()
            invariant
                i <= cids@.len(),
                self.wf(),
                all == text::texts(cids@),
                start == old(self).machine(),
                *final(self.graph) == *final(old(self).graph),
                passed_on(start, op@, all, i as nat) == (self.machine(), None::<Fault>),
            decreases cids.len() - i,
        {
            let from = Port::OpOut { op: text::copy_str(op), index: i };
            let inputs = self.graph.consumers_of(&from);
            proof {
                assert(all[i as int] == cids@[i as int]@);
                passed_prefix(start, op@, all, i as nat + 1, cids@.len());
            }
            match self.offer_all(&inputs, cids[i].as_str()) {
                Ok(_) => {},
                Err(e) => {
                    return Err(e);
                },
            }
            i = i + 1;
        }
        Ok(())
    }

    /// Fires an operator.
    fn fire(&mut self, op: &str) -> (r: Result<(), EvalError>)
        requires
            old(self).wf(),
        ensures
            final(self).wf(),
            *final(final(self).graph) == *final(old(self).graph),
            ({
                let (next, fault) = fired(old(self).machine(), op@);
                final(self).machine() == next && fault == (match r {
                    Ok(_) => None,
                    Err(e) => Some(e@),
                })
            }),
    {
        let ghost start = self.machine();
        let (arity, expr) = match self.graph.ops.get(op) {
            Some(spec) => (spec.arity, spec.expr.copy()),
            None => {
                return Err(EvalError::MissingOp(text::copy_str(op)));
            },
        };
        let inputs = match self.take_inputs(op, arity) {
            Ok(list) => list,
            Err(e) => {
                return Err(e);
            },
        };
        let sets = match expr.run(&inputs, &self.graph.values, &self.graph.ops) {
            Ok(v) => v,
            Err(e) => {
                return Err(e);
            },
        };
        let cids = self.hold_outputs(&sets);
        proof {
            assert(text::texts(cids@).len() == cids@.len());
        }
        match self.pass_on(op, &cids) {
            Ok(_) => {},
            Err(e) => {
                return Err(e);
            },
        }
        let ghost before = self.log@;
        let record = FireRecord { op: text::copy_str(op), inputs, outputs: cids };
        self.log.records.push(record);
        proof {
            assert(self.log@ =~= before.push(record@));
        }
        Ok(())
    }

    /// Runs until nothing is left to do, the budget is used up, or the predicate
    /// holds before a firing. The predicate may answer differently each time it is
    /// asked: it is asked once before each firing, and the run is that of its answers.
    pub fn run_until<P: FnMut(&FireLog) -> bool>(&mut self, max_fires: usize, pred: P) -> (r: Result<CommitPoint, EvalError>)
        requires
            old(self).wf(),
            forall|l: &FireLog| #[trigger] call_requires(pred, (l,)),
        ensures
            final(self).wf(),
            *final(final(self).graph) == *final(old(self).graph),
            forall|stop: spec_fn(Seq<FireModel>) -> bool|
                #[trigger] describes(pred, stop) ==> final(self).machine() == run_of(
                    old(self).machine(),
                    max_fires as nat,
                    stop,
                ).0 && ran(r, run_of(old(self).machine(), max_fires as nat, stop).1),
            ({
                let stop = holds_on(final(self).machine().log, stopped(r));
                final(self).machine() == run_of(old(self).machine(), max_fires as nat, stop).0 && ran(
                    r,
                    run_of(old(self).machine(), max_fires as nat, stop).1,
                )
            }),
            old(self).machine().log.is_prefix_of(final(self).machine().log),
            forall|n: int|
                old(self).machine().log.len() <= n < final(self).machine().log.len() ==> answers(
                    pred,
                    #[trigger] final(self).machine().log.take(n),
                    false,
                ),
            stopped(r) ==> answers(pred, final(self).machine().log, true),
    {
        let ghost start = self.machine();
        let mut asked = pred;
        while self.stack.len() > 0
            invariant
                self.wf(),
                start == old(self).machine(),
                *final(self.graph) == *final(old(self).graph),
                asked == pred,
                forall|l: &FireLog| #[trigger] call_requires(pred, (l,)),
                start.log.is_prefix_of(self.machine().log),
                forall|n: int|
                    start.log.len() <= n < self.machine().log.len() ==> answers(
                        pred,
                        #[trigger] self.machine().log.take(n),
                        false,
                    ),
                forall|log: Seq<FireModel>, ever: bool|
                    (!ever || log.len() >= self.machine().log.len()) ==> (#[trigger] run_of(
                        start,
                        max_fires as nat,
                        holds_on(log, ever),
                    )) == run_of(self.machine(), max_fires as nat, holds_on(log, ever)),
                forall|stop: spec_fn(Seq<FireModel>) -> bool|
                    #[trigger] describes(pred, stop) ==> run_of(start, max_fires as nat, stop) == run_of(
                        self.machine(),
                        max_fires as nat,
                        stop,
                    ),
            decreases allowance(self.machine(), max_fires as nat), waiting(self.machine().stack), self.stack@.len(),
        {
            let ghost now = self.machine();
            let n = self.stack.len() - 1;
            let is_value: bool = match &self.stack[n] {
                Token::Value(_) => true,
                Token::Fire(_) => false,
            };
            let cid = match &self.stack[n] {
                Token::Value(c) => c.clone(),
                Token::Fire(c) => c.clone(),
            };
            if is_value {
                self.stack.pop();
                proof {
                    assert(token_models(self.stack@) =~= now.stack.drop_last());
                    assert(self.machine() =~= now.with_stack(now.stack.drop_last()));
                    let rest = self.machine();
                    offered_all_keeps(rest, graph::consumers(rest.wires, PortModel::Value(cid@)), cid@);
                }
                match self.route_value(cid.as_str()) {
                    Ok(_) => {},
                    Err(e) => {
                        return Err(e);
                    },
                }
            } else {
                if self.log.len() >= max_fires {
                    return Ok(CommitPoint { fired: self.log.len(), reason: CommitReason::FireBudget });
                }
                let holds: bool = asked(&self.log);
                proof {
                    assert(call_ensures(pred, (&self.log,), holds));
                    assert(answers(pred, now.log, holds));
                }
                if holds {
                    return Ok(CommitPoint { fired: self.log.len(), reason: CommitReason::Predicate });
                }
                self.stack.pop();
                proof {
                    assert(token_models(self.stack@) =~= now.stack.drop_last());
                    assert(self.machine() =~= now.with_stack(now.stack.drop_last()));
                    fired_logs(self.machine(), cid@);
                }
                match self.fire(cid.as_str()) {
                    Ok(_) => {},
                    Err(e) => {
                        return Err(e);
                    },
                }
                proof {
                    let log = self.machine().log;
                    assert forall|n: int| start.log.len() <= n < log.len() implies answers(
                        pred,
                        #[trigger] log.take(n),
                        false,
                    ) by {
                        if n < now.log.len() {
                            assert(log.take(n) =~= now.log.take(n));
                        } else {
                            assert(log.take(n) =~= now.log);
                        }
                    }
                }
            }
        }
        Ok(CommitPoint { fired: self.log.len(), reason: CommitReason::Quiescence })
    }

    /// Runs within a budget of firings.
    pub fn run_limited(&mut self, max_fires: usize) -> (r: Result<&FireLog, EvalError>)
        requires
            old(self).wf(),
        ensures
            final(self).wf(),
            *final(final(self).graph) == *final(old(self).graph),
            final(self).machine() == run_of(old(self).machine(), max_fires as nat, never()).0,
            match r {
                Ok(l) => run_of(old(self).machine(), max_fires as nat, never()).1 is Ok && l@ == final(self).machine().log,
                Err(e) => run_of(old(self).machine(), max_fires as nat, never()).1 == Err::<(nat, CommitReason), Fault>(
                    e@,
                ),
            },
    {
        let pred = |l: &FireLog| -> (b: bool)
            ensures
                b == false,
            { false };
        proof {
            assert(describes(pred, never()));
        }
        match self.run_until(max_fires, pred) {
            Ok(_) => Ok(&self.log),
            Err(e) => Err(e),
        }
    }

    /// Runs until nothing is left to do.
    pub fn run(&mut self) -> (r: Result<&FireLog, EvalError>)
        requires
            old(self).wf(),
        ensures
            final(self).wf(),
            *final(final(self).graph) == *final(old(self).graph),
            final(self).machine() == run_of(old(self).machine(), usize::MAX as nat, never()).0,
            match r {
                Ok(l) => run_of(old(self).machine(), usize::MAX as nat, never()).1 is Ok && l@ == final(self).machine().log,
                Err(e) => run_of(old(self).machine(), usize::MAX as nat, never()).1 == Err::<(nat, CommitReason), Fault>(
                    e@,
                ),
            },
    {
        self.run_limited(usize::MAX)
    }
}

/// The predicate that never holds.
pub open spec fn never() -> spec_fn(Seq<FireModel>) -> bool {
    |l: Seq<FireModel>| false
}

/// A fault among the first inputs is the fault of all.
proof fn offered_prefix(m: Machine, inputs: Seq<(Seq<char>, nat)>, cid: Seq<char>, n: int)
    requires
        0 <= n <= inputs.len(),
    ensures
        offered_all(m, inputs.take(n), cid).1 is Some ==> offered_all(m, inputs, cid) == offered_all(
            m,
            inputs.take(n),
            cid,
        ),
    decreases inputs.len() - n,
{
    if n < inputs.len() {
        offered_prefix(m, inputs, cid, n + 1);
        assert(inputs.take(n + 1).drop_last() =~= inputs.take(n));
    } else {
        assert(inputs.take(n) =~= inputs);
    }
}

proof fn passed_prefix(m: Machine, op: Seq<char>, cids: Seq<Seq<char>>, k: nat, n: nat)
    requires
        k <= n,
    ensures
        passed_on(m, op, cids, k).1 is Some ==> passed_on(m, op, cids, n) == passed_on(m, op, cids, k),
    decreases n - k,
{
    if k < n {
        passed_prefix(m, op, cids, k + 1, n);
    }
}

proof fn port_values_prefix(filled: Map<(Seq<char>, nat), Seq<char>>, op: Seq<char>, k: nat, n: nat)
    requires
        k <= n,
    ensures
        port_values(filled, op, k) is Err ==> port_values(filled, op, n) == port_values(filled, op, k),
    decreases n - k,
{
    if k < n {
        port_values_prefix(filled, op, k + 1, n);
    }
}

/// The ends of an edge from a value to an input.
pub fn value_edge(value: &str, op: &str, index: usize) -> (e: (Port, Target))
    ensures
        e.0@ == PortModel::Value(value@),
        e.1@ == (op@, index as nat),
{
    (Port::Value(text::copy_str(value)), Target::OpIn { op: text::copy_str(op), index })
}

/// The ends of an edge from an output to an input.
pub fn op_edge(op: &str, out: usize, consumer: &str, index: usize) -> (e: (Port, Target))
    ensures
        e.0@ == (PortModel::OpOut { op: op@, index: out as nat }),
        e.1@ == (consumer@, index as nat),
{
    (Port::OpOut { op: text::copy_str(op), index: out }, Target::OpIn { op: text::copy_str(consumer), index })
}

/// The inputs of a firing: where the first `n` in-ports of an operator are filled,
/// there are `n` of them and the input at each place is the value in that port.
/// Otherwise the lowest port that is not filled is the fault.
pub proof fn port_values_law(filled: Map<(Seq<char>, nat), Seq<char>>, op: Seq<char>, n: nat)
    ensures
        port_values(filled, op, n) matches Ok(l) ==> {
            &&& l.len() == n
            &&& forall|i: int| 0 <= i < n ==> #[trigger] l[i] == filled[(op, i as nat)]
            &&& forall|i: nat| i < n ==> #[trigger] filled.dom().contains((op, i))
        },
        port_values(filled, op, n) matches Err(e) ==> exists|i: nat|
            i < n && !#[trigger] filled.dom().contains((op, i)) && e == (Fault::InputNotFilled { op, port: i }) && forall|j: nat|
                j < i ==> #[trigger] filled.dom().contains((op, j)),
    decreases n,
{
    if n > 0 {
        port_values_law(filled, op, (n - 1) as nat);
        match port_values(filled, op, (n - 1) as nat) {
            Ok(l) => {
                if !filled.dom().contains((op, (n - 1) as nat)) {
                    let k = (n - 1) as nat;
                    assert(k < n && !filled.dom().contains((op, k)));
                } else {
                    let longer = l.push(filled[(op, (n - 1) as nat)]);
                    assert(port_values(filled, op, n) == Ok::<Seq<Seq<char>>, Fault>(longer));
                    assert forall|i: int| 0 <= i < n implies #[trigger] longer[i] == filled[(op, i as nat)] by {
                        if i < n - 1 {
                            assert(l[i] == filled[(op, i as nat)]);
                        }
                    }
                }
            },
            Err(e) => {},
        }
    }
}

/// What storing sets one by one leaves: each set's key is taken, what stood there
/// before still stands, and nothing else was added.
pub proof fn stored_all_law(m: Map<Seq<char>, Set<u32>>, sets: Seq<Set<u32>>)
    ensures
        m.submap_of(stored_all(m, sets)),
        forall|i: int| 0 <= i < sets.len() ==> stored_all(m, sets).dom().contains(hllset::key_of(#[trigger] sets[i])),
        forall|k: Seq<char>| #[trigger]
            stored_all(m, sets).dom().contains(k) && !m.dom().contains(k) ==> exists|i: int|
                0 <= i < sets.len() && k == hllset::key_of(#[trigger] sets[i]) && stored_all(m, sets)[k] == sets[i],
    decreases sets.len(),
{
    if sets.len() > 0 {
        let front = sets.drop_last();
        stored_all_law(m, front);
        let before = stored_all(m, front);
        let after = stored_all(m, sets);
        let s = sets.last();
        assert forall|i: int| 0 <= i < sets.len() implies after.dom().contains(hllset::key_of(#[trigger] sets[i])) by {
            if i < front.len() {
                assert(front[i] == sets[i]);
            }
        }
        assert forall|k: Seq<char>| #[trigger] after.dom().contains(k) && !m.dom().contains(k) implies exists|i: int|
            0 <= i < sets.len() && k == hllset::key_of(#[trigger] sets[i]) && after[k] == sets[i] by {
            if before.dom().contains(k) {
                let i = choose|i: int| 0 <= i < front.len() && k == hllset::key_of(#[trigger] front[i]) && before[k] == front[i];
                assert(sets[i] == front[i]);
            } else {
                assert(sets[sets.len() - 1] == s);
            }
        }
    }
}

/// A value offered to inputs without a fault fills those of them that were free, and
/// no other; the rest of the machine stays, but for operators that wait to fire on top
/// of the stack: each took one of the inputs, and has all its inputs filled.
#[verifier::spinoff_prover]
#[verifier::rlimit(40)]
pub proof fn offered_all_law(m: Machine, inputs: Seq<(Seq<char>, nat)>, cid: Seq<char>)
    requires
        offered_all(m, inputs, cid).1 is None,
    ensures
        ({
            let after = offered_all(m, inputs, cid).0;
            &&& forall|p: (Seq<char>, nat)| #[trigger]
                after.filled.dom().contains(p) <==> m.filled.dom().contains(p) || inputs.contains(p)
            &&& forall|p: (Seq<char>, nat)| #[trigger]
                after.filled.dom().contains(p) ==> after.filled[p] == (if m.filled.dom().contains(p) {
                    m.filled[p]
                } else {
                    cid
                })
            &&& m.stack.is_prefix_of(after.stack)
            &&& forall|i: int|
                m.stack.len() <= i < after.stack.len() ==> (#[trigger] after.stack[i] matches TokenModel::Fire(op)
                    && m.ops.dom().contains(op) && filled_up(after.filled, op, m.ops[op].arity) && exists|p: nat|
                    #[trigger] inputs.contains((op, p)) && !m.filled.dom().contains((op, p)))
            &&& forall|op: Seq<char>, p: nat| #[trigger]
                inputs.contains((op, p)) && !m.filled.dom().contains((op, p)) && filled_up(
                    after.filled,
                    op,
                    m.ops[op].arity,
                ) && p < m.ops[op].arity ==> after.stack.skip(m.stack.len() as int).contains(TokenModel::Fire(op))
            &&& after.log == m.log && after.values == m.values && after.ops == m.ops && after.wires == m.wires
        }),
    decreases inputs.len(),
{
    offered_all_keeps(m, inputs, cid);
    let after = offered_all(m, inputs, cid).0;
    if inputs.len() == 0 {
        assert(m.stack =~= m.stack.subrange(0, m.stack.len() as int));
    } else {
        let front = inputs.drop_last();
        let last = inputs.last();
        let mid = offered_all(m, front, cid).0;
        offered_all_law(m, front, cid);
        offered_all_keeps(m, front, cid);
        assert(inputs =~= front.push(last));
        assert forall|p: (Seq<char>, nat)| inputs.contains(p) == (front.contains(p) || p == last) by {
            crate::search::pushed_members(front, last, p);
        }
        assert(m.stack == mid.stack.subrange(0, m.stack.len() as int));
        assert(mid.stack =~= after.stack.subrange(0, mid.stack.len() as int));
        assert(m.stack =~= after.stack.subrange(0, m.stack.len() as int)) by {
            assert forall|i: int| 0 <= i < m.stack.len() implies m.stack[i] == after.stack[i] by {
                assert(mid.stack.subrange(0, m.stack.len() as int)[i] == mid.stack[i]);
                assert(after.stack.subrange(0, mid.stack.len() as int)[i] == after.stack[i]);
            }
        }
        assert forall|i: int| m.stack.len() <= i < after.stack.len() implies (#[trigger] after.stack[i] matches TokenModel::Fire(op)
            && m.ops.dom().contains(op) && filled_up(after.filled, op, m.ops[op].arity) && exists|p: nat|
            #[trigger] inputs.contains((op, p)) && !m.filled.dom().contains((op, p))) by {
            if i < mid.stack.len() {
                assert(after.stack.subrange(0, mid.stack.len() as int)[i] == after.stack[i]);
                assert(mid.stack[i] is Fire);
                let op = mid.stack[i]->Fire_0;
                let p = choose|p: nat| #[trigger] front.contains((op, p)) && !m.filled.dom().contains((op, p));
                assert(inputs.contains((op, p)));
                assert(filled_up(mid.filled, op, m.ops[op].arity));
                assert(filled_up(after.filled, op, m.ops[op].arity)) by {
                    assert forall|k: nat| k < m.ops[op].arity implies after.filled.dom().contains((op, k)) by {
                        assert(mid.filled.dom().contains((op, k)));
                    }
                }
            } else {
                assert(after.stack == mid.stack.push(TokenModel::Fire(last.0)));
                assert(i == mid.stack.len());
                assert(after.stack[i] == TokenModel::Fire(last.0));
                assert((last.0, last.1) == last);
                assert(inputs.contains((last.0, last.1)));
                assert(!mid.filled.dom().contains(last));
                assert(!m.filled.dom().contains((last.0, last.1)));
                assert(m.ops.dom().contains(last.0));
                assert(filled_up(after.filled, last.0, m.ops[last.0].arity));
            }
        }
        assert forall|op: Seq<char>, p: nat| #[trigger] inputs.contains((op, p)) && !m.filled.dom().contains((op, p)) && filled_up(
            after.filled,
            op,
            m.ops[op].arity,
        ) && p < m.ops[op].arity implies after.stack.skip(m.stack.len() as int).contains(TokenModel::Fire(op)) by {
            let top = after.stack.skip(m.stack.len() as int);
            if last.0 == op && !mid.filled.dom().contains(last) {
                assert(after.stack == mid.stack.push(TokenModel::Fire(op)));
                assert(top[top.len() - 1] == TokenModel::Fire(op));
            } else {
                assert(front.contains((op, p)));
                assert(filled_up(mid.filled, op, m.ops[op].arity)) by {
                    assert forall|k: nat| k < m.ops[op].arity implies mid.filled.dom().contains((op, k)) by {
                        assert(after.filled.dom().contains((op, k)));
                    }
                }
                let old_top = mid.stack.skip(m.stack.len() as int);
                assert(old_top.contains(TokenModel::Fire(op)));
                let i = choose|i: int| 0 <= i < old_top.len() && old_top[i] == TokenModel::Fire(op);
                assert(top[i] == after.stack[i + m.stack.len()]);
                assert(after.stack.subrange(0, mid.stack.len() as int)[i + m.stack.len()] == mid.stack[i + m.stack.len()]);
            }
        }
    }
}

/// A value that is routed reaches exactly the inputs that edges lead to from it.
pub proof fn routed_law(m: Machine, cid: Seq<char>)
    requires
        routed(m, cid).1 is None,
    ensures
        ({
            let after = routed(m, cid).0;
            &&& forall|p: (Seq<char>, nat)| #[trigger]
                after.filled.dom().contains(p) <==> m.filled.dom().contains(p) || m.wires.contains((PortModel::Value(cid), p))
            &&& forall|p: (Seq<char>, nat)| #[trigger]
                after.filled.dom().contains(p) ==> after.filled[p] == (if m.filled.dom().contains(p) {
                    m.filled[p]
                } else {
                    cid
                })
            &&& m.stack.is_prefix_of(after.stack)
            &&& after.log == m.log && after.values == m.values
        }),
{
    graph::consumers_law(m.wires, PortModel::Value(cid));
    offered_all_law(m, graph::consumers(m.wires, PortModel::Value(cid)), cid);
}

/// The outputs of an operator that are passed on without a fault fill inputs that
/// edges lead to from its out-ports: an input that was free holds the output of the
/// lowest such port.
pub proof fn passed_on_law(m: Machine, op: Seq<char>, cids: Seq<Seq<char>>, n: nat)
    requires
        passed_on(m, op, cids, n).1 is None,
        n <= cids.len(),
    ensures
        ({
            let after = passed_on(m, op, cids, n).0;
            &&& forall|p: (Seq<char>, nat)| m.filled.dom().contains(p) ==> #[trigger] after.filled.dom().contains(p)
                && after.filled[p] == m.filled[p]
            &&& forall|p: (Seq<char>, nat)| #[trigger]
                after.filled.dom().contains(p) && !m.filled.dom().contains(p) ==> exists|k: nat|
                    k < n && #[trigger] m.wires.contains((PortModel::OpOut { op, index: k }, p)) && after.filled[p] == cids[k as int]
                        && forall|j: nat| j < k ==> !#[trigger] m.wires.contains((PortModel::OpOut { op, index: j }, p))
            &&& forall|p: (Seq<char>, nat), k: nat|
                k < n && #[trigger] m.wires.contains((PortModel::OpOut { op, index: k }, p)) ==> after.filled.dom().contains(p)
            &&& m.stack.is_prefix_of(after.stack)
            &&& after.log == m.log && after.values == m.values && after.ops == m.ops && after.wires == m.wires
        }),
    decreases n,
{
    passed_on_keeps(m, op, cids, n);
    let after = passed_on(m, op, cids, n).0;
    if n == 0 {
        assert(m.stack =~= m.stack.subrange(0, m.stack.len() as int));
    } else {
        let k0 = (n - 1) as nat;
        passed_on_keeps(m, op, cids, k0);
        passed_on_law(m, op, cids, k0);
        let mid = passed_on(m, op, cids, k0).0;
        let from = PortModel::OpOut { op, index: k0 };
        graph::consumers_law(mid.wires, from);
        offered_all_law(mid, graph::consumers(mid.wires, from), cids[k0 as int]);
        assert forall|p: (Seq<char>, nat)| m.filled.dom().contains(p) implies #[trigger] after.filled.dom().contains(p)
            && after.filled[p] == m.filled[p] by {
            assert(mid.filled.dom().contains(p));
        }
        assert forall|p: (Seq<char>, nat)| #[trigger] after.filled.dom().contains(p) && !m.filled.dom().contains(p) implies exists|k: nat|
            k < n && #[trigger] m.wires.contains((PortModel::OpOut { op, index: k }, p)) && after.filled[p] == cids[k as int]
                && forall|j: nat| j < k ==> !#[trigger] m.wires.contains((PortModel::OpOut { op, index: j }, p)) by {
            if mid.filled.dom().contains(p) {
                let k = choose|k: nat|
                    k < k0 && #[trigger] m.wires.contains((PortModel::OpOut { op, index: k }, p)) && mid.filled[p] == cids[k as int]
                        && forall|j: nat| j < k ==> !#[trigger] m.wires.contains((PortModel::OpOut { op, index: j }, p));
                assert(k < n && after.filled[p] == cids[k as int]);
            } else {
                assert(m.wires.contains((PortModel::OpOut { op, index: k0 }, p)));
                assert forall|j: nat| j < k0 implies !#[trigger] m.wires.contains((PortModel::OpOut { op, index: j }, p)) by {
                    if m.wires.contains((PortModel::OpOut { op, index: j }, p)) {
                        assert(mid.filled.dom().contains(p));
                    }
                }
            }
        }
        assert forall|p: (Seq<char>, nat), k: nat|
            k < n && #[trigger] m.wires.contains((PortModel::OpOut { op, index: k }, p)) implies after.filled.dom().contains(p) by {
            if k < k0 {
                assert(mid.filled.dom().contains(p));
            } else {
                assert(graph::consumers(mid.wires, from).contains(p));
            }
        }
        assert(m.stack =~= after.stack.subrange(0, m.stack.len() as int)) by {
            assert(m.stack == mid.stack.subrange(0, m.stack.len() as int));
            assert(mid.stack == after.stack.subrange(0, mid.stack.len() as int));
            assert forall|i: int| 0 <= i < m.stack.len() implies m.stack[i] == after.stack[i] by {
                assert(mid.stack.subrange(0, m.stack.len() as int)[i] == mid.stack[i]);
                assert(after.stack.subrange(0, mid.stack.len() as int)[i] == after.stack[i]);
            }
        }
    }
}

/// A firing without a fault: the log grows by one record, whose inputs are what filled
/// the operator's in-ports, in port order, and whose outputs are the keys of the sets
/// that its expression gives for them, in order. Those sets are stored; the outputs
/// wait on the stack, the last on top of the others; and an in-port of the operator is
/// filled afterwards only by one of its own outputs.
pub proof fn fired_law(m: Machine, op: Seq<char>)
    requires
        fired(m, op).1 is None,
    ensures
        ({
            let after = fired(m, op).0;
            let r = after.log.last();
            let given = expr::evaluated(m.ops[op].expr, r.inputs, m.values, m.ops);
            &&& m.ops.dom().contains(op)
            &&& after.log == m.log.push(r)
            &&& r.op == op
            &&& r.inputs.len() == m.ops[op].arity
            &&& forall|i: nat| i < m.ops[op].arity ==> #[trigger] m.filled.dom().contains((op, i))
            &&& forall|i: int| 0 <= i < r.inputs.len() ==> #[trigger] r.inputs[i] == m.filled[(op, i as nat)]
            &&& given is Ok
            &&& r.outputs.len() == given->Ok_0.len()
            &&& forall|i: int|
                0 <= i < r.outputs.len() ==> #[trigger] r.outputs[i] == hllset::key_of(given->Ok_0[i])
                    && after.values.dom().contains(r.outputs[i])
            &&& m.values.submap_of(after.values)
            &&& m.stack.len() + r.outputs.len() <= after.stack.len()
            &&& forall|i: int| 0 <= i < m.stack.len() ==> #[trigger] after.stack[i] == m.stack[i]
            &&& forall|i: int|
                0 <= i < r.outputs.len() ==> #[trigger] after.stack[m.stack.len() + i] == TokenModel::Value(r.outputs[i])
            &&& forall|p: (Seq<char>, nat)| #[trigger]
                after.filled.dom().contains(p) <==> (m.filled.dom().contains(p) && !(p.0 == op && p.1 < m.ops[op].arity))
                    || exists|k: nat| k < r.outputs.len() && #[trigger] m.wires.contains((PortModel::OpOut { op, index: k }, p))
        }),
{
    let spec = m.ops[op];
    port_values_law(m.filled, op, spec.arity);
    let inputs = port_values(m.filled, op, spec.arity)->Ok_0;
    let sets = expr::evaluated(spec.expr, inputs, m.values, m.ops)->Ok_0;
    let cids = set_keys(sets);
    let taken = m.with_filled(emptied(m.filled, op, spec.arity));
    let held = taken.with_values(stored_all(m.values, sets)).with_stack(m.stack + value_tokens(cids));
    stored_all_law(m.values, sets);
    passed_on_law(held, op, cids, cids.len());
    let next = passed_on(held, op, cids, cids.len()).0;
    let after = fired(m, op).0;
    let r = after.log.last();
    assert(after.log =~= m.log.push(r));
    assert(held.stack == next.stack.subrange(0, held.stack.len() as int));
    assert forall|i: int| 0 <= i < held.stack.len() implies after.stack[i] == held.stack[i] by {
        assert(next.stack.subrange(0, held.stack.len() as int)[i] == next.stack[i]);
    }
    assert forall|i: int| 0 <= i < r.outputs.len() implies #[trigger] after.stack[m.stack.len() + i] == TokenModel::Value(
        r.outputs[i],
    ) by {
        assert(held.stack[m.stack.len() + i] == value_tokens(cids)[i]);
    }
    assert forall|i: int| 0 <= i < r.outputs.len() implies #[trigger] r.outputs[i] == hllset::key_of(sets[i])
        && after.values.dom().contains(r.outputs[i]) by {
        assert(stored_all(m.values, sets).dom().contains(hllset::key_of(sets[i])));
    }
    assert forall|p: (Seq<char>, nat)| #[trigger] after.filled.dom().contains(p) <==> (m.filled.dom().contains(p) && !(p.0 == op
        && p.1 < m.ops[op].arity)) || exists|k: nat|
        k < r.outputs.len() && #[trigger] m.wires.contains((PortModel::OpOut { op, index: k }, p)) by {
        assert(held.filled.dom().contains(p) == (m.filled.dom().contains(p) && !(p.0 == op && p.1 < m.ops[op].arity)));
        assert(held.wires == m.wires);
        if after.filled.dom().contains(p) && !held.filled.dom().contains(p) {
            let k = choose|k: nat|
                k < cids.len() && #[trigger] held.wires.contains((PortModel::OpOut { op, index: k }, p)) && next.filled[p]
                    == cids[k as int] && forall|j: nat|
                    j < k ==> !#[trigger] held.wires.contains((PortModel::OpOut { op, index: j }, p));
            assert(m.wires.contains((PortModel::OpOut { op, index: k }, p)));
        }
        if held.filled.dom().contains(p) {
            assert(next.filled.dom().contains(p));
        }
    }
}

/// A run takes its stack from the top: a value there is routed, an operator there is
/// fired while the budget lasts and the predicate does not hold, and the run goes on
/// from what that leaves.
pub proof fn run_from_top(m: Machine, below: Seq<TokenModel>, name: Seq<char>, budget: nat, stop: spec_fn(Seq<FireModel>) -> bool)
    ensures
        m.stack == below.push(TokenModel::Value(name)) && routed(m.with_stack(below), name).1 is None ==> run_of(m, budget, stop)
            == run_of(routed(m.with_stack(below), name).0, budget, stop),
        m.stack == below.push(TokenModel::Fire(name)) && m.log.len() < budget && !stop(m.log) && fired(
            m.with_stack(below),
            name,
        ).1 is None ==> run_of(m, budget, stop) == run_of(fired(m.with_stack(below), name).0, budget, stop),
        m.stack == below.push(TokenModel::Fire(name)) && m.log.len() < budget && stop(m.log) ==> run_of(m, budget, stop) == (
            m,
            Ok::<(nat, CommitReason), Fault>((m.log.len(), CommitReason::Predicate)),
        ),
        m.stack == below.push(TokenModel::Fire(name)) && m.log.len() >= budget ==> run_of(m, budget, stop) == (
            m,
            Ok::<(nat, CommitReason), Fault>((m.log.len(), CommitReason::FireBudget)),
        ),
        m.stack.len() == 0 ==> run_of(m, budget, stop) == (
            m,
            Ok::<(nat, CommitReason), Fault>((m.log.len(), CommitReason::Quiescence)),
        ),
{
    assert(below.push(TokenModel::Value(name)).drop_last() =~= below);
    assert(below.push(TokenModel::Fire(name)).drop_last() =~= below);
}

/// What a log produced: the outputs of its firings, one firing after the other.
pub proof fn outputs_law(log: Seq<FireModel>, more: Seq<FireModel>, r: FireModel)
    ensures
        all_outputs(Seq::empty()) == Seq::<Seq<char>>::empty(),
        all_outputs(seq![r]) == r.outputs,
        all_outputs(log + more) == all_outputs(log) + all_outputs(more),
    decreases more.len(),
{
    assert(seq![r].drop_last() =~= Seq::<FireModel>::empty());
    reveal_with_fuel(all_outputs, 2);
    assert(all_outputs(seq![r]) =~= r.outputs);
    if more.len() == 0 {
        assert(log + more =~= log);
        assert(all_outputs(log) + all_outputs(more) =~= all_outputs(log));
    } else {
        outputs_law(log, more.drop_last(), r);
        assert((log + more).drop_last() =~= log + more.drop_last());
        assert((log + more).last() == more.last());
        assert(all_outputs(log + more) =~= all_outputs(log) + all_outputs(more));
    }
}

/// Emptying the first ports of an operator takes what stood there, and nothing else.
pub proof fn emptied_law(filled: Map<(Seq<char>, nat), Seq<char>>, op: Seq<char>, n: nat, k: (Seq<char>, nat))
    ensures
        emptied(filled, op, n).dom().contains(k) <==> filled.dom().contains(k) && !(k.0 == op && k.1 < n),
        emptied(filled, op, n).dom().contains(k) ==> emptied(filled, op, n)[k] == filled[k],
{
}

} // verus!
