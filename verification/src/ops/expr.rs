//! Expressions in postfix form over sets.

use vstd::prelude::*;

use crate::hllset::HLLSet;
use crate::ops::graph::OpModel;
use crate::ops::graph::OpTable;
use crate::ops::graph::ValueStore;
use crate::digest;
use crate::text;

verus! {

/// The deepest nesting of calls.
pub const MAX_CALL_DEPTH: usize = 128;

/// The id of an operator: `p:` and the SHA-1 of its source.
pub open spec fn op_key(source: Seq<char>) -> Seq<char> {
    "p:"@ + digest::sha1_text(text::utf8(source))
}

/// The id of an operator.
pub fn op_cid(source: &str) -> (cid: String)
    ensures
        cid@ == op_key(source@),
{
    let digest = digest::sha1_hex(source.as_bytes());
    text::concat2("p:", digest.as_str())
}

/// A word of an expression.
#[derive(Clone, Debug, PartialEq, Eq)]
pub enum Word {
    Value(String),
    Dup,
    Swap,
    Drop,
    Union,
    Intersection,
    Difference,
    SymmetricDifference,
    Call(String),
}

/// What a word says.
pub enum WordModel {
    Value(Seq<char>),
    Dup,
    Swap,
    Drop,
    Union,
    Intersection,
    Difference,
    SymmetricDifference,
    Call(Seq<char>),
}

impl View for Word {
    type V = WordModel;

    open spec fn view(&self) -> WordModel {
        match self {
            Word::Value(cid) => WordModel::Value(cid@),
            Word::Dup => WordModel::Dup,
            Word::Swap => WordModel::Swap,
            Word::Drop => WordModel::Drop,
            Word::Union => WordModel::Union,
            Word::Intersection => WordModel::Intersection,
            Word::Difference => WordModel::Difference,
            Word::SymmetricDifference => WordModel::SymmetricDifference,
            Word::Call(cid) => WordModel::Call(cid@),
        }
    }
}

/// The views of a list of words.
pub open spec fn word_models(words: Seq<Word>) -> Seq<WordModel> {
    words.map_values(|w: Word| w@)
}

/// Why an expression or a graph could not do its work.
#[derive(Clone, Debug, PartialEq, Eq)]
pub enum EvalError {
    Parse(String),
    UnknownWord(String),
    StackUnderflow,
    ArityMismatch { op: String, expected: usize, got: usize },
    OutputMismatch { op: String, expected: usize, got: usize },
    MissingValue(String),
    MissingOp(String),
    InputNotFilled { op: String, port: usize },
    CallDepthExceeded(usize),
}

/// What an error says.
pub enum Fault {
    Parse(Seq<char>),
    UnknownWord(Seq<char>),
    StackUnderflow,
    ArityMismatch { op: Seq<char>, expected: nat, got: nat },
    OutputMismatch { op: Seq<char>, expected: nat, got: nat },
    MissingValue(Seq<char>),
    MissingOp(Seq<char>),
    InputNotFilled { op: Seq<char>, port: nat },
    CallDepthExceeded(nat),
}

impl View for EvalError {
    type V = Fault;

    open spec fn view(&self) -> Fault {
        match self {
            EvalError::Parse(m) => Fault::Parse(m@),
            EvalError::UnknownWord(w) => Fault::UnknownWord(w@),
            EvalError::StackUnderflow => Fault::StackUnderflow,
            EvalError::ArityMismatch { op, expected, got } => Fault::ArityMismatch {
                op: op@,
                expected: *expected as nat,
                got: *got as nat,
            },
            EvalError::OutputMismatch { op, expected, got } => Fault::OutputMismatch {
                op: op@,
                expected: *expected as nat,
                got: *got as nat,
            },
            EvalError::MissingValue(c) => Fault::MissingValue(c@),
            EvalError::MissingOp(c) => Fault::MissingOp(c@),
            EvalError::InputNotFilled { op, port } => Fault::InputNotFilled { op: op@, port: *port as nat },
            EvalError::CallDepthExceeded(d) => Fault::CallDepthExceeded(*d as nat),
        }
    }
}

impl Fault {
    /// The error in words.
    pub open spec fn words(self) -> Seq<char> {
        match self {
            Fault::Parse(m) => "parse error: "@ + m,
            Fault::UnknownWord(w) => "unknown word: "@ + w,
            Fault::StackUnderflow => "stack underflow"@,
            Fault::ArityMismatch { op, expected, got } => "arity mismatch for "@ + op + ": expected "@ + text::decimal(expected)
                + ", got "@ + text::decimal(got),
            Fault::OutputMismatch { op, expected, got } => "output mismatch for "@ + op + ": expected "@ + text::decimal(
                expected,
            ) + ", got "@ + text::decimal(got),
            Fault::MissingValue(c) => "missing value: "@ + c,
            Fault::MissingOp(c) => "missing op: "@ + c,
            Fault::InputNotFilled { op, port } => "input port not filled: "@ + op + "["@ + text::decimal(port) + "]"@,
            Fault::CallDepthExceeded(d) => "call depth exceeded at "@ + text::decimal(d),
        }
    }
}

impl EvalError {
    /// The error as a message.
    pub fn message(&self) -> (s: String)
        ensures
            s@ == self@.words(),
    {
        match self {
            EvalError::Parse(m) => text::concat2("parse error: ", m.as_str()),
            EvalError::UnknownWord(w) => text::concat2("unknown word: ", w.as_str()),
            EvalError::StackUnderflow => text::copy_str("stack underflow"),
            EvalError::ArityMismatch { op, expected, got } => {
                let a = text::decimal_string(*expected as u64);
                let b = text::decimal_string(*got as u64);
                let head = text::concat3("arity mismatch for ", op.as_str(), ": expected ");
                let mid = text::concat3(head.as_str(), a.as_str(), ", got ");
                text::concat2(mid.as_str(), b.as_str())
            },
            EvalError::OutputMismatch { op, expected, got } => {
                let a = text::decimal_string(*expected as u64);
                let b = text::decimal_string(*got as u64);
                let head = text::concat3("output mismatch for ", op.as_str(), ": expected ");
                let mid = text::concat3(head.as_str(), a.as_str(), ", got ");
                text::concat2(mid.as_str(), b.as_str())
            },
            EvalError::MissingValue(c) => text::concat2("missing value: ", c.as_str()),
            EvalError::MissingOp(c) => text::concat2("missing op: ", c.as_str()),
            EvalError::InputNotFilled { op, port } => {
                let p = text::decimal_string(*port as u64);
                let head = text::concat3("input port not filled: ", op.as_str(), "[");
                text::concat3(head.as_str(), p.as_str(), "]")
            },
            EvalError::CallDepthExceeded(d) => {
                let n = text::decimal_string(*d as u64);
                text::concat2("call depth exceeded at ", n.as_str())
            },
        }
    }
}

/// A compiled expression.
#[derive(Clone, Debug, PartialEq, Eq)]
pub struct Expression {
    pub source: String,
    pub arity: usize,
    pub outputs: usize,
    pub words: Vec<Word>,
}

/// What an expression says.
pub struct ExpressionModel {
    pub source: Seq<char>,
    pub arity: nat,
    pub outputs: nat,
    pub words: Seq<WordModel>,
}

impl View for Expression {
    type V = ExpressionModel;

    open spec fn view(&self) -> ExpressionModel {
        ExpressionModel {
            source: self.source@,
            arity: self.arity as nat,
            outputs: self.outputs as nat,
            words: word_models(self.words@),
        }
    }
}

/// The word that a token spells.
pub open spec fn word_of(t: Seq<char>) -> Result<WordModel, Fault> {
    if t == "dup"@ {
        Ok(WordModel::Dup)
    } else if t == "swap"@ {
        Ok(WordModel::Swap)
    } else if t == "drop"@ {
        Ok(WordModel::Drop)
    } else if t == "union"@ {
        Ok(WordModel::Union)
    } else if t == "inter"@ {
        Ok(WordModel::Intersection)
    } else if t == "diff"@ {
        Ok(WordModel::Difference)
    } else if t == "symdiff"@ {
        Ok(WordModel::SymmetricDifference)
    } else if "@"@.is_prefix_of(t) {
        Ok(WordModel::Value(t.skip(1)))
    } else if "call:"@.is_prefix_of(t) {
        Ok(WordModel::Call(t.skip(5)))
    } else {
        Err(Fault::UnknownWord(t))
    }
}

/// The words that tokens spell, or the first fault among them.
pub open spec fn words_of(tokens: Seq<Seq<char>>) -> Result<Seq<WordModel>, Fault>
    decreases tokens.len(),
{
    if tokens.len() == 0 {
        Ok(Seq::empty())
    } else {
        match words_of(tokens.drop_last()) {
            Ok(ws) => match word_of(tokens.last()) {
                Ok(w) => Ok(ws.push(w)),
                Err(e) => Err(e),
            },
            Err(e) => Err(e),
        }
    }
}

/// A fault among the first tokens is the fault of all.
proof fn words_of_prefix(tokens: Seq<Seq<char>>, n: int)
    requires
        0 <= n <= tokens.len(),
    ensures
        words_of(tokens.take(n)) is Err ==> words_of(tokens) == words_of(tokens.take(n)),
    decreases tokens.len() - n,
{
    if n < tokens.len() {
        words_of_prefix(tokens, n + 1);
        assert(tokens.take(n + 1).drop_last() =~= tokens.take(n));
    } else {
        assert(tokens.take(n) =~= tokens);
    }
}

/// What a source text compiles to: two numbers, then words.
pub open spec fn compiled(source: Seq<char>) -> Result<ExpressionModel, Fault> {
    let t = text::words(source);
    if t.len() == 0 {
        Err(Fault::Parse("missing arity"@))
    } else if text::parsed(t[0], usize::MAX as nat) is None {
        Err(Fault::Parse("arity is not an integer"@))
    } else if t.len() == 1 {
        Err(Fault::Parse("missing outputs"@))
    } else if text::parsed(t[1], usize::MAX as nat) is None {
        Err(Fault::Parse("outputs is not an integer"@))
    } else {
        match words_of(t.skip(2)) {
            Ok(ws) => Ok(
                ExpressionModel {
                    source,
                    arity: text::parsed(t[0], usize::MAX as nat)->0,
                    outputs: text::parsed(t[1], usize::MAX as nat)->0,
                    words: ws,
                },
            ),
            Err(e) => Err(e),
        }
    }
}

/// The sets under a list of ids, or the first that is missing.
pub open spec fn gathered(cids: Seq<Seq<char>>, values: Map<Seq<char>, Set<u32>>) -> Result<Seq<Set<u32>>, Fault>
    decreases cids.len(),
{
    if cids.len() == 0 {
        Ok(Seq::empty())
    } else {
        match gathered(cids.drop_last(), values) {
            Ok(sets) => if values.dom().contains(cids.last()) {
                Ok(sets.push(values[cids.last()]))
            } else {
                Err(Fault::MissingValue(cids.last()))
            },
            Err(e) => Err(e),
        }
    }
}

proof fn gathered_prefix(cids: Seq<Seq<char>>, values: Map<Seq<char>, Set<u32>>, n: int)
    requires
        0 <= n <= cids.len(),
    ensures
        gathered(cids.take(n), values) is Err ==> gathered(cids, values) == gathered(cids.take(n), values),
    decreases cids.len() - n,
{
    if n < cids.len() {
        gathered_prefix(cids, values, n + 1);
        assert(cids.take(n + 1).drop_last() =~= cids.take(n));
    } else {
        assert(cids.take(n) =~= cids);
    }
}

/// The effect of a word with two operands.
pub open spec fn combined(w: WordModel, a: Set<u32>, b: Set<u32>) -> Set<u32> {
    match w {
        WordModel::Union => a.union(b),
        WordModel::Intersection => a.intersect(b),
        WordModel::Difference => a.difference(b),
        _ => a.difference(b).union(b.difference(a)),
    }
}

/// The stack after the words of an expression, or the first fault.
pub open spec fn executed(
    words: Seq<WordModel>,
    stack: Seq<Set<u32>>,
    values: Map<Seq<char>, Set<u32>>,
    ops: Map<Seq<char>, OpModel>,
    depth: nat,
) -> Result<Seq<Set<u32>>, Fault>
    decreases 129 - depth, words.len(),
{
    if depth > 128 {
        Err(Fault::CallDepthExceeded(depth))
    } else if words.len() == 0 {
        Ok(stack)
    } else {
        match executed(words.drop_last(), stack, values, ops, depth) {
            Err(e) => Err(e),
            Ok(s) => match words.last() {
                WordModel::Value(cid) => if values.dom().contains(cid) {
                    Ok(s.push(values[cid]))
                } else {
                    Err(Fault::MissingValue(cid))
                },
                WordModel::Dup => if s.len() >= 1 {
                    Ok(s.push(s.last()))
                } else {
                    Err(Fault::StackUnderflow)
                },
                WordModel::Swap => if s.len() >= 2 {
                    Ok(s.take(s.len() - 2).push(s[s.len() - 1]).push(s[s.len() - 2]))
                } else {
                    Err(Fault::StackUnderflow)
                },
                WordModel::Drop => if s.len() >= 1 {
                    Ok(s.drop_last())
                } else {
                    Err(Fault::StackUnderflow)
                },
                WordModel::Call(cid) => if ops.dom().contains(cid) {
                    executed(ops[cid].expr.words, s, values, ops, depth + 1)
                } else {
                    Err(Fault::MissingOp(cid))
                },
                w => if s.len() >= 2 {
                    Ok(s.take(s.len() - 2).push(combined(w, s[s.len() - 2], s[s.len() - 1])))
                } else {
                    Err(Fault::StackUnderflow)
                },
            },
        }
    }
}

proof fn executed_prefix(
    words: Seq<WordModel>,
    stack: Seq<Set<u32>>,
    values: Map<Seq<char>, Set<u32>>,
    ops: Map<Seq<char>, OpModel>,
    depth: nat,
    n: int,
)
    requires
        0 <= n <= words.len(),
        depth <= 128,
    ensures
        executed(words.take(n), stack, values, ops, depth) is Err ==> executed(words, stack, values, ops, depth)
            == executed(words.take(n), stack, values, ops, depth),
    decreases words.len() - n,
{
    if n < words.len() {
        executed_prefix(words, stack, values, ops, depth, n + 1);
        assert(words.take(n + 1).drop_last() =~= words.take(n));
    } else {
        assert(words.take(n) =~= words);
    }
}

/// What an expression gives for inputs.
pub open spec fn evaluated(
    e: ExpressionModel,
    inputs: Seq<Seq<char>>,
    values: Map<Seq<char>, Set<u32>>,
    ops: Map<Seq<char>, OpModel>,
) -> Result<Seq<Set<u32>>, Fault> {
    if inputs.len() != e.arity {
        Err(Fault::ArityMismatch { op: op_key(e.source), expected: e.arity, got: inputs.len() })
    } else {
        match gathered(inputs, values) {
            Err(f) => Err(f),
            Ok(stack) => match executed(e.words, stack, values, ops, 0) {
                Err(f) => Err(f),
                Ok(s) => if s.len() == e.outputs {
                    Ok(s)
                } else {
                    Err(Fault::OutputMismatch { op: op_key(e.source), expected: e.outputs, got: s.len() })
                },
            },
        }
    }
}

/// The sets of a list of sketches.
pub open spec fn stack_views(v: Seq<HLLSet>) -> Seq<Set<u32>> {
    v.map_values(|s: HLLSet| s@)
}

/// A result says what its model says.
pub open spec fn says<T: View>(r: Result<T, EvalError>, m: Result<T::V, Fault>) -> bool {
    match r {
        Ok(v) => m == Ok::<T::V, Fault>(v@),
        Err(e) => m == Err::<T::V, Fault>(e@),
    }
}

/// Reads a word from a token.
fn parse_word(token: &[char]) -> (r: Result<Word, EvalError>)
    ensures
        says(r, word_of(token@)),
{
    if text::spells(token, "dup") {
        return Ok(Word::Dup);
    }
    if text::spells(token, "swap") {
        return Ok(Word::Swap);
    }
    if text::spells(token, "drop") {
        return Ok(Word::Drop);
    }
    if text::spells(token, "union") {
        return Ok(Word::Union);
    }
    if text::spells(token, "inter") {
        return Ok(Word::Intersection);
    }
    if text::spells(token, "diff") {
        return Ok(Word::Difference);
    }
    if text::spells(token, "symdiff") {
        return Ok(Word::SymmetricDifference);
    }
    if text::begins_with(token, "@") {
        proof {
            reveal_strlit("@");
        }
        return Ok(Word::Value(text::string_of(text::tail_from(token, 1))));
    }
    if text::begins_with(token, "call:") {
        proof {
            reveal_strlit("call:");
        }
        return Ok(Word::Call(text::string_of(text::tail_from(token, 5))));
    }
    Err(EvalError::UnknownWord(text::string_of(token)))
}

impl Word {
    /// Copies the word.
    pub fn copy(&self) -> (w: Word)
        ensures
            w@ == self@,
    {
        match self {
            Word::Value(c) => Word::Value(c.clone()),
            Word::Dup => Word::Dup,
            Word::Swap => Word::Swap,
            Word::Drop => Word::Drop,
            Word::Union => Word::Union,
            Word::Intersection => Word::Intersection,
            Word::Difference => Word::Difference,
            Word::SymmetricDifference => Word::SymmetricDifference,
            Word::Call(c) => Word::Call(c.clone()),
        }
    }
}

impl Expression {
    /// Copies the expression.
    pub fn copy(&self) -> (e: Expression)
        ensures
            e@ == self@,
    {
        let mut list: Vec<Word> = Vec::new();
        let mut i: usize = 0;
        while i < self.words.len()
            invariant
                i <= self.words@.len(),
                list@.len() == i,
                forall|j: int| 0 <= j < i ==> (#[trigger] list@[j])@ == self.words@[j]@,
            decreases self.words.len() - i,
        {
            list.push(self.words[i].copy());
            i = i + 1;
        }
        proof {
            assert(word_models(list@) =~= word_models(self.words@));
        }
        Expression { source: self.source.clone(), arity: self.arity, outputs: self.outputs, words: list }
    }

    /// Compiles a source text.
    pub fn compile(source: &str) -> (r: Result<Expression, EvalError>)
        ensures
            says(r, compiled(source@)),
    {
        let chars = text::chars_of(source);
        let tokens = text::split_words(chars.as_slice());
        let ghost t = text::words(source@);
        proof {
            assert(t.len() == tokens@.len()) by {
                assert(text::word_views(tokens@).len() == tokens@.len());
            }
        }
        if tokens.len() == 0 {
            return Err(EvalError::Parse(text::copy_str("missing arity")));
        }
        let arity = match text::parse_decimal(tokens[0].as_slice(), usize::MAX as u64) {
            Some(n) => n as usize,
            None => {
                return Err(EvalError::Parse(text::copy_str("arity is not an integer")));
            },
        };
        if tokens.len() == 1 {
            return Err(EvalError::Parse(text::copy_str("missing outputs")));
        }
        let outputs = match text::parse_decimal(tokens[1].as_slice(), usize::MAX as u64) {
            Some(n) => n as usize,
            None => {
                return Err(EvalError::Parse(text::copy_str("outputs is not an integer")));
            },
        };
        let ghost rest = t.skip(2);
        let mut list: Vec<Word> = Vec::new();
        let mut i: usize = 2;
        proof {
            assert(rest.take(0) =~= Seq::<Seq<char>>::empty());
            assert(word_models(list@) =~= Seq::<WordModel>::empty());
        }
        while i < tokens.len()
            invariant
                2 <= i <= tokens@.len(),
                t == text::words(source@),
                rest == t.skip(2),
                t.len() == tokens@.len(),
                forall|j: int| 0 <= j < tokens@.len() ==> #[trigger] tokens@[j]@ == t[j],
                words_of(rest.take(i - 2)) == Ok::<Seq<WordModel>, Fault>(word_models(list@)),
                text::parsed(t[0], usize::MAX as nat) is Some,
                text::parsed(t[1], usize::MAX as nat) is Some,
            decreases tokens.len() - i,
        {
            proof {
                assert(rest.take(i - 1).drop_last() =~= rest.take(i - 2));
                assert(rest.take(i - 1).last() == t[i as int]);
                words_of_prefix(rest, i - 1);
            }
            match parse_word(tokens[i].as_slice()) {
                Ok(w) => {
                    let ghost before = list@;
                    list.push(w);
                    proof {
                        assert(word_models(list@) =~= word_models(before).push(w@));
                    }
                },
                Err(e) => {
                    return Err(e);
                },
            }
            i = i + 1;
        }
        proof {
            assert(rest.take(i - 2) =~= rest);
        }
        Ok(Expression { source: text::copy_str(source), arity, outputs, words: list })
    }

    /// The id of the expression as an operator.
    pub fn op_cid(&self) -> (cid: String)
        ensures
            cid@ == op_key(self@.source),
    {
        self::op_cid(self.source.as_str())
    }

    /// Evaluates the expression for the values under the given ids.
    pub fn run(&self, inputs: &Vec<String>, values: &ValueStore, ops: &OpTable) -> (r: Result<Vec<HLLSet>, EvalError>)
        requires
            values.wf(),
            ops.wf(),
        ensures
            match r {
                Ok(v) => evaluated(self@, text::texts(inputs@), values@, ops@) == Ok::<Seq<Set<u32>>, Fault>(stack_views(v@)),
                Err(e) => evaluated(self@, text::texts(inputs@), values@, ops@) == Err::<Seq<Set<u32>>, Fault>(e@),
            },
    {
        if inputs.len() != self.arity {
            return Err(EvalError::ArityMismatch { op: self.op_cid(), expected: self.arity, got: inputs.len() });
        }
        let ghost cids = text::texts(inputs@);
        let mut stack: Vec<HLLSet> = Vec::new();
        let mut i: usize = 0;
        proof {
            assert(cids.take(0) =~= Seq::<Seq<char>>::empty());
            assert(stack_views(stack@) =~= Seq::<Set<u32>>::empty());
        }
        while i < inputs.len()
            invariant
                i <= inputs@.len(),
                inputs@.len() == self.arity,
                values.wf(),
                cids == text::texts(inputs@),
                gathered(cids.take(i as int), values@) == Ok::<Seq<Set<u32>>, Fault>(stack_views(stack@)),
            decreases inputs.len() - i,
        {
            proof {
                assert(cids.take(i as int + 1).drop_last() =~= cids.take(i as int));
                assert(cids.take(i as int + 1).last() == inputs@[i as int]@);
                gathered_prefix(cids, values@, i as int + 1);
            }
            match values.get(inputs[i].as_str()) {
                Some(s) => {
                    let ghost before = stack@;
                    stack.push(*s);
                    proof {
                        assert(stack_views(stack@) =~= stack_views(before).push(s@));
                    }
                },
                None => {
                    return Err(EvalError::MissingValue(inputs[i].clone()));
                },
            }
            i = i + 1;
        }
        proof {
            assert(cids.take(i as int) =~= cids);
        }
        match exec_words(&self.words, &mut stack, values, ops, 0) {
            Ok(_) => {},
            Err(e) => {
                return Err(e);
            },
        }
        if stack.len() != self.outputs {
            return Err(EvalError::OutputMismatch { op: self.op_cid(), expected: self.outputs, got: stack.len() });
        }
        Ok(stack)
    }
}

/// Executes words on a stack.
#[verifier::rlimit(60)]
fn exec_words(words: &Vec<Word>, stack: &mut Vec<HLLSet>, values: &ValueStore, ops: &OpTable, depth: usize) -> (r: Result<
    (),
    EvalError,
>)
    requires
        values.wf(),
        ops.wf(),
        depth <= 129,
    ensures
        match r {
            Ok(_) => executed(word_models(words@), stack_views(old(stack)@), values@, ops@, depth as nat) == Ok::<
                Seq<Set<u32>>,
                Fault,
            >(stack_views(final(stack)@)),
            Err(e) => executed(word_models(words@), stack_views(old(stack)@), values@, ops@, depth as nat) == Err::<
                Seq<Set<u32>>,
                Fault,
            >(e@),
        },
    decreases 129 - depth,
{
    if depth > MAX_CALL_DEPTH {
        return Err(EvalError::CallDepthExceeded(depth));
    }
    let ghost all = word_models(words@);
    let ghost start = stack_views(stack@);
    let mut i: usize = 0;
    proof {
        assert(all.take(0) =~= Seq::<WordModel>::empty());
    }
    while i < words.len()
        invariant
            i <= words@.len(),
            depth <= 128,
            values.wf(),
            ops.wf(),
            all == word_models(words@),
            start == stack_views(old(stack)@),
            executed(all.take(i as int), start, values@, ops@, depth as nat) == Ok::<Seq<Set<u32>>, Fault>(
                stack_views(stack@),
            ),
        decreases words.len() - i,
    {
        let ghost s = stack_views(stack@);
        proof {
            assert(all.take(i as int + 1).drop_last() =~= all.take(i as int));
            assert(all.take(i as int + 1).last() == words@[i as int]@);
            executed_prefix(all, start, values@, ops@, depth as nat, i as int + 1);
        }
        let n = stack.len();
        match &words[i] {
            Word::Value(cid) => {
                match values.get(cid.as_str()) {
                    Some(set) => {
                        stack.push(*set);
                    },
                    None => {
                        return Err(EvalError::MissingValue(cid.clone()));
                    },
                }
                proof {
                    assert(stack_views(stack@) =~= s.push(values@[cid@]));
                }
            },
            Word::Dup => {
                if n < 1 {
                    return Err(EvalError::StackUnderflow);
                }
                let a = stack[n - 1];
                stack.push(a);
                proof {
                    assert(stack_views(stack@) =~= s.push(s.last()));
                }
            },
            Word::Swap => {
                if n < 2 {
                    return Err(EvalError::StackUnderflow);
                }
                let b = stack[n - 1];
                let a = stack[n - 2];
                stack[n - 2] = b;
                stack[n - 1] = a;
                proof {
                    assert(stack_views(stack@) =~= s.take(s.len() - 2).push(s[s.len() - 1]).push(s[s.len() - 2]));
                }
            },
            Word::Drop => {
                if n < 1 {
                    return Err(EvalError::StackUnderflow);
                }
                stack.pop();
                proof {
                    assert(stack_views(stack@) =~= s.drop_last());
                }
            },
            Word::Call(cid) => {
                match ops.get(cid.as_str()) {
                    Some(spec) => {
                        match exec_words(&spec.expr.words, stack, values, ops, depth + 1) {
                            Ok(_) => {},
                            Err(e) => {
                                return Err(e);
                            },
                        }
                    },
                    None => {
                        return Err(EvalError::MissingOp(cid.clone()));
                    },
                }
            },
            _ => {
                if n < 2 {
                    return Err(EvalError::StackUnderflow);
                }
                let b = stack[n - 1];
                let a = stack[n - 2];
                let c = match &words[i] {
                    Word::Union => a.union(&b),
                    Word::Intersection => a.intersection(&b),
                    Word::Difference => a.difference(&b),
                    _ => a.difference(&b).union(&b.difference(&a)),
                };
                stack.pop();
                stack.pop();
                stack.push(c);
                proof {
                    assert(stack_views(stack@) =~= s.take(s.len() - 2).push(
                        combined(words@[i as int]@, s[s.len() - 2], s[s.len() - 1]),
                    ));
                }
            },
        }
        i = i + 1;
    }
    proof {
        assert(all.take(i as int) =~= all);
    }
    Ok(())
}

/// Every token is read as its own word, in place; the first token that spells none
/// is the fault.
pub proof fn words_law(tokens: Seq<Seq<char>>)
    ensures
        words_of(tokens) matches Ok(ws) ==> ws.len() == tokens.len() && forall|i: int|
            0 <= i < tokens.len() ==> word_of(#[trigger] tokens[i]) == Ok::<WordModel, Fault>(ws[i]),
        words_of(tokens) matches Err(e) ==> exists|i: int|
            0 <= i < tokens.len() && word_of(#[trigger] tokens[i]) == Err::<WordModel, Fault>(e) && forall|j: int|
                0 <= j < i ==> word_of(#[trigger] tokens[j]) is Ok,
    decreases tokens.len(),
{
    if tokens.len() > 0 {
        let front = tokens.drop_last();
        words_law(front);
        match words_of(front) {
            Ok(ws) => {
                assert forall|j: int| 0 <= j < front.len() implies word_of(#[trigger] tokens[j]) == Ok::<WordModel, Fault>(ws[j]) by {
                    assert(front[j] == tokens[j]);
                }
                assert(tokens.last() == tokens[tokens.len() - 1]);
            },
            Err(e) => {
                let i = choose|i: int|
                    0 <= i < front.len() && word_of(#[trigger] front[i]) == Err::<WordModel, Fault>(e) && forall|j: int|
                        0 <= j < i ==> word_of(#[trigger] front[j]) is Ok;
                assert(tokens[i] == front[i]);
                assert forall|j: int| 0 <= j < i implies word_of(#[trigger] tokens[j]) is Ok by {
                    assert(front[j] == tokens[j]);
                }
            },
        }
    }
}

/// How the words are spelled: seven by name, a value behind `@`, a call behind
/// `call:`.
pub proof fn spelling_law(name: Seq<char>)
    ensures
        word_of("dup"@) == Ok::<WordModel, Fault>(WordModel::Dup),
        word_of("swap"@) == Ok::<WordModel, Fault>(WordModel::Swap),
        word_of("drop"@) == Ok::<WordModel, Fault>(WordModel::Drop),
        word_of("union"@) == Ok::<WordModel, Fault>(WordModel::Union),
        word_of("inter"@) == Ok::<WordModel, Fault>(WordModel::Intersection),
        word_of("diff"@) == Ok::<WordModel, Fault>(WordModel::Difference),
        word_of("symdiff"@) == Ok::<WordModel, Fault>(WordModel::SymmetricDifference),
        word_of("@"@ + name) == Ok::<WordModel, Fault>(WordModel::Value(name)),
        word_of("call:"@ + name) == Ok::<WordModel, Fault>(WordModel::Call(name)),
{
    reveal_strlit("dup");
    reveal_strlit("swap");
    reveal_strlit("drop");
    reveal_strlit("union");
    reveal_strlit("inter");
    reveal_strlit("diff");
    reveal_strlit("symdiff");
    reveal_strlit("@");
    reveal_strlit("call:");
    assert("swap"@ != "dup"@) by {
        assert("swap"@[0] != "dup"@[0]);
    }
    assert("drop"@[1] != "dup"@[1] && "drop"@[0] != "swap"@[0]);
    assert("union"@.len() == 5 && "inter"@.len() == 5 && "diff"@.len() == 4 && "symdiff"@.len() == 7);
    assert("inter"@[0] != "union"@[0]);
    assert("diff"@[0] != "swap"@[0] && "diff"@[1] != "drop"@[1]);
    let v = "@"@ + name;
    assert(v[0] == '@');
    assert("dup"@[0] != '@' && "swap"@[0] != '@' && "drop"@[0] != '@' && "union"@[0] != '@' && "inter"@[0] != '@'
        && "diff"@[0] != '@' && "symdiff"@[0] != '@');
    assert("@"@ =~= v.subrange(0, 1));
    assert(v.skip(1) =~= name);
    let c = "call:"@ + name;
    assert(c[0] == 'c');
    assert("dup"@[0] != 'c' && "swap"@[0] != 'c' && "drop"@[0] != 'c' && "union"@[0] != 'c' && "inter"@[0] != 'c'
        && "diff"@[0] != 'c' && "symdiff"@[0] != 'c');
    assert(!"@"@.is_prefix_of(c)) by {
        if "@"@.is_prefix_of(c) {
            assert("@"@[0] == c.subrange(0, 1)[0]);
        }
    }
    assert("call:"@ =~= c.subrange(0, 5));
    assert(c.skip(5) =~= name);
}

/// A source text that compiles starts with the number of inputs and the number of
/// outputs; each word behind them is one word of the expression.
pub proof fn compiled_law(source: Seq<char>)
    ensures
        compiled(source) matches Ok(e) ==> {
            let t = text::words(source);
            &&& e.source == source
            &&& t.len() == e.words.len() + 2
            &&& text::parsed(t[0], usize::MAX as nat) == Some(e.arity)
            &&& text::parsed(t[1], usize::MAX as nat) == Some(e.outputs)
            &&& forall|i: int|
                0 <= i < e.words.len() ==> word_of(t[i + 2]) == Ok::<WordModel, Fault>(#[trigger] e.words[i])
        },
        text::words(source).len() >= 2 && text::parsed(text::words(source)[0], usize::MAX as nat) is Some && text::parsed(
            text::words(source)[1],
            usize::MAX as nat,
        ) is Some && (forall|i: int| 2 <= i < text::words(source).len() ==> word_of(#[trigger] text::words(source)[i]) is Ok)
            ==> compiled(source) is Ok,
{
    let t = text::words(source);
    if t.len() >= 2 {
        let rest = t.skip(2);
        words_law(rest);
        assert forall|i: int| 0 <= i < rest.len() implies #[trigger] rest[i] == t[i + 2] by {}
        if words_of(rest) is Ok {
            let ws = words_of(rest)->Ok_0;
            assert forall|i: int| 0 <= i < ws.len() implies word_of(t[i + 2]) == Ok::<WordModel, Fault>(#[trigger] ws[i]) by {
                assert(rest[i] == t[i + 2]);
            }
        }
    }
}

/// The sets that are gathered stand under the ids, one for each, in order; they are
/// gathered if and only if none is missing.
pub proof fn gathered_law(cids: Seq<Seq<char>>, values: Map<Seq<char>, Set<u32>>)
    ensures
        gathered(cids, values) matches Ok(sets) ==> sets.len() == cids.len() && forall|i: int|
            0 <= i < cids.len() ==> values.dom().contains(#[trigger] cids[i]) && sets[i] == values[cids[i]],
        gathered(cids, values) matches Err(e) ==> exists|i: int|
            0 <= i < cids.len() && !values.dom().contains(#[trigger] cids[i]) && e == Fault::MissingValue(cids[i]),
    decreases cids.len(),
{
    if cids.len() > 0 {
        let front = cids.drop_last();
        gathered_law(front, values);
        match gathered(front, values) {
            Ok(sets) => {
                assert forall|i: int| 0 <= i < front.len() implies values.dom().contains(#[trigger] cids[i]) && sets[i]
                    == values[cids[i]] by {
                    assert(front[i] == cids[i]);
                }
                assert(cids.last() == cids[cids.len() - 1]);
            },
            Err(e) => {
                let i = choose|i: int|
                    0 <= i < front.len() && !values.dom().contains(#[trigger] front[i]) && e == Fault::MissingValue(front[i]);
                assert(cids[i] == front[i]);
            },
        }
    }
}

/// A word with two operands takes the upper two sets of a stack, the first operand
/// below the second, and leaves one set in their place.
pub open spec fn replaces_two(before: Seq<Set<u32>>, after: Result<Seq<Set<u32>>, Fault>) -> bool {
    after matches Ok(s) && s.len() == before.len() - 1 && s.take(s.len() - 1) == before.take(before.len() - 2)
}

/// What the words on sets do to a stack that ends in `a` and `b`: union leaves the
/// bits of either, intersection those of both, difference those of `a` that `b` lacks,
/// symmetric difference those of exactly one.
pub proof fn set_words_law(
    below: Seq<Set<u32>>,
    a: Set<u32>,
    b: Set<u32>,
    values: Map<Seq<char>, Set<u32>>,
    ops: Map<Seq<char>, OpModel>,
    depth: nat,
)
    requires
        depth <= MAX_CALL_DEPTH,
    ensures
        ({
            let stack = below.push(a).push(b);
            let joined = executed(seq![WordModel::Union], stack, values, ops, depth);
            let common = executed(seq![WordModel::Intersection], stack, values, ops, depth);
            let less = executed(seq![WordModel::Difference], stack, values, ops, depth);
            let either = executed(seq![WordModel::SymmetricDifference], stack, values, ops, depth);
            &&& replaces_two(stack, joined)
            &&& replaces_two(stack, common)
            &&& replaces_two(stack, less)
            &&& replaces_two(stack, either)
            &&& forall|x: u32| #[trigger] joined->Ok_0.last().contains(x) <==> a.contains(x) || b.contains(x)
            &&& forall|x: u32| #[trigger] common->Ok_0.last().contains(x) <==> a.contains(x) && b.contains(x)
            &&& forall|x: u32| #[trigger] less->Ok_0.last().contains(x) <==> a.contains(x) && !b.contains(x)
            &&& forall|x: u32| #[trigger] either->Ok_0.last().contains(x) <==> a.contains(x) != b.contains(x)
            &&& less->Ok_0.last().subset_of(a) && less->Ok_0.last().disjoint(b)
        }),
{
    let stack = below.push(a).push(b);
    single_word(WordModel::Union, stack, values, ops, depth);
    single_word(WordModel::Intersection, stack, values, ops, depth);
    single_word(WordModel::Difference, stack, values, ops, depth);
    single_word(WordModel::SymmetricDifference, stack, values, ops, depth);
    assert(stack.take(stack.len() - 2) =~= below);
    assert forall|c: Set<u32>| #[trigger] below.push(c).take(below.len() as int) =~= below by {}
}

/// A single word meets the stack as it is.
proof fn single_word(
    w: WordModel,
    stack: Seq<Set<u32>>,
    values: Map<Seq<char>, Set<u32>>,
    ops: Map<Seq<char>, OpModel>,
    depth: nat,
)
    requires
        depth <= MAX_CALL_DEPTH,
    ensures
        executed(seq![w].drop_last(), stack, values, ops, depth) == Ok::<Seq<Set<u32>>, Fault>(stack),
        seq![w].last() == w,
{
    assert(seq![w].drop_last() =~= Seq::empty());
}

/// What the words on the stack do: a value is put on top; `dup` repeats the top,
/// `drop` takes it away, `swap` exchanges the upper two. A call does what the words
/// of the operator do, one level deeper.
pub proof fn stack_words_law(
    below: Seq<Set<u32>>,
    a: Set<u32>,
    b: Set<u32>,
    cid: Seq<char>,
    values: Map<Seq<char>, Set<u32>>,
    ops: Map<Seq<char>, OpModel>,
    depth: nat,
)
    requires
        depth <= MAX_CALL_DEPTH,
    ensures
        executed(seq![WordModel::Dup], below.push(a), values, ops, depth) == Ok::<Seq<Set<u32>>, Fault>(
            below.push(a).push(a),
        ),
        executed(seq![WordModel::Drop], below.push(a), values, ops, depth) == Ok::<Seq<Set<u32>>, Fault>(below),
        executed(seq![WordModel::Swap], below.push(a).push(b), values, ops, depth) == Ok::<Seq<Set<u32>>, Fault>(
            below.push(b).push(a),
        ),
        executed(seq![WordModel::Value(cid)], below, values, ops, depth) == (if values.dom().contains(cid) {
            Ok::<Seq<Set<u32>>, Fault>(below.push(values[cid]))
        } else {
            Err::<Seq<Set<u32>>, Fault>(Fault::MissingValue(cid))
        }),
        executed(seq![WordModel::Call(cid)], below, values, ops, depth) == (if ops.dom().contains(cid) {
            executed(ops[cid].expr.words, below, values, ops, depth + 1)
        } else {
            Err::<Seq<Set<u32>>, Fault>(Fault::MissingOp(cid))
        }),
{
    single_word(WordModel::Dup, below.push(a), values, ops, depth);
    single_word(WordModel::Drop, below.push(a), values, ops, depth);
    single_word(WordModel::Swap, below.push(a).push(b), values, ops, depth);
    single_word(WordModel::Value(cid), below, values, ops, depth);
    single_word(WordModel::Call(cid), below, values, ops, depth);
    assert(below.push(a).drop_last() =~= below);
    assert(below.push(a).push(b).take(below.len() as int) =~= below);
}

/// Words are carried out one list after the other, from the first to the last.
pub proof fn executed_in_turn(
    first: Seq<WordModel>,
    then: Seq<WordModel>,
    stack: Seq<Set<u32>>,
    values: Map<Seq<char>, Set<u32>>,
    ops: Map<Seq<char>, OpModel>,
    depth: nat,
)
    requires
        depth <= MAX_CALL_DEPTH,
    ensures
        executed(first + then, stack, values, ops, depth) == (match executed(first, stack, values, ops, depth) {
            Ok(s) => executed(then, s, values, ops, depth),
            Err(e) => Err(e),
        }),
    decreases then.len(),
{
    if then.len() == 0 {
        assert(first + then =~= first);
    } else {
        executed_in_turn(first, then.drop_last(), stack, values, ops, depth);
        assert((first + then).drop_last() =~= first + then.drop_last());
        assert((first + then).last() == then.last());
    }
}

/// A word that wants more sets than the stack holds is a fault, and so is nesting
/// beyond the deepest level.
pub proof fn underflow_law(
    w: WordModel,
    stack: Seq<Set<u32>>,
    values: Map<Seq<char>, Set<u32>>,
    ops: Map<Seq<char>, OpModel>,
    depth: nat,
)
    ensures
        depth <= MAX_CALL_DEPTH && stack.len() == 0 && (w is Dup || w is Drop) ==> executed(seq![w], stack, values, ops, depth)
            == Err::<Seq<Set<u32>>, Fault>(Fault::StackUnderflow),
        depth <= MAX_CALL_DEPTH && stack.len() < 2 && (w is Swap || w is Union || w is Intersection || w is Difference
            || w is SymmetricDifference) ==> executed(seq![w], stack, values, ops, depth) == Err::<Seq<Set<u32>>, Fault>(
            Fault::StackUnderflow,
        ),
        depth > MAX_CALL_DEPTH ==> executed(seq![w], stack, values, ops, depth) == Err::<Seq<Set<u32>>, Fault>(
            Fault::CallDepthExceeded(depth),
        ),
{
    if depth <= MAX_CALL_DEPTH {
        single_word(w, stack, values, ops, depth);
    }
}

/// An expression that gives a result had as many inputs as it asks for, each naming a
/// value; its words were carried out on those values, the first at the bottom, and
/// left as many sets as it promises.
pub proof fn evaluated_law(
    e: ExpressionModel,
    inputs: Seq<Seq<char>>,
    values: Map<Seq<char>, Set<u32>>,
    ops: Map<Seq<char>, OpModel>,
)
    ensures
        evaluated(e, inputs, values, ops) matches Ok(out) ==> {
            let stack = Seq::new(inputs.len(), |i: int| values[inputs[i]]);
            &&& inputs.len() == e.arity
            &&& out.len() == e.outputs
            &&& forall|i: int| 0 <= i < inputs.len() ==> values.dom().contains(#[trigger] inputs[i])
            &&& executed(e.words, stack, values, ops, 0) == Ok::<Seq<Set<u32>>, Fault>(out)
        },
        inputs.len() != e.arity ==> evaluated(e, inputs, values, ops) == Err::<Seq<Set<u32>>, Fault>(
            Fault::ArityMismatch { op: op_key(e.source), expected: e.arity, got: inputs.len() },
        ),
        inputs.len() == e.arity && (forall|i: int| 0 <= i < inputs.len() ==> values.dom().contains(#[trigger] inputs[i]))
            ==> match executed(e.words, Seq::new(inputs.len(), |i: int| values[inputs[i]]), values, ops, 0) {
            Ok(s) => s.len() == e.outputs <==> evaluated(e, inputs, values, ops) is Ok,
            Err(f) => evaluated(e, inputs, values, ops) == Err::<Seq<Set<u32>>, Fault>(f),
        },
{
    gathered_law(inputs, values);
    if gathered(inputs, values) is Ok {
        assert(gathered(inputs, values)->Ok_0 =~= Seq::new(inputs.len(), |i: int| values[inputs[i]]));
    }
}

} // verus!
