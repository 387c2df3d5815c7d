//! Boot scripts: one directive per line, compiled into a graph with a stack, a
//! budget and a vocabulary.

use vstd::prelude::*;

use crate::hllset::HLLSet;
use crate::ops::expr::EvalError;
use crate::ops::expr::Fault;
use crate::ops::graph::OpGraph;
use crate::ops::graph::OpModel;
use crate::ops::graph::Port;
use crate::ops::graph::PortModel;
use crate::ops::graph::Target;
use crate::ops::vocab::Vocabulary;
use crate::table::TextTable;
use crate::hashing;
use crate::hllset;
use crate::ops::expr;
use crate::ops::graph;
use crate::table;
use crate::text;

verus! {

/// A compiled boot script.
#[derive(Clone, Debug, PartialEq, Eq)]
pub struct BootProgram {
    pub graph: OpGraph,
    pub stack: Vec<String>,
    pub fires: usize,
    pub vocab: Vocabulary,
}

/// What a boot script says.
#[verifier::ext_equal]
pub struct Script {
    pub values: Map<Seq<char>, Set<u32>>,
    pub ops: Map<Seq<char>, OpModel>,
    pub wires: Seq<(PortModel, (Seq<char>, nat))>,
    pub op_names: Map<Seq<char>, Seq<char>>,
    pub value_names: Map<Seq<char>, Seq<char>>,
    pub stack: Seq<Seq<char>>,
    pub fires: nat,
}

impl BootProgram {
    pub open spec fn wf(&self) -> bool {
        self.graph.wf() && self.vocab.wf()
    }

    /// What the program says.
    pub open spec fn script(&self) -> Script {
        Script {
            values: self.graph.values@,
            ops: self.graph.ops@,
            wires: self.graph.wires(),
            op_names: self.vocab.op_names(),
            value_names: self.vocab.value_names(),
            stack: text::texts(self.stack@),
            fires: self.fires as nat,
        }
    }
}

/// The script without directives.
pub open spec fn blank() -> Script {
    Script {
        values: Map::empty(),
        ops: Map::empty(),
        wires: Seq::empty(),
        op_names: Map::empty(),
        value_names: Map::empty(),
        stack: Seq::empty(),
        fires: 0,
    }
}

/// A parse fault at a line.
pub open spec fn at_line(n: nat, words: Seq<char>) -> Fault {
    Fault::Parse("line "@ + text::decimal(n) + ": "@ + words)
}

/// The place of a word at or behind `from`; the length where there is none.
pub open spec fn next_word(w: Seq<Seq<char>>, from: int, word: Seq<char>) -> int
    decreases w.len() - from,
{
    if from >= w.len() {
        w.len() as int
    } else if w[from] == word {
        from
    } else {
        next_word(w, from + 1, word)
    }
}

/// A word of a definition with its names replaced by ids.
pub open spec fn resolved_word(
    w: Seq<char>,
    values: Map<Seq<char>, Seq<char>>,
    ops: Map<Seq<char>, Seq<char>>,
) -> Result<Seq<char>, Fault> {
    if "@"@.is_prefix_of(w) {
        if values.dom().contains(w.skip(1)) {
            Ok("@"@ + values[w.skip(1)])
        } else {
            Err(Fault::UnknownWord("@"@ + w.skip(1)))
        }
    } else if "call:"@.is_prefix_of(w) {
        if ops.dom().contains(w.skip(5)) {
            Ok("call:"@ + ops[w.skip(5)])
        } else {
            Err(Fault::MissingOp(w.skip(5)))
        }
    } else {
        Ok(w)
    }
}

/// Words with their names replaced, or the first fault.
pub open spec fn resolved_words(
    list: Seq<Seq<char>>,
    values: Map<Seq<char>, Seq<char>>,
    ops: Map<Seq<char>, Seq<char>>,
) -> Result<Seq<Seq<char>>, Fault>
    decreases list.len(),
{
    if list.len() == 0 {
        Ok(Seq::empty())
    } else {
        match resolved_words(list.drop_last(), values, ops) {
            Ok(done) => match resolved_word(list.last(), values, ops) {
                Ok(w) => Ok(done.push(w)),
                Err(e) => Err(e),
            },
            Err(e) => Err(e),
        }
    }
}

/// A reference to a value: a name behind `@`, or a key.
pub open spec fn resolved_ref(w: Seq<char>, values: Map<Seq<char>, Seq<char>>) -> Result<Seq<char>, Fault> {
    if "@"@.is_prefix_of(w) {
        if values.dom().contains(w.skip(1)) {
            Ok(values[w.skip(1)])
        } else {
            Err(Fault::UnknownWord("@"@ + w.skip(1)))
        }
    } else {
        Ok(w)
    }
}

/// References to values, or the first fault.
pub open spec fn resolved_refs(list: Seq<Seq<char>>, values: Map<Seq<char>, Seq<char>>) -> Result<Seq<Seq<char>>, Fault>
    decreases list.len(),
{
    if list.len() == 0 {
        Ok(Seq::empty())
    } else {
        match resolved_refs(list.drop_last(), values) {
            Ok(done) => match resolved_ref(list.last(), values) {
                Ok(w) => Ok(done.push(w)),
                Err(e) => Err(e),
            },
            Err(e) => Err(e),
        }
    }
}

/// The place of the last dot of a text; `-1` where there is none.
pub open spec fn last_dot(s: Seq<char>, n: nat) -> int
    decreases n,
{
    if n == 0 {
        -1
    } else if s[n - 1] == '.' {
        n - 1
    } else {
        last_dot(s, (n - 1) as nat)
    }
}

/// An operator and a place, written `op.index`; the operator by id or by name.
pub open spec fn split_port(s: Seq<char>, ops: Map<Seq<char>, Seq<char>>) -> Result<(Seq<char>, nat), Fault> {
    let d = last_dot(s, s.len());
    let head = s.take(d);
    let tail = s.skip(d + 1);
    if d < 0 {
        Err(Fault::Parse("port "@ + s + " must be op.index"@))
    } else if text::parsed(tail, usize::MAX as nat) is None {
        Err(Fault::Parse("port index in "@ + s + " is not an integer"@))
    } else if "p:"@.is_prefix_of(head) {
        Ok((head, text::parsed(tail, usize::MAX as nat)->0))
    } else if ops.dom().contains(head) {
        Ok((ops[head], text::parsed(tail, usize::MAX as nat)->0))
    } else {
        Err(Fault::MissingOp(head))
    }
}

/// The source of a link: `value:` and a reference, or `out:` and a port.
pub open spec fn link_source(
    w: Seq<Seq<char>>,
    values: Map<Seq<char>, Seq<char>>,
    ops: Map<Seq<char>, Seq<char>>,
) -> Result<PortModel, Fault> {
    if w.len() == 0 {
        Err(Fault::Parse("link source missing"@))
    } else if "value:"@.is_prefix_of(w[0]) {
        match resolved_ref(w[0].skip(6), values) {
            Ok(cid) => Ok(PortModel::Value(cid)),
            Err(e) => Err(e),
        }
    } else if "out:"@.is_prefix_of(w[0]) {
        match split_port(w[0].skip(4), ops) {
            Ok(p) => Ok(PortModel::OpOut { op: p.0, index: p.1 }),
            Err(e) => Err(e),
        }
    } else {
        Err(Fault::Parse("bad link source "@ + w[0]))
    }
}

/// The target of a link: `in:` and a port.
pub open spec fn link_target(w: Seq<Seq<char>>, ops: Map<Seq<char>, Seq<char>>) -> Result<(Seq<char>, nat), Fault> {
    if w.len() == 0 {
        Err(Fault::Parse("link target missing"@))
    } else if "in:"@.is_prefix_of(w[0]) {
        split_port(w[0].skip(3), ops)
    } else {
        Err(Fault::Parse("bad link target "@ + w[0]))
    }
}

/// `value NAME TOKEN..`: a value with the given tokens.
pub open spec fn value_directive(s: Script, n: nat, rest: Seq<Seq<char>>) -> Result<Script, Fault> {
    if rest.len() == 0 {
        Err(at_line(n, "value needs a name"@))
    } else if rest.len() == 1 {
        Err(at_line(n, "value "@ + rest[0] + " needs tokens"@))
    } else {
        let set = hllset::token_bits(rest.skip(1).map_values(|w: Seq<char>| text::utf8(w)), 0);
        Ok(
            Script {
                values: graph::stored(s.values, set),
                value_names: s.value_names.insert(rest[0], hllset::key_of(set)),
                ..s
            },
        )
    }
}

/// The source text of a definition: the word behind the first `(`, the word before
/// the first `)`, and the words behind that with their names replaced.
pub open spec fn def_source(s: Script, n: nat, rest: Seq<Seq<char>>) -> Result<Seq<char>, Fault> {
    let name = rest[0];
    let body = rest.skip(1);
    let open = next_word(body, 0, "("@);
    let close = next_word(body, 0, ")"@);
    if rest.len() == 0 {
        Err(at_line(n, "def needs a name"@))
    } else if open == body.len() {
        Err(at_line(n, "def "@ + name + " missing ("@))
    } else if close == body.len() {
        Err(at_line(n, "def "@ + name + " missing )"@))
    } else if open + 1 >= body.len() {
        Err(at_line(n, "def "@ + name + " missing arity"@))
    } else if text::parsed(body[open + 1], usize::MAX as nat) is None {
        Err(at_line(n, "def "@ + name + " arity is not an integer"@))
    } else if close == 0 {
        Err(at_line(n, "def "@ + name + " missing outputs"@))
    } else if text::parsed(body[close - 1], usize::MAX as nat) is None {
        Err(at_line(n, "def "@ + name + " outputs is not an integer"@))
    } else {
        match resolved_words(body.skip(close + 1), s.value_names, s.op_names) {
            Ok(words) => Ok(
                text::decimal(text::parsed(body[open + 1], usize::MAX as nat)->0) + " "@ + text::decimal(
                    text::parsed(body[close - 1], usize::MAX as nat)->0,
                ) + " "@ + text::joined(words, " "@),
            ),
            Err(e) => Err(e),
        }
    }
}

/// `def NAME ( ARITY .. OUTPUTS ) WORD..`: an operator.
pub open spec fn def_directive(s: Script, n: nat, rest: Seq<Seq<char>>) -> Result<Script, Fault> {
    match def_source(s, n, rest) {
        Err(e) => Err(e),
        Ok(source) => match expr::compiled(source) {
            Err(e) => Err(e),
            Ok(x) => Ok(
                Script {
                    ops: graph::registered(s.ops, x),
                    op_names: s.op_names.insert(rest[0], expr::op_key(source)),
                    ..s
                },
            ),
        },
    }
}

/// `link SOURCE -> TARGET`: an edge.
pub open spec fn link_directive(s: Script, n: nat, rest: Seq<Seq<char>>) -> Result<Script, Fault> {
    let arrow = next_word(rest, 0, "->"@);
    if arrow == rest.len() {
        Err(at_line(n, "link missing ->"@))
    } else {
        match link_source(rest.take(arrow), s.value_names, s.op_names) {
            Err(e) => Err(e),
            Ok(from) => match link_target(rest.skip(arrow + 1), s.op_names) {
                Err(e) => Err(e),
                Ok(to) => Ok(Script { wires: s.wires.push((from, to)), ..s }),
            },
        }
    }
}

/// `stack REF..`: the stack.
pub open spec fn stack_directive(s: Script, rest: Seq<Seq<char>>) -> Result<Script, Fault> {
    match resolved_refs(rest, s.value_names) {
        Ok(stack) => Ok(Script { stack, ..s }),
        Err(e) => Err(e),
    }
}

/// `fires N`: the budget.
pub open spec fn fires_directive(s: Script, n: nat, rest: Seq<Seq<char>>) -> Result<Script, Fault> {
    if rest.len() == 0 {
        Err(at_line(n, "fires needs a number"@))
    } else if text::parsed(rest[0], usize::MAX as nat) is None {
        Err(at_line(n, "fires is not an integer"@))
    } else {
        Ok(Script { fires: text::parsed(rest[0], usize::MAX as nat)->0, ..s })
    }
}

/// The effect of a line of words.
pub open spec fn directive(s: Script, n: nat, w: Seq<Seq<char>>) -> Result<Script, Fault> {
    let rest = w.skip(1);
    if w[0] == "value"@ {
        value_directive(s, n, rest)
    } else if w[0] == "def"@ {
        def_directive(s, n, rest)
    } else if w[0] == "link"@ {
        link_directive(s, n, rest)
    } else if w[0] == "stack"@ {
        stack_directive(s, rest)
    } else if w[0] == "fires"@ {
        fires_directive(s, n, rest)
    } else {
        Err(at_line(n, "unknown directive "@ + w[0]))
    }
}

/// Lines that say nothing: empty ones and comments.
pub open spec fn silent(line: Seq<char>) -> bool {
    line.len() == 0 || line[0] == '#'
}

/// What the first `n` lines of a script say, or the first fault.
pub open spec fn scripted(lines: Seq<Seq<char>>, n: nat) -> Result<Script, Fault>
    decreases n,
{
    if n == 0 {
        Ok(blank())
    } else {
        match scripted(lines, (n - 1) as nat) {
            Err(e) => Err(e),
            Ok(s) => {
                let line = text::trimmed(lines[n - 1]);
                if silent(line) {
                    Ok(s)
                } else {
                    directive(s, n, text::words(line))
                }
            },
        }
    }
}

proof fn scripted_prefix(lines: Seq<Seq<char>>, k: nat, n: nat)
    requires
        k <= n,
    ensures
        scripted(lines, k) is Err ==> scripted(lines, n) == scripted(lines, k),
    decreases n - k,
{
    if k < n {
        scripted_prefix(lines, k + 1, n);
    }
}

/// What a boot script says.
pub open spec fn script_of(text: Seq<char>) -> Result<Script, Fault> {
    scripted(text::pieces(text, '\n'), text::pieces(text, '\n').len())
}

/// A parse error at a line.
fn line_error(n: usize, a: &str, b: &str, c: &str) -> (e: EvalError)
    ensures
        e@ == at_line(n as nat, a@ + b@ + c@),
{
    let number = text::decimal_string(n as u64);
    let head = text::concat3("line ", number.as_str(), ": ");
    let tail = text::concat3(a, b, c);
    let text = text::concat2(head.as_str(), tail.as_str());
    EvalError::Parse(text)
}

/// A parse error at a line, without a name in it.
fn plain_line_error(n: usize, a: &str) -> (e: EvalError)
    ensures
        e@ == at_line(n as nat, a@),
{
    let number = text::decimal_string(n as u64);
    let head = text::concat3("line ", number.as_str(), ": ");
    let text = text::concat2(head.as_str(), a);
    EvalError::Parse(text)
}

/// Finds a word.
fn find_word(w: &[Vec<char>], word: &str) -> (at: usize)
    ensures
        at as int == next_word(text::word_views(w@), 0, word@),
        at <= w@.len(),
{
    let mut i: usize = 0;
    while i < w.len()
        invariant
            i <= w@.len(),
            next_word(text::word_views(w@), 0, word@) == next_word(text::word_views(w@), i as int, word@),
        decreases w.len() - i,
    {
        if text::spells(w[i].as_slice(), word) {
            return i;
        }
        i = i + 1;
    }
    i
}

/// The text under a name.
fn name_of(table: &TextTable<String>, name: &[char]) -> (cid: Option<String>)
    requires
        table.wf(),
    ensures
        match cid {
            Some(c) => table::text_view(table@).dom().contains(name@) && table::text_view(table@)[name@] == c@,
            None => !table::text_view(table@).dom().contains(name@),
        },
{
    let key = text::string_of(name);
    match table.get(key.as_str()) {
        Some(c) => Some(c.clone()),
        None => None,
    }
}

fn resolve_word(word: &[char], values: &TextTable<String>, ops: &TextTable<String>) -> (r: Result<String, EvalError>)
    requires
        values.wf(),
        ops.wf(),
    ensures
        expr::says(r, resolved_word(word@, table::text_view(values@), table::text_view(ops@))),
{
    if text::begins_with(word, "@") {
        proof {
            reveal_strlit("@");
        }
        let name = text::tail_from(word, 1);
        return match name_of(values, name) {
            Some(cid) => Ok(text::concat2("@", cid.as_str())),
            None => {
                let text = text::string_of(name);
                Err(EvalError::UnknownWord(text::concat2("@", text.as_str())))
            },
        };
    }
    if text::begins_with(word, "call:") {
        proof {
            reveal_strlit("call:");
        }
        let name = text::tail_from(word, 5);
        return match name_of(ops, name) {
            Some(cid) => Ok(text::concat2("call:", cid.as_str())),
            None => Err(EvalError::MissingOp(text::string_of(name))),
        };
    }
    Ok(text::string_of(word))
}

proof fn resolved_words_prefix(
    list: Seq<Seq<char>>,
    values: Map<Seq<char>, Seq<char>>,
    ops: Map<Seq<char>, Seq<char>>,
    n: int,
)
    requires
        0 <= n <= list.len(),
    ensures
        resolved_words(list.take(n), values, ops) is Err ==> resolved_words(list, values, ops) == resolved_words(
            list.take(n),
            values,
            ops,
        ),
    decreases list.len() - n,
{
    if n < list.len() {
        resolved_words_prefix(list, values, ops, n + 1);
        assert(list.take(n + 1).drop_last() =~= list.take(n));
    } else {
        assert(list.take(n) =~= list);
    }
}

proof fn resolved_refs_prefix(list: Seq<Seq<char>>, values: Map<Seq<char>, Seq<char>>, n: int)
    requires
        0 <= n <= list.len(),
    ensures
        resolved_refs(list.take(n), values) is Err ==> resolved_refs(list, values) == resolved_refs(list.take(n), values),
    decreases list.len() - n,
{
    if n < list.len() {
        resolved_refs_prefix(list, values, n + 1);
        assert(list.take(n + 1).drop_last() =~= list.take(n));
    } else {
        assert(list.take(n) =~= list);
    }
}

/// Replaces the names in words.
fn resolve_words(list: &[Vec<char>], values: &TextTable<String>, ops: &TextTable<String>) -> (r: Result<
    Vec<String>,
    EvalError,
>)
    requires
        values.wf(),
        ops.wf(),
    ensures
        match r {
            Ok(v) => resolved_words(text::word_views(list@), table::text_view(values@), table::text_view(ops@)) == Ok::<
                Seq<Seq<char>>,
                Fault,
            >(text::texts(v@)),
            Err(e) => resolved_words(text::word_views(list@), table::text_view(values@), table::text_view(ops@)) == Err::<
                Seq<Seq<char>>,
                Fault,
            >(e@),
        },
{
    let ghost all = text::word_views(list@);
    let ghost vn = table::text_view(values@);
    let ghost on = table::text_view(ops@);
    let mut out: Vec<String> = Vec::new();
    let mut i: usize = 0;
    proof {
        assert(all.take(0) =~= Seq::<Seq<char>>::empty());
        assert(text::texts(out@) =~= Seq::<Seq<char>>::empty());
    }
    while i < list.len()
        invariant
            i <= list@.len(),
            values.wf(),
            ops.wf(),
            all == text::word_views(list@),
            vn == table::text_view(values@),
            on == table::text_view(ops@),
            resolved_words(all.take(i as int), vn, on) == Ok::<Seq<Seq<char>>, Fault>(text::texts(out@)),
        decreases list.len() - i,
    {
        proof {
            assert(all.take(i as int + 1).drop_last() =~= all.take(i as int));
            assert(all.take(i as int + 1).last() == list@[i as int]@);
            resolved_words_prefix(all, vn, on, i as int + 1);
        }
        match resolve_word(list[i].as_slice(), values, ops) {
            Ok(w) => {
                proof {
                    text::texts_push(out@, w);
                }
                out.push(w);
            },
            Err(e) => {
                return Err(e);
            },
        }
        i = i + 1;
    }
    proof {
        assert(all.take(i as int) =~= all);
    }
    Ok(out)
}

fn resolve_ref(r: &[char], values: &TextTable<String>) -> (cid: Result<String, EvalError>)
    requires
        values.wf(),
    ensures
        expr::says(cid, resolved_ref(r@, table::text_view(values@))),
{
    if text::begins_with(r, "@") {
        proof {
            reveal_strlit("@");
        }
        let name = text::tail_from(r, 1);
        return match name_of(values, name) {
            Some(cid) => Ok(cid),
            None => {
                let text = text::string_of(name);
                Err(EvalError::UnknownWord(text::concat2("@", text.as_str())))
            },
        };
    }
    Ok(text::string_of(r))
}

/// Finds the last dot of a text.
fn find_last_dot(s: &[char]) -> (at: Option<usize>)
    ensures
        match at {
            Some(d) => d < s@.len() && last_dot(s@, s@.len()) == d,
            None => last_dot(s@, s@.len()) < 0,
        },
{
    let mut n: usize = s.len();
    while n > 0
        invariant
            n <= s@.len(),
            last_dot(s@, s@.len()) == last_dot(s@, n as nat),
        decreases n,
    {
        if s[n - 1] == '.' {
            return Some(n - 1);
        }
        n = n - 1;
    }
    None
}

fn split_op_port(s: &[char], ops: &TextTable<String>) -> (r: Result<(String, usize), EvalError>)
    requires
        ops.wf(),
    ensures
        match r {
            Ok(p) => split_port(s@, table::text_view(ops@)) == Ok::<(Seq<char>, nat), Fault>((p.0@, p.1 as nat)),
            Err(e) => split_port(s@, table::text_view(ops@)) == Err::<(Seq<char>, nat), Fault>(e@),
        },
{
    let d = match find_last_dot(s) {
        Some(d) => d,
        None => {
            let text = text::string_of(s);
            return Err(EvalError::Parse(text::concat3("port ", text.as_str(), " must be op.index")));
        },
    };
    let total = s.len();
    proof {
        assert(d < total);
    }
    let head = vstd::slice::slice_subrange(s, 0, d);
    let tail = text::tail_from(s, d + 1);
    proof {
        assert(head@ =~= s@.take(d as int));
    }
    let index = match text::parse_decimal(tail, usize::MAX as u64) {
        Some(n) => n as usize,
        None => {
            let text = text::string_of(s);
            return Err(EvalError::Parse(text::concat3("port index in ", text.as_str(), " is not an integer")));
        },
    };
    if text::begins_with(head, "p:") {
        return Ok((text::string_of(head), index));
    }
    match name_of(ops, head) {
        Some(cid) => Ok((cid, index)),
        None => Err(EvalError::MissingOp(text::string_of(head))),
    }
}

fn resolve_port(parts: &[Vec<char>], values: &TextTable<String>, ops: &TextTable<String>) -> (r: Result<Port, EvalError>)
    requires
        values.wf(),
        ops.wf(),
    ensures
        expr::says(r, link_source(text::word_views(parts@), table::text_view(values@), table::text_view(ops@))),
{
    if parts.len() == 0 {
        return Err(EvalError::Parse(text::copy_str("link source missing")));
    }
    let token = parts[0].as_slice();
    proof {
        assert(text::word_views(parts@)[0] == token@);
    }
    if text::begins_with(token, "value:") {
        proof {
            reveal_strlit("value:");
        }
        return match resolve_ref(text::tail_from(token, 6), values) {
            Ok(cid) => Ok(Port::Value(cid)),
            Err(e) => Err(e),
        };
    }
    if text::begins_with(token, "out:") {
        proof {
            reveal_strlit("out:");
        }
        return match split_op_port(text::tail_from(token, 4), ops) {
            Ok(p) => Ok(Port::OpOut { op: p.0, index: p.1 }),
            Err(e) => Err(e),
        };
    }
    let text = text::string_of(token);
    Err(EvalError::Parse(text::concat2("bad link source ", text.as_str())))
}

fn resolve_target(parts: &[Vec<char>], ops: &TextTable<String>) -> (r: Result<Target, EvalError>)
    requires
        ops.wf(),
    ensures
        expr::says(r, link_target(text::word_views(parts@), table::text_view(ops@))),
{
    if parts.len() == 0 {
        return Err(EvalError::Parse(text::copy_str("link target missing")));
    }
    let token = parts[0].as_slice();
    proof {
        assert(text::word_views(parts@)[0] == token@);
    }
    if text::begins_with(token, "in:") {
        proof {
            reveal_strlit("in:");
        }
        return match split_op_port(text::tail_from(token, 3), ops) {
            Ok(p) => Ok(Target::OpIn { op: p.0, index: p.1 }),
            Err(e) => Err(e),
        };
    }
    let text = text::string_of(token);
    Err(EvalError::Parse(text::concat2("bad link target ", text.as_str())))
}

/// The rest of a list of words.
fn words_behind(w: &[Vec<char>], at: usize) -> (rest: &[Vec<char>])
    requires
        at <= w@.len(),
    ensures
        text::word_views(rest@) == text::word_views(w@).skip(at as int),
        rest@.len() == w@.len() - at,
{
    let rest = vstd::slice::slice_subrange(w, at, w.len());
    proof {
        assert(text::word_views(rest@) =~= text::word_views(w@).skip(at as int));
    }
    rest
}

impl BootProgram {
    /// The program of the empty script.
    pub fn new() -> (p: BootProgram)
        ensures
            p.wf(),
            p.script() == blank(),
    {
        let p = BootProgram { graph: OpGraph::new(), stack: Vec::new(), fires: 0, vocab: Vocabulary::new() };
        proof {
            assert(text::texts(p.stack@) =~= Seq::<Seq<char>>::empty());
        }
        p
    }

    fn do_value(&mut self, n: usize, rest: &[Vec<char>]) -> (r: Result<(), EvalError>)
        requires
            old(self).wf(),
        ensures
            final(self).wf(),
            match r {
                Ok(_) => value_directive(old(self).script(), n as nat, text::word_views(rest@)) == Ok::<Script, Fault>(
                    final(self).script(),
                ),
                Err(e) => value_directive(old(self).script(), n as nat, text::word_views(rest@)) == Err::<Script, Fault>(e@),
            },
    {
        let ghost start = self.script();
        let ghost w = text::word_views(rest@);
        proof {
            assert(w.len() == rest@.len());
        }
        if rest.len() == 0 {
            return Err(plain_line_error(n, "value needs a name"));
        }
        let name = text::string_of(rest[0].as_slice());
        proof {
            assert(w[0] == name@);
        }
        if rest.len() == 1 {
            return Err(line_error(n, "value ", name.as_str(), " needs tokens"));
        }
        let mut tokens: Vec<Vec<u8>> = Vec::new();
        let mut i: usize = 1;
        while i < rest.len()
            invariant
                1 <= i <= rest@.len(),
                w == text::word_views(rest@),
                tokens@.len() == i - 1,
                forall|j: int| 0 <= j < tokens@.len() ==> (#[trigger] tokens@[j])@ == text::utf8(w[j + 1]),
            decreases rest.len() - i,
        {
            let word = text::string_of(rest[i].as_slice());
            tokens.push(vstd::slice::slice_to_vec(word.as_str().as_bytes()));
            i = i + 1;
        }
        let ghost raw = w.skip(1).map_values(|x: Seq<char>| text::utf8(x));
        proof {
            assert(hllset::token_views(tokens@) =~= raw);
        }
        let set = HLLSet::from_tokens(&tokens);
        let cid = self.graph.add_value(set);
        let ghost c = cid@;
        self.vocab.values.insert(name, cid);
        proof {
            assert(self.script().value_names =~= start.value_names.insert(w[0], c));
        }
        Ok(())
    }

    /// The source text of a definition.
    fn source_of(&self, n: usize, rest: &[Vec<char>]) -> (r: Result<String, EvalError>)
        requires
            self.wf(),
        ensures
            expr::says(r, def_source(self.script(), n as nat, text::word_views(rest@))),
    {
        let ghost w = text::word_views(rest@);
        proof {
            assert(w.len() == rest@.len());
        }
        if rest.len() == 0 {
            return Err(plain_line_error(n, "def needs a name"));
        }
        let name = text::string_of(rest[0].as_slice());
        let body = words_behind(rest, 1);
        let ghost b = w.skip(1);
        proof {
            assert(w[0] == name@);
            assert(text::word_views(body@) == b);
            assert(b.len() == body@.len());
            assert forall|j: int| 0 <= j < body@.len() implies #[trigger] body@[j]@ == b[j] by {
                assert(text::word_views(body@)[j] == body@[j]@);
            }
        }
        let open = find_word(body, "(");
        if open == body.len() {
            return Err(line_error(n, "def ", name.as_str(), " missing ("));
        }
        let close = find_word(body, ")");
        if close == body.len() {
            return Err(line_error(n, "def ", name.as_str(), " missing )"));
        }
        if open + 1 >= body.len() {
            return Err(line_error(n, "def ", name.as_str(), " missing arity"));
        }
        let arity = match text::parse_decimal(body[open + 1].as_slice(), usize::MAX as u64) {
            Some(k) => k,
            None => {
                return Err(line_error(n, "def ", name.as_str(), " arity is not an integer"));
            },
        };
        if close == 0 {
            return Err(line_error(n, "def ", name.as_str(), " missing outputs"));
        }
        let outputs = match text::parse_decimal(body[close - 1].as_slice(), usize::MAX as u64) {
            Some(k) => k,
            None => {
                return Err(line_error(n, "def ", name.as_str(), " outputs is not an integer"));
            },
        };
        let words = match resolve_words(words_behind(body, close + 1), &self.vocab.values, &self.vocab.ops) {
            Ok(v) => v,
            Err(e) => {
                return Err(e);
            },
        };
        let a = text::decimal_string(arity);
        let o = text::decimal_string(outputs);
        let head = text::concat3(a.as_str(), " ", o.as_str());
        let tail = text::join_texts(&words, " ");
        Ok(text::concat3(head.as_str(), " ", tail.as_str()))
    }

    fn do_def(&mut self, n: usize, rest: &[Vec<char>]) -> (r: Result<(), EvalError>)
        requires
            old(self).wf(),
        ensures
            final(self).wf(),
            match r {
                Ok(_) => def_directive(old(self).script(), n as nat, text::word_views(rest@)) == Ok::<Script, Fault>(
                    final(self).script(),
                ),
                Err(e) => def_directive(old(self).script(), n as nat, text::word_views(rest@)) == Err::<Script, Fault>(e@),
            },
    {
        let ghost start = self.script();
        let ghost w = text::word_views(rest@);
        let source = match self.source_of(n, rest) {
            Ok(s) => s,
            Err(e) => {
                return Err(e);
            },
        };
        let cid = match self.graph.add_op(source.as_str()) {
            Ok(c) => c,
            Err(e) => {
                return Err(e);
            },
        };
        proof {
            assert(w.len() == rest@.len());
            assert(rest@.len() > 0);
        }
        let name = text::string_of(rest[0].as_slice());
        let ghost c = cid@;
        proof {
            assert(w[0] == name@);
        }
        self.vocab.ops.insert(name, cid);
        proof {
            assert(self.script().op_names =~= start.op_names.insert(w[0], c));
        }
        Ok(())
    }

    fn do_link(&mut self, n: usize, rest: &[Vec<char>]) -> (r: Result<(), EvalError>)
        requires
            old(self).wf(),
        ensures
            final(self).wf(),
            match r {
                Ok(_) => link_directive(old(self).script(), n as nat, text::word_views(rest@)) == Ok::<Script, Fault>(
                    final(self).script(),
                ),
                Err(e) => link_directive(old(self).script(), n as nat, text::word_views(rest@)) == Err::<Script, Fault>(e@),
            },
    {
        let ghost w = text::word_views(rest@);
        proof {
            assert(w.len() == rest@.len());
        }
        let arrow = find_word(rest, "->");
        if arrow == rest.len() {
            return Err(plain_line_error(n, "link missing ->"));
        }
        let left = vstd::slice::slice_subrange(rest, 0, arrow);
        proof {
            assert(text::word_views(left@) =~= w.take(arrow as int));
        }
        let from = match resolve_port(left, &self.vocab.values, &self.vocab.ops) {
            Ok(p) => p,
            Err(e) => {
                return Err(e);
            },
        };
        let to = match resolve_target(words_behind(rest, arrow + 1), &self.vocab.ops) {
            Ok(t) => t,
            Err(e) => {
                return Err(e);
            },
        };
        self.graph.connect(from, to);
        Ok(())
    }

    fn do_stack(&mut self, rest: &[Vec<char>]) -> (r: Result<(), EvalError>)
        requires
            old(self).wf(),
        ensures
            final(self).wf(),
            match r {
                Ok(_) => stack_directive(old(self).script(), text::word_views(rest@)) == Ok::<Script, Fault>(
                    final(self).script(),
                ),
                Err(e) => stack_directive(old(self).script(), text::word_views(rest@)) == Err::<Script, Fault>(e@),
            },
    {
        let ghost all = text::word_views(rest@);
        let ghost names = self.vocab.value_names();
        let mut stack: Vec<String> = Vec::new();
        let mut i: usize = 0;
        proof {
            assert(all.take(0) =~= Seq::<Seq<char>>::empty());
            assert(text::texts(stack@) =~= Seq::<Seq<char>>::empty());
        }
        while i < rest.len()
            invariant
                i <= rest@.len(),
                *self == *old(self),
                self.wf(),
                all == text::word_views(rest@),
                names == self.vocab.value_names(),
                resolved_refs(all.take(i as int), names) == Ok::<Seq<Seq<char>>, Fault>(text::texts(stack@)),
            decreases rest.len() - i,
        {
            proof {
                assert(all.take(i as int + 1).drop_last() =~= all.take(i as int));
                assert(all.take(i as int + 1).last() == rest@[i as int]@);
                resolved_refs_prefix(all, names, i as int + 1);
            }
            match resolve_ref(rest[i].as_slice(), &self.vocab.values) {
                Ok(c) => {
                    proof {
                        text::texts_push(stack@, c);
                    }
                    stack.push(c);
                },
                Err(e) => {
                    return Err(e);
                },
            }
            i = i + 1;
        }
        proof {
            assert(all.take(i as int) =~= all);
        }
        self.stack = stack;
        Ok(())
    }

    fn do_fires(&mut self, n: usize, rest: &[Vec<char>]) -> (r: Result<(), EvalError>)
        requires
            old(self).wf(),
        ensures
            final(self).wf(),
            match r {
                Ok(_) => fires_directive(old(self).script(), n as nat, text::word_views(rest@)) == Ok::<Script, Fault>(
                    final(self).script(),
                ),
                Err(e) => fires_directive(old(self).script(), n as nat, text::word_views(rest@)) == Err::<Script, Fault>(e@),
            },
    {
        let ghost w = text::word_views(rest@);
        proof {
            assert(w.len() == rest@.len());
        }
        if rest.len() == 0 {
            return Err(plain_line_error(n, "fires needs a number"));
        }
        proof {
            assert(w[0] == rest@[0]@);
        }
        match text::parse_decimal(rest[0].as_slice(), usize::MAX as u64) {
            Some(k) => {
                self.fires = k as usize;
                Ok(())
            },
            None => Err(plain_line_error(n, "fires is not an integer")),
        }
    }

    /// Carries out a line of words.
    fn do_line(&mut self, n: usize, w: &[Vec<char>]) -> (r: Result<(), EvalError>)
        requires
            old(self).wf(),
            w@.len() > 0,
        ensures
            final(self).wf(),
            match r {
                Ok(_) => directive(old(self).script(), n as nat, text::word_views(w@)) == Ok::<Script, Fault>(
                    final(self).script(),
                ),
                Err(e) => directive(old(self).script(), n as nat, text::word_views(w@)) == Err::<Script, Fault>(e@),
            },
    {
        proof {
            assert(text::word_views(w@)[0] == w@[0]@);
            reveal_strlit("value");
            reveal_strlit("def");
            reveal_strlit("link");
            reveal_strlit("stack");
            reveal_strlit("fires");
        }
        let rest = words_behind(w, 1);
        let head = w[0].as_slice();
        if text::spells(head, "value") {
            return self.do_value(n, rest);
        }
        if text::spells(head, "def") {
            return self.do_def(n, rest);
        }
        if text::spells(head, "link") {
            return self.do_link(n, rest);
        }
        if text::spells(head, "stack") {
            return self.do_stack(rest);
        }
        if text::spells(head, "fires") {
            return self.do_fires(n, rest);
        }
        let other = text::string_of(head);
        let text = text::concat2("unknown directive ", other.as_str());
        Err(plain_line_error(n, text.as_str()))
    }
}

/// A line with something on it has words.
proof fn line_has_words(line: Seq<char>)
    requires
        line.len() > 0,
        !text::is_space(line[0]),
    ensures
        text::words(line).len() > 0,
{
    text::next_space_bounds(line, 0, false);
    text::next_space_bounds(line, 0, true);
    assert(text::next_space(line, 0, false) == 0);
    assert(text::next_space(line, 0, true) > 0);
}

/// A trimmed text does not start with white space.
proof fn trimmed_start(s: Seq<char>)
    ensures
        text::trimmed(s).len() > 0 ==> !text::is_space(text::trimmed(s)[0]),
{
    text::next_space_bounds(s, 0, false);
    trim_end_bounds(s, s.len() as int);
}

proof fn trim_end_bounds(s: Seq<char>, to: int)
    requires
        0 <= to <= s.len(),
    ensures
        0 <= text::trim_end(s, to) <= to,
    decreases to,
{
    if to > 0 && text::is_space(s[to - 1]) {
        trim_end_bounds(s, to - 1);
    }
}

/// Compiles a boot script.
pub fn compile_boot(script: &str) -> (r: Result<BootProgram, EvalError>)
    ensures
        match r {
            Ok(p) => p.wf() && script_of(script@) == Ok::<Script, Fault>(p.script()),
            Err(e) => script_of(script@) == Err::<Script, Fault>(e@),
        },
{
    let chars = text::chars_of(script);
    let lines = text::split_pieces(chars.as_slice(), '\n');
    let ghost all = text::pieces(script@, '\n');
    let mut p = BootProgram::new();
    let mut i: usize = 0;
    proof {
        assert(text::word_views(lines@).len() == lines@.len());
    }
    while i < lines.len()
        invariant
            i <= lines@.len(),
            p.wf(),
            all == text::pieces(script@, '\n'),
            all.len() == lines@.len(),
            forall|j: int| 0 <= j < lines@.len() ==> #[trigger] lines@[j]@ == all[j],
            scripted(all, i as nat) == Ok::<Script, Fault>(p.script()),
        decreases lines.len() - i,
    {
        proof {
            scripted_prefix(all, (i + 1) as nat, all.len());
            trimmed_start(all[i as int]);
        }
        let line = text::trim(lines[i].as_slice());
        let quiet: bool = line.len() == 0 || line[0] == '#';
        if !quiet {
            proof {
                line_has_words(line@);
            }
            let w = text::split_words(line);
            proof {
                assert(text::word_views(w@).len() == w@.len());
            }
            match p.do_line(i + 1, w.as_slice()) {
                Ok(_) => {},
                Err(e) => {
                    return Err(e);
                },
            }
        }
        i = i + 1;
    }
    Ok(p)
}

/// A word is found at the first place where it stands.
proof fn next_word_facts(w: Seq<Seq<char>>, from: int, word: Seq<char>)
    requires
        0 <= from <= w.len(),
    ensures
        from <= next_word(w, from, word) <= w.len(),
        next_word(w, from, word) < w.len() ==> w[next_word(w, from, word)] == word,
        forall|i: int| from <= i < next_word(w, from, word) ==> #[trigger] w[i] != word,
    decreases w.len() - from,
{
    if from < w.len() && w[from] != word {
        next_word_facts(w, from + 1, word);
    }
}

proof fn last_dot_facts(s: Seq<char>, n: nat)
    requires
        n <= s.len(),
    ensures
        -1 <= last_dot(s, n) < n,
        last_dot(s, n) >= 0 ==> s[last_dot(s, n)] == '.',
        forall|i: int| last_dot(s, n) < i < n ==> #[trigger] s[i] != '.',
    decreases n,
{
    if n > 0 && s[n - 1] != '.' {
        last_dot_facts(s, (n - 1) as nat);
    }
}

/// A port is an operator and a place with a dot between them: a name stands for the
/// operator of that name, an id for itself.
pub proof fn port_law(op: Seq<char>, place: nat, ops: Map<Seq<char>, Seq<char>>)
    requires
        place <= usize::MAX,
    ensures
        ({
            let port = split_port(op + "."@ + text::decimal(place), ops);
            &&& "p:"@.is_prefix_of(op) ==> port == Ok::<(Seq<char>, nat), Fault>((op, place))
            &&& !"p:"@.is_prefix_of(op) && ops.dom().contains(op) ==> port == Ok::<(Seq<char>, nat), Fault>((ops[op], place))
            &&& !"p:"@.is_prefix_of(op) && !ops.dom().contains(op) ==> port == Err::<(Seq<char>, nat), Fault>(
                Fault::MissingOp(op),
            )
        }),
{
    reveal_strlit(".");
    let digits = text::decimal(place);
    let s = op + "."@ + digits;
    text::decimal_round_trip(place, usize::MAX as nat);
    last_dot_facts(s, s.len());
    let d = last_dot(s, s.len());
    let n = op.len() as int;
    assert(s[n] == '.');
    assert forall|i: int| n < i < s.len() implies #[trigger] s[i] != '.' by {
        assert(s[i] == digits[i - n - 1]);
        assert(text::is_digit(digits[i - n - 1]));
    }
    assert(d == n);
    assert(s.take(n) =~= op);
    assert(s.skip(n + 1) =~= digits);
}

/// Each reference is resolved by itself, in place.
pub proof fn references_law(list: Seq<Seq<char>>, values: Map<Seq<char>, Seq<char>>, name: Seq<char>)
    ensures
        resolved_refs(list, values) matches Ok(l) ==> l.len() == list.len() && forall|i: int|
            0 <= i < list.len() ==> resolved_ref(#[trigger] list[i], values) == Ok::<Seq<char>, Fault>(l[i]),
        (forall|i: int| 0 <= i < list.len() ==> resolved_ref(#[trigger] list[i], values) is Ok) ==> resolved_refs(list, values) is Ok,
        values.dom().contains(name) ==> resolved_ref("@"@ + name, values) == Ok::<Seq<char>, Fault>(values[name]),
        !values.dom().contains(name) ==> resolved_ref("@"@ + name, values) == Err::<Seq<char>, Fault>(
            Fault::UnknownWord("@"@ + name),
        ),
        name.len() > 0 && name[0] != '@' ==> resolved_ref(name, values) == Ok::<Seq<char>, Fault>(name),
    decreases list.len(),
{
    reveal_strlit("@");
    let v = "@"@ + name;
    assert("@"@ =~= v.subrange(0, 1));
    assert(v.skip(1) =~= name);
    if name.len() > 0 && "@"@.is_prefix_of(name) {
        assert(name.subrange(0, 1)[0] == "@"@[0]);
    }
    if list.len() > 0 {
        let front = list.drop_last();
        references_law(front, values, name);
        assert forall|i: int| 0 <= i < front.len() implies #[trigger] front[i] == list[i] by {}
        assert(list.last() == list[list.len() - 1]);
        if resolved_refs(list, values) is Ok {
            let l = resolved_refs(list, values)->Ok_0;
            assert forall|i: int| 0 <= i < list.len() implies resolved_ref(#[trigger] list[i], values) == Ok::<Seq<char>, Fault>(l[i]) by {
                if i < front.len() {
                    assert(front[i] == list[i]);
                }
            }
        }
        if forall|i: int| 0 <= i < list.len() ==> resolved_ref(#[trigger] list[i], values) is Ok {
            assert forall|i: int| 0 <= i < front.len() implies resolved_ref(#[trigger] front[i], values) is Ok by {
                assert(front[i] == list[i]);
            }
        }
    }
}

/// Each word of a definition is resolved by itself, in place; a value's name behind
/// `@` and an operator's behind `call:` give way to the id, any other word stays.
pub proof fn resolution_law(
    list: Seq<Seq<char>>,
    values: Map<Seq<char>, Seq<char>>,
    ops: Map<Seq<char>, Seq<char>>,
    name: Seq<char>,
)
    ensures
        resolved_words(list, values, ops) matches Ok(l) ==> l.len() == list.len() && forall|i: int|
            0 <= i < list.len() ==> resolved_word(#[trigger] list[i], values, ops) == Ok::<Seq<char>, Fault>(l[i]),
        values.dom().contains(name) ==> resolved_word("@"@ + name, values, ops) == Ok::<Seq<char>, Fault>("@"@ + values[name]),
        ops.dom().contains(name) ==> resolved_word("call:"@ + name, values, ops) == Ok::<Seq<char>, Fault>(
            "call:"@ + ops[name],
        ),
        !values.dom().contains(name) ==> resolved_word("@"@ + name, values, ops) is Err,
        !ops.dom().contains(name) ==> resolved_word("call:"@ + name, values, ops) is Err,
        !"@"@.is_prefix_of(name) && !"call:"@.is_prefix_of(name) ==> resolved_word(name, values, ops) == Ok::<Seq<char>, Fault>(
            name,
        ),
    decreases list.len(),
{
    reveal_strlit("@");
    reveal_strlit("call:");
    let v = "@"@ + name;
    assert("@"@ =~= v.subrange(0, 1));
    assert(v.skip(1) =~= name);
    let c = "call:"@ + name;
    assert("call:"@ =~= c.subrange(0, 5));
    assert(c.skip(5) =~= name);
    if "@"@.is_prefix_of(c) {
        assert(c.subrange(0, 1)[0] == "@"@[0]);
        assert(c[0] == 'c');
    }
    if list.len() > 0 {
        let front = list.drop_last();
        resolution_law(front, values, ops, name);
        if resolved_words(list, values, ops) is Ok {
            let l = resolved_words(list, values, ops)->Ok_0;
            assert forall|i: int| 0 <= i < list.len() implies resolved_word(#[trigger] list[i], values, ops) == Ok::<
                Seq<char>,
                Fault,
            >(l[i]) by {
                if i < front.len() {
                    assert(front[i] == list[i]);
                }
            }
        }
    }
}

/// A line `value NAME TOKEN..` is accepted if and only if there is a name and a token.
/// It stores the set of the first-seed bits of all its tokens, and of nothing else,
/// under the set's key, and names that key; the rest of the script stays.
pub proof fn value_line_law(s: Script, n: nat, w: Seq<Seq<char>>, set: Set<u32>)
    requires
        w.len() > 0,
        w[0] == "value"@,
        forall|b: u32| #[trigger]
            set.contains(b) <==> exists|j: int| 2 <= j < w.len() && b == hashing::token_bit(text::utf8(#[trigger] w[j]), 0),
    ensures
        directive(s, n, w) is Ok <==> w.len() >= 3,
        directive(s, n, w) matches Ok(t) ==> {
            let key = hllset::key_of(set);
            &&& t.value_names == s.value_names.insert(w[1], key)
            &&& t.values.dom().contains(key)
            &&& !s.values.dom().contains(key) ==> t.values[key] == set
            &&& forall|j: int|
                2 <= j < w.len() && !s.values.dom().contains(key) ==> t.values[key].contains(
                    hashing::token_bit(text::utf8(#[trigger] w[j]), 0),
                )
            &&& s.values.submap_of(t.values)
            &&& t.values.dom() == s.values.dom().insert(key)
            &&& t.ops == s.ops && t.op_names == s.op_names && t.wires == s.wires && t.stack == s.stack && t.fires == s.fires
        },
{
    let rest = w.skip(1);
    if w.len() >= 3 {
        let raw = rest.skip(1).map_values(|x: Seq<char>| text::utf8(x));
        let bits = hllset::token_bits(raw, 0);
        assert forall|b: u32| bits.contains(b) == set.contains(b) by {
            if bits.contains(b) {
                let i = choose|i: int| 0 <= i < raw.len() && hashing::token_bit(#[trigger] raw[i], 0) == b;
                assert(raw[i] == text::utf8(w[i + 2]));
            }
            if set.contains(b) {
                let j = choose|j: int| 2 <= j < w.len() && b == hashing::token_bit(text::utf8(#[trigger] w[j]), 0);
                assert(raw[j - 2] == text::utf8(w[j]));
            }
        }
        assert(bits =~= set);
        assert(rest[0] == w[1]);
        let t = directive(s, n, w)->Ok_0;
        assert(t.values.dom() =~= s.values.dom().insert(hllset::key_of(set)));
    }
}

/// A line `def NAME .. ( ARITY .. OUTPUTS ) WORD..` adds an operator with these
/// numbers: the number behind the first `(`, the number before the first `)`, and one
/// word for each word behind that, with names replaced by ids. It stands under the id
/// that the name then has. The ids that names stand for must be without spaces.
pub proof fn def_line_law(s: Script, n: nat, w: Seq<Seq<char>>, open: int, close: int)
    requires
        w.len() > 1,
        w[0] == "def"@,
        2 <= open < w.len(),
        2 <= close < w.len(),
        w[open] == "("@,
        w[close] == ")"@,
        forall|j: int| 2 <= j < open ==> #[trigger] w[j] != "("@,
        forall|j: int| 2 <= j < close ==> #[trigger] w[j] != ")"@,
        forall|j: int| 0 <= j < w.len() ==> text::solid(#[trigger] w[j]),
        forall|k: Seq<char>| #[trigger] s.value_names.dom().contains(k) ==> text::solid(s.value_names[k]),
        forall|k: Seq<char>| #[trigger] s.op_names.dom().contains(k) ==> text::solid(s.op_names[k]),
    ensures
        directive(s, n, w) matches Ok(t) ==> {
            let id = t.op_names[w[1]];
            let e = t.ops[id].expr;
            &&& t.op_names == s.op_names.insert(w[1], id)
            &&& t.ops.dom() == s.ops.dom().insert(id)
            &&& s.ops.submap_of(t.ops)
            &&& open + 1 < w.len() && close > 2
            &&& !s.ops.dom().contains(id) ==> {
                &&& Some(t.ops[id].arity) == text::parsed(w[open + 1], usize::MAX as nat)
                &&& Some(t.ops[id].outputs) == text::parsed(w[close - 1], usize::MAX as nat)
                &&& e.arity == t.ops[id].arity && e.outputs == t.ops[id].outputs
                &&& e.words.len() == w.len() - close - 1
                &&& forall|j: int| close < j < w.len() ==> resolved_word(#[trigger] w[j], s.value_names, s.op_names) is Ok
                &&& forall|i: int|
                    0 <= i < e.words.len() ==> expr::word_of(
                        resolved_word(w[close + 1 + i], s.value_names, s.op_names)->Ok_0,
                    ) == Ok::<expr::WordModel, Fault>(#[trigger] e.words[i])
            }
            &&& t.values == s.values && t.value_names == s.value_names && t.wires == s.wires && t.stack == s.stack && t.fires
                == s.fires
        },
{
    reveal_strlit("def");
    reveal_strlit("value");
    reveal_strlit(" ");
    assert("def"@.len() != "value"@.len());
    let rest = w.skip(1);
    let body = rest.skip(1);
    assert forall|j: int| 0 <= j < body.len() implies #[trigger] body[j] == w[j + 2] by {}
    next_word_facts(body, 0, "("@);
    next_word_facts(body, 0, ")"@);
    assert(next_word(body, 0, "("@) == open - 2) by {
        assert(body[open - 2] == w[open]);
        let k = next_word(body, 0, "("@);
        if k < open - 2 {
            assert(w[k + 2] == body[k]);
        }
    }
    assert(next_word(body, 0, ")"@) == close - 2) by {
        assert(body[close - 2] == w[close]);
        let k = next_word(body, 0, ")"@);
        if k < close - 2 {
            assert(w[k + 2] == body[k]);
        }
    }
    if directive(s, n, w) is Ok {
        let t = directive(s, n, w)->Ok_0;
        let source = def_source(s, n, rest)->Ok_0;
        let arity = text::parsed(body[open - 2 + 1], usize::MAX as nat)->0;
        let outputs = text::parsed(body[close - 2 - 1], usize::MAX as nat)->0;
        assert(body[open - 1] == w[open + 1]);
        assert(body[close - 3] == w[close - 1]);
        let given = body.skip(close - 2 + 1);
        let words = resolved_words(given, s.value_names, s.op_names)->Ok_0;
        resolution_law(given, s.value_names, s.op_names, Seq::empty());
        assert forall|i: int| 0 <= i < words.len() implies text::solid(#[trigger] words[i]) by {
            assert(given[i] == w[close + 1 + i]);
            solid_word(given[i], s.value_names, s.op_names);
        }
        let a = text::decimal(arity);
        let o = text::decimal(outputs);
        source_words(a, o, words, arity, outputs);
        assert(source == a + " "@ + o + " "@ + text::joined(words, " "@));
        assert(seq![' '] =~= " "@);
        let all = seq![a, o] + words;
        assert(text::words(source) == all);
        expr::compiled_law(source);
        text::decimal_round_trip(arity, usize::MAX as nat);
        text::decimal_round_trip(outputs, usize::MAX as nat);
        let x = expr::compiled(source)->Ok_0;
        let id = expr::op_key(source);
        assert(rest[0] == w[1]);
        assert(t.op_names[w[1]] == id);
        assert(t.ops.dom() =~= s.ops.dom().insert(id));
        assert(all[0] == a && all[1] == o);
        assert(x.arity == arity && x.outputs == outputs);
        assert forall|j: int| close < j < w.len() implies resolved_word(#[trigger] w[j], s.value_names, s.op_names) is Ok by {
            assert(given[j - close - 1] == w[j]);
        }
        assert forall|i: int| 0 <= i < x.words.len() implies expr::word_of(
            resolved_word(w[close + 1 + i], s.value_names, s.op_names)->Ok_0,
        ) == Ok::<expr::WordModel, Fault>(#[trigger] x.words[i]) by {
            assert(given[i] == w[close + 1 + i]);
            assert(all[i + 2] == words[i]);
        }
    }
}

/// A word that is resolved with ids without spaces has none itself.
proof fn solid_word(w: Seq<char>, values: Map<Seq<char>, Seq<char>>, ops: Map<Seq<char>, Seq<char>>)
    requires
        text::solid(w),
        forall|k: Seq<char>| #[trigger] values.dom().contains(k) ==> text::solid(values[k]),
        forall|k: Seq<char>| #[trigger] ops.dom().contains(k) ==> text::solid(ops[k]),
    ensures
        resolved_word(w, values, ops) matches Ok(x) ==> text::solid(x),
{
    reveal_strlit("@");
    reveal_strlit("call:");
    if resolved_word(w, values, ops) is Ok {
        let x = resolved_word(w, values, ops)->Ok_0;
        assert forall|i: int| 0 <= i < x.len() implies !text::is_space(#[trigger] x[i]) by {
            if "@"@.is_prefix_of(w) {
                let id = values[w.skip(1)];
                if i > 0 {
                    assert(x[i] == id[i - 1]);
                } else {
                    assert(x[0] == '@');
                }
            } else if "call:"@.is_prefix_of(w) {
                let id = ops[w.skip(5)];
                if i >= 5 {
                    assert(x[i] == id[i - 5]);
                } else {
                    assert(x[i] == "call:"@[i]);
                }
            }
        }
    }
}

/// The words of a definition's source text.
proof fn source_words(a: Seq<char>, o: Seq<char>, words: Seq<Seq<char>>, arity: nat, outputs: nat)
    requires
        a == text::decimal(arity),
        o == text::decimal(outputs),
        forall|i: int| 0 <= i < words.len() ==> text::solid(#[trigger] words[i]),
    ensures
        text::words(a + seq![' '] + o + seq![' '] + text::joined(words, seq![' '])) == seq![a, o] + words,
{
    text::decimal_round_trip(arity, arity);
    text::decimal_round_trip(outputs, outputs);
    assert forall|i: int| 0 <= i < a.len() implies !text::is_space(#[trigger] a[i]) by {
        assert(text::is_digit(a[i]));
    }
    assert forall|i: int| 0 <= i < o.len() implies !text::is_space(#[trigger] o[i]) by {
        assert(text::is_digit(o[i]));
    }
    text::words_of_joined(words);
    let tail = text::joined(words, seq![' ']);
    let rest = o.push(' ') + tail;
    text::words_law(o, ' ', tail);
    text::words_law(a, ' ', rest);
    assert(a + seq![' '] + o + seq![' '] + tail =~= a.push(' ') + rest);
    assert(seq![a] + (seq![o] + words) =~= seq![a, o] + words);
}

/// A line `link SOURCE -> TARGET` adds one edge, behind the others: from a value
/// (`value:`) or an out-port (`out:`) to an in-port (`in:`). Nothing else changes.
pub proof fn link_line_law(s: Script, n: nat, w: Seq<Seq<char>>, source: Seq<char>, target: Seq<char>)
    requires
        source != "->"@,
        w == seq!["link"@, source, "->"@, target],
    ensures
        directive(s, n, w) matches Ok(t) ==> {
            let edge = t.wires.last();
            &&& t.wires == s.wires.push(edge)
            &&& "in:"@.is_prefix_of(target) && split_port(target.skip(3), s.op_names) == Ok::<(Seq<char>, nat), Fault>(edge.1)
            &&& edge.0 matches PortModel::Value(cid) ==> "value:"@.is_prefix_of(source) && resolved_ref(
                source.skip(6),
                s.value_names,
            ) == Ok::<Seq<char>, Fault>(cid)
            &&& edge.0 matches PortModel::OpOut { op, index } ==> "out:"@.is_prefix_of(source) && split_port(
                source.skip(4),
                s.op_names,
            ) == Ok::<(Seq<char>, nat), Fault>((op, index))
            &&& t.values == s.values && t.value_names == s.value_names && t.ops == s.ops && t.op_names == s.op_names && t.stack
                == s.stack && t.fires == s.fires
        },
        "value:"@.is_prefix_of(source) && resolved_ref(source.skip(6), s.value_names) is Ok && "in:"@.is_prefix_of(target)
            && split_port(target.skip(3), s.op_names) is Ok ==> directive(s, n, w) is Ok,
        "out:"@.is_prefix_of(source) && split_port(source.skip(4), s.op_names) is Ok && "in:"@.is_prefix_of(target)
            && split_port(target.skip(3), s.op_names) is Ok ==> directive(s, n, w) is Ok,
{
    reveal_strlit("link");
    reveal_strlit("value");
    reveal_strlit("def");
    reveal_strlit("value:");
    reveal_strlit("out:");
    assert("link"@.len() != "value"@.len() && "link"@.len() != "def"@.len());
    let rest = w.skip(1);
    assert(rest =~= seq![source, "->"@, target]);
    next_word_facts(rest, 0, "->"@);
    assert(rest[1] == "->"@);
    assert(next_word(rest, 0, "->"@) == 1);
    assert(rest.take(1)[0] == source);
    assert(rest.skip(2)[0] == target);
    if "value:"@.is_prefix_of(source) && "out:"@.is_prefix_of(source) {
        assert(source.subrange(0, 6)[0] == "value:"@[0]);
        assert(source.subrange(0, 4)[0] == "out:"@[0]);
    }
}

/// A line `stack REF..` makes the stack of its references, the first at the bottom; a
/// line `fires N` makes the budget. Nothing else changes.
pub proof fn stack_line_law(s: Script, n: nat, w: Seq<Seq<char>>)
    requires
        w.len() > 0,
    ensures
        w[0] == "stack"@ ==> (directive(s, n, w) matches Ok(t) ==> {
            &&& t.stack.len() == w.len() - 1
            &&& forall|i: int|
                1 <= i < w.len() ==> resolved_ref(#[trigger] w[i], s.value_names) == Ok::<Seq<char>, Fault>(t.stack[i - 1])
            &&& t == (Script { stack: t.stack, ..s })
        }),
        w[0] == "stack"@ && (forall|i: int| 1 <= i < w.len() ==> resolved_ref(#[trigger] w[i], s.value_names) is Ok)
            ==> directive(s, n, w) is Ok,
        w[0] == "fires"@ ==> (directive(s, n, w) is Ok <==> w.len() >= 2 && text::parsed(w[1], usize::MAX as nat) is Some),
        w[0] == "fires"@ ==> (directive(s, n, w) matches Ok(t) ==> Some(t.fires) == text::parsed(w[1], usize::MAX as nat) && t
            == (Script { fires: t.fires, ..s })),
        w[0] != "value"@ && w[0] != "def"@ && w[0] != "link"@ && w[0] != "stack"@ && w[0] != "fires"@ ==> directive(s, n, w) is Err,
{
    reveal_strlit("value");
    reveal_strlit("def");
    reveal_strlit("link");
    reveal_strlit("stack");
    reveal_strlit("fires");
    assert("stack"@[0] != "value"@[0] && "fires"@[0] != "value"@[0] && "fires"@[0] != "stack"@[0]);
    assert("def"@.len() == 3 && "link"@.len() == 4 && "stack"@.len() == 5 && "fires"@.len() == 5);
    let rest = w.skip(1);
    assert forall|i: int| 0 <= i < rest.len() implies #[trigger] rest[i] == w[i + 1] by {}
    references_law(rest, s.value_names, Seq::empty());
    if w[0] == "stack"@ {
        if directive(s, n, w) is Ok {
            let t = directive(s, n, w)->Ok_0;
            assert forall|i: int| 1 <= i < w.len() implies resolved_ref(#[trigger] w[i], s.value_names) == Ok::<Seq<char>, Fault>(
                t.stack[i - 1],
            ) by {
                assert(rest[i - 1] == w[i]);
            }
        }
        if forall|i: int| 1 <= i < w.len() ==> resolved_ref(#[trigger] w[i], s.value_names) is Ok {
            assert forall|i: int| 0 <= i < rest.len() implies resolved_ref(#[trigger] rest[i], s.value_names) is Ok by {
                assert(rest[i] == w[i + 1]);
            }
        }
    }
}

/// A script is read line by line: behind lines that say `s`, an empty line or one that
/// starts with `#` says no more, and any other line does what its words say. A fault
/// stays a fault.
pub proof fn script_line_law(lines: Seq<Seq<char>>, n: nat)
    requires
        n < lines.len(),
    ensures
        scripted(lines, 0) == Ok::<Script, Fault>(blank()),
        ({
            let line = text::trimmed(lines[n as int]);
            match scripted(lines, n) {
                Ok(s) => scripted(lines, n + 1) == (if line.len() == 0 || line[0] == '#' {
                    Ok(s)
                } else {
                    directive(s, n + 1, text::words(line))
                }),
                Err(e) => scripted(lines, n + 1) == Err::<Script, Fault>(e),
            }
        }),
{
}

} // verus!
