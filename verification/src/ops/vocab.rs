//! The vocabulary of a boot program: the names of its operators and values.

use vstd::prelude::*;

use crate::table::TextTable;
use crate::digest;
use crate::order;
use crate::table;
use crate::text;

verus! {

/// Names of operators and of values.
#[derive(Clone, Debug, PartialEq, Eq)]
pub struct Vocabulary {
    pub ops: TextTable<String>,
    pub values: TextTable<String>,
}

/// The rows of named things: a word, the name, a blank and the id.
pub open spec fn named_rows(word: Seq<char>, m: Map<Seq<char>, Seq<char>>) -> Seq<Seq<char>> {
    table::listed(m).map_values(|n: Seq<char>| word + n + " "@ + m[n])
}

/// The canonical text: all rows, sorted, one per line.
pub open spec fn canonical_text(ops: Map<Seq<char>, Seq<char>>, values: Map<Seq<char>, Seq<char>>) -> Seq<char> {
    text::joined(order::ranked(named_rows("op:"@, ops) + named_rows("value:"@, values), table::text_rank()), "\n"@)
}

impl Vocabulary {
    pub open spec fn wf(&self) -> bool {
        self.ops.wf() && self.values.wf()
    }

    /// The ids of operators by name.
    pub open spec fn op_names(&self) -> Map<Seq<char>, Seq<char>> {
        table::text_view(self.ops@)
    }

    /// The keys of values by name.
    pub open spec fn value_names(&self) -> Map<Seq<char>, Seq<char>> {
        table::text_view(self.values@)
    }

    pub fn new() -> (v: Vocabulary)
        ensures
            v.wf(),
            v.op_names() == Map::<Seq<char>, Seq<char>>::empty(),
            v.value_names() == Map::<Seq<char>, Seq<char>>::empty(),
    {
        let v = Vocabulary { ops: TextTable::new(), values: TextTable::new() };
        proof {
            assert(v.op_names() =~= Map::<Seq<char>, Seq<char>>::empty());
            assert(v.value_names() =~= Map::<Seq<char>, Seq<char>>::empty());
        }
        v
    }

    pub fn is_empty(&self) -> (yes: bool)
        requires
            self.wf(),
        ensures
            yes == (self.op_names() == Map::<Seq<char>, Seq<char>>::empty() && self.value_names() == Map::<
                Seq<char>,
                Seq<char>,
            >::empty()),
    {
        let a = self.ops.is_empty();
        let b = self.values.is_empty();
        proof {
            assert(self.op_names().dom() =~= self.ops@.dom());
            assert(self.value_names().dom() =~= self.values@.dom());
            if a {
                assert(self.op_names() =~= Map::<Seq<char>, Seq<char>>::empty());
            } else if self.op_names() == Map::<Seq<char>, Seq<char>>::empty() {
                assert(self.ops@ =~= Map::<Seq<char>, String>::empty());
            }
            if b {
                assert(self.value_names() =~= Map::<Seq<char>, Seq<char>>::empty());
            } else if self.value_names() == Map::<Seq<char>, Seq<char>>::empty() {
                assert(self.values@ =~= Map::<Seq<char>, String>::empty());
            }
        }
        a && b
    }

    /// The canonical text of the vocabulary.
    pub fn canonical(&self) -> (s: String)
        requires
            self.wf(),
        ensures
            s@ == canonical_text(self.op_names(), self.value_names()),
    {
        let mut rows = rows_of("op:", &self.ops);
        let mut more = rows_of("value:", &self.values);
        let ghost a = rows@;
        let ghost b = more@;
        rows.append(&mut more);
        proof {
            assert(text::texts(rows@) =~= text::texts(a) + text::texts(b));
        }
        let sorted = table::sort_texts(rows);
        text::join_texts(&sorted, "\n")
    }

    /// The id of the vocabulary: `v:` and the SHA-1 of its canonical text.
    pub fn cid(&self) -> (s: String)
        requires
            self.wf(),
        ensures
            s@ == "v:"@ + digest::sha1_text(text::utf8(canonical_text(self.op_names(), self.value_names()))),
    {
        let text = self.canonical();
        let digest = digest::sha1_hex(text.as_str().as_bytes());
        text::concat2("v:", digest.as_str())
    }

    /// Takes over the names of another vocabulary; they win over names here.
    pub fn merge(&mut self, other: Vocabulary)
        requires
            old(self).wf(),
            other.wf(),
        ensures
            final(self).wf(),
            final(self).op_names() == old(self).op_names().union_prefer_right(other.op_names()),
            final(self).value_names() == old(self).value_names().union_prefer_right(other.value_names()),
    {
        self.ops.extend(other.ops);
        self.values.extend(other.values);
    }
}

/// The rows of a table.
fn rows_of(word: &str, table: &TextTable<String>) -> (rows: Vec<String>)
    requires
        table.wf(),
    ensures
        text::texts(rows@) == named_rows(word@, table::text_view(table@)),
{
    let ghost m = table::text_view(table@);
    let ghost names = table.names();
    let mut rows: Vec<String> = Vec::new();
    let mut i: usize = 0;
    proof {
        table.listed_names();
    }
    while i < table.len()
        invariant
            i <= names.len(),
            table.wf(),
            names == table.names(),
            names.to_set() == m.dom(),
            m == table::text_view(table@),
            rows@.len() == i,
            forall|j: int| 0 <= j < i ==> (#[trigger] rows@[j])@ == word@ + names[j] + " "@ + m[names[j]],
        decreases names.len() - i,
    {
        let e = table.at(i);
        proof {
            assert(names.to_set().contains(names[i as int]));
        }
        let head = text::concat3(word, e.0.as_str(), " ");
        rows.push(text::concat2(head.as_str(), e.1.as_str()));
        i = i + 1;
    }
    proof {
        assert(text::texts(rows@) =~= named_rows(word@, m));
    }
    rows
}

/// Merging is idempotent and associative; a name of the later vocabulary shadows
/// the same name of the earlier one, and no name is lost.
pub proof fn vocabulary_law(
    a: Map<Seq<char>, Seq<char>>,
    b: Map<Seq<char>, Seq<char>>,
    c: Map<Seq<char>, Seq<char>>,
)
    ensures
        a.union_prefer_right(a) == a,
        a.union_prefer_right(b).union_prefer_right(c) == a.union_prefer_right(b.union_prefer_right(c)),
        forall|n: Seq<char>| #[trigger] b.dom().contains(n) ==> a.union_prefer_right(b)[n] == b[n],
        a.union_prefer_right(b).dom() == a.dom().union(b.dom()),
{
    assert(a.union_prefer_right(a) =~= a);
    assert(a.union_prefer_right(b).union_prefer_right(c) =~= a.union_prefer_right(b.union_prefer_right(c)));
    assert(a.union_prefer_right(b).dom() =~= a.dom().union(b.dom()));
}

} // verus!
