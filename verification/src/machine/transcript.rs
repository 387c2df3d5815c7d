//! What is told of a run: a text for each turn, and one at the end.

use vstd::prelude::*;

use crate::git::object::ObjectId;
use crate::git::object::ObjectModel;
use crate::git::object::Gx;
use crate::git::view::CommitView;
use crate::machine::turn::TurnOutcome;
use crate::git::view;
use crate::text;
use crate::git::object;
use crate::machine::snapshot;

verus! {

/// A number with spaces before it, up to three places.
pub open spec fn padded(n: nat) -> Seq<char> {
    if n < 10 {
        "  "@ + text::decimal(n)
    } else if n < 100 {
        " "@ + text::decimal(n)
    } else {
        text::decimal(n)
    }
}

fn pad(n: u64) -> (s: String)
    ensures
        s@ == padded(n as nat),
{
    let digits = text::decimal_string(n);
    if n < 10 {
        text::concat2("  ", digits.as_str())
    } else if n < 100 {
        text::concat2(" ", digits.as_str())
    } else {
        digits
    }
}

/// The token of an id, in quotes.
pub open spec fn quoted_id(id: u32) -> Seq<char> {
    "\"tid"@ + text::decimal(id as nat) + "\""@
}

/// The tokens of a turn.
pub open spec fn quoted_ids(ids: Seq<u32>) -> Seq<char> {
    "["@ + text::joined(ids.map_values(|n: u32| quoted_id(n)), ", "@) + "]"@
}

fn quote_ids(ids: &[u32]) -> (s: String)
    ensures
        s@ == quoted_ids(ids@),
{
    let mut parts: Vec<String> = Vec::new();
    let mut i: usize = 0;
    while i < ids.len()
        invariant
            i <= ids@.len(),
            parts@.len() == i,
            forall|j: int| 0 <= j < i ==> (#[trigger] parts@[j])@ == quoted_id(ids@[j]),
        decreases ids.len() - i,
    {
        let digits = text::decimal_string(ids[i] as u64);
        parts.push(text::concat3("\"tid", digits.as_str(), "\""));
        i = i + 1;
    }
    proof {
        assert(text::texts(parts@) =~= ids@.map_values(|n: u32| quoted_id(n)));
    }
    let list = text::join_texts(&parts, ", ");
    text::concat3("[", list.as_str(), "]")
}

/// A turn without ids.
pub open spec fn skipped_text(number: nat) -> Seq<char> {
    "turn "@ + padded(number) + ": empty turn — skipped"@
}

/// Tells of a turn without ids.
pub fn report_skipped(number: u64) -> (s: String)
    ensures
        s@ == skipped_text(number as nat),
{
    let digits = pad(number);
    text::concat3("turn ", digits.as_str(), ": empty turn — skipped")
}

/// The first characters of an id, or other words where there is none.
pub open spec fn id_or(id: Option<ObjectId>, words: Seq<char>) -> Seq<char> {
    match id {
        Some(x) => object::cut_to(x@, 8),
        None => words,
    }
}

fn show_id(id: &Option<ObjectId>, words: &str) -> (s: String)
    requires
        snapshot::showable(*id),
    ensures
        s@ == id_or(*id, words@),
{
    match id {
        Some(x) => x.short(),
        None => text::copy_str(words),
    }
}

/// What departed, was kept and came.
pub open spec fn view_counts(v: CommitView) -> Seq<char> {
    "D="@ + text::decimal(v.departed@.len()) + " R="@ + text::decimal(v.retained@.len()) + " N="@ + text::decimal(v.new@.len())
}

/// The counts of a view, or a dash.
pub open spec fn view_or_dash(v: Option<CommitView>) -> Seq<char> {
    match v {
        Some(x) => view_counts(x),
        None => "-"@,
    }
}

fn show_view(v: &Option<CommitView>) -> (s: String)
    ensures
        s@ == view_or_dash(*v),
{
    match v {
        Some(x) => {
            let mut s = String::from_str("D=");
            s.append(text::decimal_string(x.departed.popcount()).as_str());
            s.append(" R=");
            s.append(text::decimal_string(x.retained.popcount()).as_str());
            s.append(" N=");
            s.append(text::decimal_string(x.new.popcount()).as_str());
            s
        },
        None => text::copy_str("-"),
    }
}

/// The text of a turn.
pub open spec fn turn_text(number: nat, ids: Seq<u32>, out: TurnOutcome) -> Seq<char> {
    "turn "@ + padded(number) + ": ids="@ + quoted_ids(ids) + "\n           commit="@ + id_or(
        out.commit,
        "no-change (idempotent skip)"@,
    ) + "\n           tip="@ + id_or(out.head, "<none>"@) + "\n           S(t) leaves="@ + text::decimal(
        out.tree.spec_leaves().len(),
    ) + " added="@ + text::decimal(out.diff.added@.len()) + " removed="@ + text::decimal(out.diff.removed@.len()) + " retained="@
        + text::decimal(out.diff.retained@.len()) + "\n           full_image_tokens="@ + text::decimal(out.full_image@.len()) + " bits("@
        + view_or_dash(out.commit_view) + ")"@
}

/// Tells of a turn.
pub fn report_turn(number: u64, ids: &[u32], out: &TurnOutcome) -> (s: String)
    requires
        snapshot::showable(out.commit),
        snapshot::showable(out.head),
    ensures
        s@ == turn_text(number as nat, ids@, *out),
{
    let mut s = String::from_str("turn ");
    s.append(pad(number).as_str());
    s.append(": ids=");
    s.append(quote_ids(ids).as_str());
    s.append("\n           commit=");
    s.append(show_id(&out.commit, "no-change (idempotent skip)").as_str());
    s.append("\n           tip=");
    s.append(show_id(&out.head, "<none>").as_str());
    s.append("\n           S(t) leaves=");
    s.append(text::decimal_string(out.tree.leaves().len() as u64).as_str());
    s.append(" added=");
    s.append(text::decimal_string(out.diff.added.len() as u64).as_str());
    s.append(" removed=");
    s.append(text::decimal_string(out.diff.removed.len() as u64).as_str());
    s.append(" retained=");
    s.append(text::decimal_string(out.diff.retained.len() as u64).as_str());
    s.append("\n           full_image_tokens=");
    s.append(text::decimal_string(out.full_image.len() as u64).as_str());
    s.append(" bits(");
    s.append(show_view(&out.commit_view).as_str());
    s.append(")");
    s
}

/// Whether the parts of a view add up: what departed and was kept is the parent,
/// what was kept and came is the state, and nothing both departed and came.
pub open spec fn adds_up(v: CommitView) -> bool {
    &&& v.departed@.union(v.retained@).len() == v.parent_state@.len()
    &&& v.retained@.union(v.new@).len() == v.state@.len()
    &&& v.departed@.intersect(v.new@).len() == 0
}

/// Whether the parts of a view add up.
pub fn invariants_hold(v: &CommitView) -> (yes: bool)
    ensures
        yes == adds_up(*v),
{
    v.departed.union(&v.retained).popcount() == v.parent_state.popcount() && v.retained.union(&v.new).popcount()
        == v.state.popcount() && v.departed.intersection(&v.new).popcount() == 0
}

/// The parts of a commit's view always add up.
pub proof fn views_add_up(v: CommitView, m: Map<Seq<char>, ObjectModel>, id: Seq<char>, gx: Gx)
    requires
        v.shows(m, id, gx),
    ensures
        adds_up(v),
{
    view::view_law(v, m, id, gx);
    assert(v.departed@.intersect(v.new@) =~= Set::empty());
}

/// The text at the end of a run.
pub open spec fn closing_text(tip: Option<ObjectId>, bits: nat, v: Option<CommitView>) -> Seq<char> {
    let start = "\nfinal tip    : "@ + id_or(tip, "<none>"@) + "\ncontext size : "@ + text::decimal(bits)
        + " bits (G1 lattice top)\n"@;
    match v {
        Some(x) => start + "Noether invariants (tip, "@ + x.channel.title() + "): "@ + (if adds_up(x) {
            "hold\n"@
        } else {
            "VIOLATED\n"@
        }),
        None => start,
    }
}

/// Tells of the end of a run.
pub fn report_closing(tip: &Option<ObjectId>, bits: u64, v: &Option<CommitView>) -> (s: String)
    requires
        snapshot::showable(*tip),
    ensures
        s@ == closing_text(*tip, bits as nat, *v),
{
    let mut s = String::from_str("\nfinal tip    : ");
    s.append(show_id(tip, "<none>").as_str());
    s.append("\ncontext size : ");
    s.append(text::decimal_string(bits).as_str());
    s.append(" bits (G1 lattice top)\n");
    match v {
        Some(x) => {
            s.append("Noether invariants (tip, ");
            s.append(x.channel.name());
            s.append("): ");
            if invariants_hold(x) {
                s.append("hold\n");
            } else {
                s.append("VIOLATED\n");
            }
        },
        None => {},
    }
    s
}

} // verus!
