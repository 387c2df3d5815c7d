//! Pages of text on a repository and on a cache.

use vstd::prelude::*;
use vstd::string::*;
use vstd::utf8::*;

use crate::explore::inspect::Inspected;
use crate::explore::inspect::InspectedModel;
use crate::explore::inspect::ViewLine;
use crate::git::object::Gx;
use crate::git::object::ObjectId;
use crate::git::repo::Repository;
use crate::git::store::ObjectStore;
use crate::machine::snapshot::StateSnapshot;
use crate::machine::snapshot::TurnSnapshot;
use crate::sorted::Key;
use crate::text;
use crate::explore::inspect;
use crate::git::object;
use crate::git::registry;
use crate::sorted;
use crate::machine::state;

verus! {

/// A text, cut behind its first `n` bytes where it has more.
pub open spec fn short_text(s: Seq<char>, n: int) -> Seq<char> {
    if text::utf8(s).len() <= n {
        s
    } else {
        object::cut_to(s, n) + "…"@
    }
}

/// A text, cut behind its first `n` characters where it has more.
pub open spec fn truncated(s: Seq<char>, n: int) -> Seq<char> {
    if s.len() <= n {
        s
    } else {
        s.take(n) + "…"@
    }
}

/// Cuts a text behind its first `n` bytes.
pub fn short(s: &str, n: usize) -> (out: String)
    requires
        object::cuts_at(s@, n as int),
    ensures
        out@ == short_text(s@, n as int),
{
    if s.as_bytes().len() <= n {
        text::copy_str(s)
    } else {
        let head = object::leading_bytes(s, n);
        text::concat2(head.as_str(), "…")
    }
}

/// Cuts a text behind its first `n` characters.
pub fn truncate(s: &str, n: usize) -> (out: String)
    ensures
        out@ == truncated(s@, n as int),
{
    let chars = text::chars_of(s);
    if chars.len() <= n {
        text::copy_str(s)
    } else {
        let head = text::string_of(vstd::slice::slice_subrange(chars.as_slice(), 0, n));
        proof {
            assert(s@.subrange(0, n as int) =~= s@.take(n as int));
        }
        text::concat2(head.as_str(), "…")
    }
}

/// An id as it is shown, or that there is none.
pub open spec fn tip_text(head: Option<Seq<char>>) -> Seq<char> {
    match head {
        Some(id) => object::cut_to(id, 8),
        None => "<none>"@,
    }
}

/// The first lines of a repository's page.
pub open spec fn store_head(label: Seq<char>, head: Option<Seq<char>>, bits: nat) -> Seq<char> {
    "=== ewm-state-machine explorer: persistent layer ===\nstore : "@ + label + "\ntip   : "@ + tip_text(head)
        + "\ncontext bits (G1 lattice top): "@ + text::decimal(bits) + "\n"@
}

/// The lines on the tops of the three channels.
pub open spec fn tops_text(tops: Seq<Set<u32>>) -> Seq<char> {
    "\nlattice tops:\n  G1 bits = "@ + text::decimal(tops[0].len()) + "\n  G2 bits = "@ + text::decimal(tops[1].len())
        + "\n  G3 bits = "@ + text::decimal(tops[2].len()) + "\n"@
}

/// The line on an entry of the registry.
pub open spec fn entry_text(e: (Seq<u8>, u64)) -> Seq<char> {
    "  h:"@ + decode_utf8(e.0) + "  TH = "@ + text::decimal(e.1 as nat) + "\n"@
}

/// The lines on the first entries of the registry.
pub open spec fn entries_text(entries: Seq<(Seq<u8>, u64)>, n: nat) -> Seq<char>
    decreases n,
{
    if n == 0 {
        Seq::empty()
    } else {
        entries_text(entries, (n - 1) as nat) + entry_text(entries[n - 1])
    }
}

/// The lines on the registry: its first twenty entries.
pub open spec fn registry_text(entries: Seq<(Seq<u8>, u64)>) -> Seq<char> {
    "\nhllsetLUT (repo registry, ranked by TH):\n"@ + (if entries.len() == 0 {
        "  (empty)\n"@
    } else if entries.len() <= 20 {
        entries_text(entries, entries.len())
    } else {
        entries_text(entries, 20) + "  ... "@ + text::decimal((entries.len() - 20) as nat) + " more\n"@
    })
}

/// A commit's view of the first channel.
pub open spec fn view_text(view: Option<ViewLine>) -> Seq<char> {
    match view {
        Some(v) => "D="@ + text::decimal(v.departed as nat) + " R="@ + text::decimal(v.retained as nat) + " N="@ + text::decimal(
            v.new as nat,
        ),
        None => "unreadable"@,
    }
}

/// A commit's key of a channel.
pub open spec fn key_text(keys: Option<Seq<Seq<char>>>, g: int) -> Seq<char> {
    match keys {
        Some(k) => short_text(k[g], 12),
        None => "?"@,
    }
}

/// The bits of a commit's first channel.
pub open spec fn bits_text(bits: Option<u64>) -> Seq<char> {
    match bits {
        Some(n) => text::decimal(n as nat),
        None => "?"@,
    }
}

/// The lines on a commit.
pub open spec fn commit_text(x: InspectedModel, n: nat) -> Seq<char> {
    match x.commit {
        Some(c) => "  #"@ + text::decimal(n) + " "@ + x.id + "  parents=["@ + text::joined(c.1, ", "@) + "]\n      message: "@
            + truncated(c.0, 60) + "\n      G1 bits = "@ + bits_text(x.bits)
            + "  (monotone gate; candidates available here)\n      G1="@ + key_text(x.keys, 0) + " G2="@ + key_text(
            x.keys,
            1,
        ) + " G3="@ + key_text(x.keys, 2) + "\n      G1 view: "@ + view_text(x.view),
        None => "  #"@ + text::decimal(n) + " "@ + x.id + " (unreadable)"@,
    }
}

/// The lines on the first commits of a log, the last of them first.
pub open spec fn commits_text(log: Seq<InspectedModel>, n: nat) -> Seq<char>
    decreases n,
{
    if n == 0 {
        Seq::empty()
    } else {
        commit_text(log[n - 1], (n - 1) as nat) + "\n"@ + commits_text(log, (n - 1) as nat)
    }
}

/// The lines on the log.
pub open spec fn log_text(log: Option<Seq<InspectedModel>>) -> Seq<char> {
    "\ncommits (tip-first):\n"@ + (match log {
        Some(l) => if l.len() == 0 {
            "  (no commits)\n"@
        } else {
            commits_text(l, l.len())
        },
        None => "  (log unreadable)\n"@,
    })
}

/// A repository's page.
pub open spec fn store_text(
    label: Seq<char>,
    head: Option<Seq<char>>,
    tops: Seq<Set<u32>>,
    counts: Map<Seq<u8>, u64>,
    log: Option<Seq<InspectedModel>>,
) -> Seq<char> {
    store_head(label, head, tops[0].len()) + tops_text(tops) + registry_text(registry::ranked_counts(counts)) + log_text(log)
}

fn render_entries(ranked: &Vec<(ObjectId, u64)>, n: usize) -> (out: String)
    requires
        n <= ranked@.len(),
    ensures
        out@ == entries_text(ranked@.map_values(sorted::counted::<ObjectId>()), n as nat),
{
    let ghost entries = ranked@.map_values(sorted::counted::<ObjectId>());
    let mut out = String::from_str("");
    proof {
        reveal_strlit("");
        assert(out@ =~= entries_text(entries, 0));
    }
    let mut i: usize = 0;
    while i < n
        invariant
            i <= n <= ranked@.len(),
            entries == ranked@.map_values(sorted::counted::<ObjectId>()),
            out@ == entries_text(entries, i as nat),
        decreases n - i,
    {
        let id = &ranked[i].0;
        let th = text::decimal_string(ranked[i].1);
        let mut line = String::from_str("  h:");
        line.append(id.as_str());
        line.append("  TH = ");
        line.append(th.as_str());
        line.append("\n");
        proof {
            assert(entries[i as int] == (id.key(), ranked@[i as int].1));
            encode_utf8_decode_utf8(id@);
        }
        out.append(line.as_str());
        i = i + 1;
    }
    out
}

fn render_registry(ranked: &Vec<(ObjectId, u64)>) -> (out: String)
    ensures
        out@ == registry_text(ranked@.map_values(sorted::counted::<ObjectId>())),
{
    let mut block = text::copy_str("  (empty)\n");
    if ranked.len() > 20 {
        block = render_entries(ranked, 20);
        let more = text::decimal_string((ranked.len() - 20) as u64);
        block.append("  ... ");
        block.append(more.as_str());
        block.append(" more\n");
    } else if ranked.len() > 0 {
        block = render_entries(ranked, ranked.len());
    }
    text::concat2("\nhllsetLUT (repo registry, ranked by TH):\n", block.as_str())
}

fn render_view(view: &Option<ViewLine>) -> (out: String)
    ensures
        out@ == view_text(*view),
{
    match view {
        Some(v) => {
            let d = text::decimal_string(v.departed);
            let r = text::decimal_string(v.retained);
            let n = text::decimal_string(v.new);
            let mut out = String::from_str("D=");
            out.append(d.as_str());
            out.append(" R=");
            out.append(r.as_str());
            out.append(" N=");
            out.append(n.as_str());
            out
        },
        None => text::copy_str("unreadable"),
    }
}

fn render_key(keys: &Option<[String; 3]>, g: usize) -> (out: String)
    requires
        g < 3,
        keys is Some ==> object::cuts_at(keys->0@[g as int]@, 12),
    ensures
        out@ == key_text(
            match *keys {
                Some(k) => Some(text::texts(k@)),
                None => None,
            },
            g as int,
        ),
{
    match keys {
        Some(k) => short(k[g].as_str(), 12),
        None => text::copy_str("?"),
    }
}

/// The lines on a commit.
pub fn render_commit(x: &Inspected, n: usize) -> (out: String)
    requires
        inspect::cuttable_keys(x@.keys),
    ensures
        out@ == commit_text(x@, n as nat),
{
    let number = text::decimal_string(n as u64);
    let mut out = String::from_str("  #");
    out.append(number.as_str());
    out.append(" ");
    out.append(x.id.as_str());
    match &x.commit {
        Some(c) => {
            let parents = text::join_texts(&c.parents, ", ");
            let message = truncate(c.message.as_str(), 60);
            let bits = match x.bits {
                Some(b) => text::decimal_string(b),
                None => text::copy_str("?"),
            };
            proof {
                if x.keys is Some {
                    assert forall|g: int| 0 <= g < 3 implies object::cuts_at(#[trigger] x.keys->0@[g]@, 12) by {
                        assert(x@.keys->0[g] == x.keys->0@[g]@);
                    }
                }
            }
            let g1 = render_key(&x.keys, 0);
            let g2 = render_key(&x.keys, 1);
            let g3 = render_key(&x.keys, 2);
            let view = render_view(&x.view);
            out.append("  parents=[");
            out.append(parents.as_str());
            out.append("]\n      message: ");
            out.append(message.as_str());
            out.append("\n      G1 bits = ");
            out.append(bits.as_str());
            out.append("  (monotone gate; candidates available here)\n      G1=");
            out.append(g1.as_str());
            out.append(" G2=");
            out.append(g2.as_str());
            out.append(" G3=");
            out.append(g3.as_str());
            out.append("\n      G1 view: ");
            out.append(view.as_str());
        },
        None => {
            out.append(" (unreadable)");
        },
    }
    out
}

/// The lines on a log.
pub fn render_log(log: &Option<Vec<Inspected>>) -> (out: String)
    requires
        log is Some ==> forall|i: int| 0 <= i < log->0@.len() ==> inspect::cuttable_keys((#[trigger] log->0@[i])@.keys),
    ensures
        out@ == log_text(
            match *log {
                Some(l) => Some(inspect::inspected_views(l@)),
                None => None,
            },
        ),
{
    match log {
        Some(l) => {
            if l.len() == 0 {
                return text::concat2("\ncommits (tip-first):\n", "  (no commits)\n");
            }
            let ghost views = inspect::inspected_views(l@);
            let mut block = String::from_str("");
            proof {
                reveal_strlit("");
                assert(block@ + commits_text(views, l@.len()) =~= commits_text(views, l@.len()));
            }
            let mut n: usize = l.len();
            while n > 0
                invariant
                    n <= l@.len(),
                    views == inspect::inspected_views(l@),
                    forall|i: int| 0 <= i < l@.len() ==> inspect::cuttable_keys((#[trigger] l@[i])@.keys),
                    block@ + commits_text(views, n as nat) == commits_text(views, l@.len()),
                decreases n,
            {
                let ghost before = block@;
                n = n - 1;
                let line = render_commit(&l[n], n);
                block.append(line.as_str());
                block.append("\n");
                proof {
                    assert(views[n as int] == l@[n as int]@);
                    let rest = commits_text(views, n as nat);
                    assert(block@ + rest =~= before + (line@ + "\n"@ + rest));
                }
            }
            proof {
                assert(block@ + commits_text(views, 0) =~= block@);
            }
            text::concat2("\ncommits (tip-first):\n", block.as_str())
        },
        None => text::concat2("\ncommits (tip-first):\n", "  (log unreadable)\n"),
    }
}

/// A repository's page.
pub fn render_store<S: ObjectStore>(repo: &Repository<S>, store_label: &str) -> (out: String)
    requires
        repo.wf(),
        inspect::presentable(*repo),
    ensures
        out@ == store_text(
            store_label@,
            repo.spec_head(),
            repo.tops(),
            repo.counts(),
            inspect::inspected_log(repo.contents(), repo.spec_head()),
        ),
{
    let tip = match repo.head() {
        Some(id) => id.short(),
        None => text::copy_str("<none>"),
    };
    let bits = text::decimal_string(repo.context_size());
    let mut out = String::from_str("=== ewm-state-machine explorer: persistent layer ===\nstore : ");
    out.append(store_label);
    out.append("\ntip   : ");
    out.append(tip.as_str());
    out.append("\ncontext bits (G1 lattice top): ");
    out.append(bits.as_str());
    out.append("\n");
    let g1 = text::decimal_string(repo.lattice_top(Gx::G1).popcount());
    let g2 = text::decimal_string(repo.lattice_top(Gx::G2).popcount());
    let g3 = text::decimal_string(repo.lattice_top(Gx::G3).popcount());
    let mut tops = String::from_str("\nlattice tops:\n  G1 bits = ");
    tops.append(g1.as_str());
    tops.append("\n  G2 bits = ");
    tops.append(g2.as_str());
    tops.append("\n  G3 bits = ");
    tops.append(g3.as_str());
    tops.append("\n");
    let ranked = repo.hllset_lut().ranked();
    let registry = render_registry(&ranked);
    let log = inspect::inspect_log(repo);
    let commits = render_log(&log);
    out.append(tops.as_str());
    out.append(registry.as_str());
    out.append(commits.as_str());
    proof {
        let read = match log {
            Some(l) => Some(inspect::inspected_views(l@)),
            None => None,
        };
        assert(out@ == store_text(store_label@, repo.spec_head(), repo.tops(), repo.counts(), read));
    }
    out
}

/// A list of numbers in brackets.
pub open spec fn bracketed(ids: Seq<u32>) -> Seq<char> {
    "["@ + text::joined(state::id_numbers(ids), ", "@) + "]"@
}

fn render_ids(ids: &Vec<u32>) -> (out: String)
    ensures
        out@ == bracketed(ids@),
{
    let mut numbers: Vec<String> = Vec::new();
    let mut i: usize = 0;
    while i < ids.len()
        invariant
            i <= ids@.len(),
            numbers@.len() == i,
            forall|j: int| 0 <= j < i ==> (#[trigger] numbers@[j])@ == text::decimal(ids@[j] as nat),
        decreases ids.len() - i,
    {
        numbers.push(text::decimal_string(ids[i] as u64));
        i = i + 1;
    }
    proof {
        assert(text::texts(numbers@) =~= state::id_numbers(ids@));
    }
    let list = text::join_texts(&numbers, ", ");
    text::concat3("[", list.as_str(), "]")
}

/// The line on a turn.
pub open spec fn turn_text(t: TurnSnapshot) -> Seq<char> {
    "  #"@ + text::decimal(t.turn as nat) + " ids="@ + bracketed(t.ids@) + " g1="@ + short_text(t.g1_key@, 12) + " commit="@
        + (match t.commit {
        Some(c) => short_text(c@, 8),
        None => "-"@,
    }) + "\n"@
}

/// The lines on the first turns.
pub open spec fn turns_text(turns: Seq<TurnSnapshot>, n: nat) -> Seq<char>
    decreases n,
{
    if n == 0 {
        Seq::empty()
    } else {
        turns_text(turns, (n - 1) as nat) + turn_text(turns[n - 1])
    }
}

/// The first lines of a snapshot's page.
pub open spec fn snapshot_head(s: StateSnapshot) -> Seq<char> {
    "=== ewm-state-machine explorer: "@ + s.layer@ + " ===\ntip         : "@ + (match s.tip {
        Some(t) => t@,
        None => "<none>"@,
    }) + "\nturn_count  : "@ + text::decimal(s.turn_count as nat) + "\nworking     : G1="@ + text::decimal(
        s.working_bits@[0] as nat,
    ) + " G2="@ + text::decimal(s.working_bits@[1] as nat) + " G3="@ + text::decimal(s.working_bits@[2] as nat)
        + " bits\ntree        : root="@ + short_text(s.tree_root@, 12) + " leaves="@ + text::decimal(s.tree_leaves as nat)
        + "\ntf_base     : "@ + text::decimal(s.tf_base_entries as nat) + " entries\nring        : window="@ + text::decimal(
        s.ring.window_len as nat,
    ) + "/"@ + text::decimal(s.ring.capacity as nat) + " dimension="@ + text::decimal(s.ring.dimension as nat) + "\n"@
}

/// A snapshot's page.
pub open spec fn snapshot_text(s: StateSnapshot) -> Seq<char> {
    snapshot_head(s) + "\nturns:\n"@ + (if s.turns@.len() == 0 {
        "  (no turns)\n"@
    } else {
        turns_text(s.turns@, s.turns@.len())
    }) + "\ncache: "@ + s.cache.status@ + "\n  batches: "@ + text::joined(text::texts(s.cache.batches@), ", "@) + "\n"@
}

/// Whether the keys and ids of a turn can be cut where they are shown; digests
/// can.
pub open spec fn cuttable_turn(t: TurnSnapshot) -> bool {
    object::cuts_at(t.g1_key@, 12) && (t.commit is Some ==> object::cuts_at(t.commit->0@, 8))
}

/// Whether the keys and ids of a snapshot can be cut where they are shown.
pub open spec fn cuttable_snapshot(s: StateSnapshot) -> bool {
    object::cuts_at(s.tree_root@, 12) && forall|i: int| 0 <= i < s.turns@.len() ==> cuttable_turn(#[trigger] s.turns@[i])
}

fn render_turn(t: &TurnSnapshot) -> (out: String)
    requires
        cuttable_turn(*t),
    ensures
        out@ == turn_text(*t),
{
    let number = text::decimal_string(t.turn);
    let ids = render_ids(&t.ids);
    let key = short(t.g1_key.as_str(), 12);
    let commit = match &t.commit {
        Some(c) => short(c.as_str(), 8),
        None => text::copy_str("-"),
    };
    let mut out = String::from_str("  #");
    out.append(number.as_str());
    out.append(" ids=");
    out.append(ids.as_str());
    out.append(" g1=");
    out.append(key.as_str());
    out.append(" commit=");
    out.append(commit.as_str());
    out.append("\n");
    out
}

fn render_turns(turns: &Vec<TurnSnapshot>) -> (out: String)
    requires
        forall|i: int| 0 <= i < turns@.len() ==> cuttable_turn(#[trigger] turns@[i]),
    ensures
        out@ == turns_text(turns@, turns@.len()),
{
    let mut out = String::from_str("");
    proof {
        reveal_strlit("");
        assert(out@ =~= turns_text(turns@, 0));
    }
    let mut i: usize = 0;
    while i < turns.len()
        invariant
            i <= turns@.len(),
            forall|j: int| 0 <= j < turns@.len() ==> cuttable_turn(#[trigger] turns@[j]),
            out@ == turns_text(turns@, i as nat),
        decreases turns.len() - i,
    {
        let line = render_turn(&turns[i]);
        out.append(line.as_str());
        i = i + 1;
    }
    out
}

fn render_head(snap: &StateSnapshot) -> (out: String)
    requires
        object::cuts_at(snap.tree_root@, 12),
    ensures
        out@ == snapshot_head(*snap),
{
    let tip = match &snap.tip {
        Some(t) => text::copy_str(t.as_str()),
        None => text::copy_str("<none>"),
    };
    let count = text::decimal_string(snap.turn_count);
    let g1 = text::decimal_string(snap.working_bits[0]);
    let g2 = text::decimal_string(snap.working_bits[1]);
    let g3 = text::decimal_string(snap.working_bits[2]);
    let root = short(snap.tree_root.as_str(), 12);
    let leaves = text::decimal_string(snap.tree_leaves as u64);
    let entries = text::decimal_string(snap.tf_base_entries as u64);
    let window = text::decimal_string(snap.ring.window_len as u64);
    let capacity = text::decimal_string(snap.ring.capacity as u64);
    let dimension = text::decimal_string(snap.ring.dimension as u64);
    let mut out = String::from_str("=== ewm-state-machine explorer: ");
    out.append(snap.layer.as_str());
    out.append(" ===\ntip         : ");
    out.append(tip.as_str());
    out.append("\nturn_count  : ");
    out.append(count.as_str());
    out.append("\nworking     : G1=");
    out.append(g1.as_str());
    out.append(" G2=");
    out.append(g2.as_str());
    out.append(" G3=");
    out.append(g3.as_str());
    out.append(" bits\ntree        : root=");
    out.append(root.as_str());
    out.append(" leaves=");
    out.append(leaves.as_str());
    out.append("\ntf_base     : ");
    out.append(entries.as_str());
    out.append(" entries\nring        : window=");
    out.append(window.as_str());
    out.append("/");
    out.append(capacity.as_str());
    out.append(" dimension=");
    out.append(dimension.as_str());
    out.append("\n");
    out
}

/// A snapshot's page.
pub fn render_snapshot(snap: &StateSnapshot) -> (out: String)
    requires
        cuttable_snapshot(*snap),
    ensures
        out@ == snapshot_text(*snap),
{
    let mut out = render_head(snap);
    out.append("\nturns:\n");
    if snap.turns.len() == 0 {
        out.append("  (no turns)\n");
    } else {
        let turns = render_turns(&snap.turns);
        out.append(turns.as_str());
    }
    let batches = text::join_texts(&snap.cache.batches, ", ");
    out.append("\ncache: ");
    out.append(snap.cache.status.as_str());
    out.append("\n  batches: ");
    out.append(batches.as_str());
    out.append("\n");
    out
}

/// A log is shown newest first: a commit more comes before all others, under the next
/// number.
pub proof fn newest_first(log: Seq<InspectedModel>, x: InspectedModel)
    ensures
        commits_text(log.push(x), log.len() + 1) == commit_text(x, log.len()) + "\n"@ + commits_text(log, log.len()),
{
    commits_prefix(log, x, log.len());
}

proof fn commits_prefix(log: Seq<InspectedModel>, x: InspectedModel, n: nat)
    requires
        n <= log.len(),
    ensures
        commits_text(log.push(x), n) == commits_text(log, n),
    decreases n,
{
    if n > 0 {
        commits_prefix(log, x, (n - 1) as nat);
    }
}

/// Turns are shown in their order: a turn more comes behind all others.
pub proof fn turns_in_order(turns: Seq<TurnSnapshot>, t: TurnSnapshot)
    ensures
        turns_text(turns.push(t), turns.len() + 1) == turns_text(turns, turns.len()) + turn_text(t),
{
    turns_prefix(turns, t, turns.len());
}

proof fn turns_prefix(turns: Seq<TurnSnapshot>, t: TurnSnapshot, n: nat)
    requires
        n <= turns.len(),
    ensures
        turns_text(turns.push(t), n) == turns_text(turns, n),
    decreases n,
{
    if n > 0 {
        turns_prefix(turns, t, (n - 1) as nat);
    }
}

} // verus!
