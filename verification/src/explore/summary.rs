//! A repository in plain values.

use vstd::prelude::*;

use crate::explore::inspect::Inspected;
use crate::explore::inspect::InspectedModel;
use crate::explore::inspect::ViewLine;
use crate::git::object::Gx;
use crate::git::object::ObjectId;
use crate::git::repo::Repository;
use crate::git::store::ObjectStore;
use crate::sorted::Key;
use crate::text;
use crate::explore::inspect;
use crate::git::object;
use crate::git::registry;
use crate::machine::snapshot;
use crate::sorted;

verus! {

/// A commit in plain values; what cannot be read is left blank.
#[derive(Clone, Debug, PartialEq, Eq)]
pub struct CommitSummary {
    /// The place in the log.
    pub index: usize,
    pub id: String,
    pub message: String,
    pub parents: Vec<String>,
    pub keys: [String; 3],
    pub view: Option<ViewLine>,
}

/// A repository in plain values.
#[derive(Clone, Debug, PartialEq, Eq)]
pub struct StoreSummary {
    pub store: String,
    pub tip: Option<String>,
    pub context_bits: u64,
    /// The bits of the tops of the three channels.
    pub lattice_tops: [u64; 3],
    /// The registry's keys and counts, the most touched first.
    pub hllset_lut: Vec<(String, u64)>,
    /// The commits, the tip first.
    pub commits: Vec<CommitSummary>,
}

impl CommitSummary {
    /// Whether the summary says what was read of a commit.
    pub open spec fn tells(&self, x: InspectedModel, index: int) -> bool {
        &&& self.index == index
        &&& self.id@ == x.id
        &&& self.message@ == (match x.commit {
            Some(c) => c.0,
            None => Seq::empty(),
        })
        &&& text::texts(self.parents@) == (match x.commit {
            Some(c) => c.1,
            None => Seq::empty(),
        })
        &&& text::texts(self.keys@) == (match x.keys {
            Some(k) => k,
            None => seq!["?"@, "?"@, "?"@],
        })
        &&& self.view == x.view
    }
}

/// The registry's keys and counts.
pub open spec fn entry_list(entries: Seq<(Seq<u8>, u64)>) -> Seq<(Seq<u8>, u64)> {
    entries.map_values(|e: (Seq<u8>, u64)| (text::utf8("h:"@ + vstd::utf8::decode_utf8(e.0)), e.1))
}

impl StoreSummary {
    /// Whether the summary says what was read of a repository.
    pub open spec fn tells<S: ObjectStore>(
        &self,
        label: Seq<char>,
        repo: Repository<S>,
        log: Option<Seq<InspectedModel>>,
    ) -> bool {
        let n = match log {
            Some(l) => l.len() as int,
            None => 0,
        };
        &&& self.store@ == label
        &&& snapshot::optional_text(self.tip) == (match repo.spec_head() {
            Some(id) => Some(object::cut_to(id, 8)),
            None => None,
        })
        &&& self.context_bits == repo.tops()[0].len()
        &&& forall|g: int| 0 <= g < 3 ==> #[trigger] self.lattice_tops@[g] == repo.tops()[g].len()
        &&& self.hllset_lut@.map_values(|e: (String, u64)| (text::utf8(e.0@), e.1)) == entry_list(
            registry::ranked_counts(repo.counts()),
        )
        &&& self.commits@.len() == n
        &&& forall|i: int| 0 <= i < n ==> (#[trigger] self.commits@[i]).tells(log->0[n - 1 - i], n - 1 - i)
    }
}

fn summarize_commit(x: &Inspected, index: usize) -> (s: CommitSummary)
    ensures
        s.tells(x@, index as int),
{
    let mut message = String::new();
    let mut parents: Vec<String> = Vec::new();
    proof {
        assert(text::texts(parents@) =~= Seq::empty());
    }
    match &x.commit {
        Some(c) => {
            message = text::copy_str(c.message.as_str());
            parents = text::copy_texts(&c.parents);
        },
        None => {},
    }
    let keys = match &x.keys {
        Some(k) => [text::copy_str(k[0].as_str()), text::copy_str(k[1].as_str()), text::copy_str(k[2].as_str())],
        None => [text::copy_str("?"), text::copy_str("?"), text::copy_str("?")],
    };
    let s = CommitSummary { index, id: text::copy_str(x.id.as_str()), message, parents, keys, view: x.view };
    proof {
        match &x.keys {
            Some(k) => {
                assert(text::texts(s.keys@) =~= text::texts(k@));
            },
            None => {
                assert(text::texts(s.keys@) =~= seq!["?"@, "?"@, "?"@]);
            },
        }
    }
    s
}

/// A repository in plain values.
pub fn summarize_store<S: ObjectStore>(repo: &Repository<S>, store_label: &str) -> (s: StoreSummary)
    requires
        repo.wf(),
        inspect::presentable(*repo),
    ensures
        s.tells(store_label@, *repo, inspect::inspected_log(repo.contents(), repo.spec_head())),
{
    let ranked = repo.hllset_lut().ranked();
    let ghost entries = registry::ranked_counts(repo.counts());
    let mut hllset_lut: Vec<(String, u64)> = Vec::new();
    let mut i: usize = 0;
    while i < ranked.len()
        invariant
            i <= ranked@.len(),
            ranked@.map_values(sorted::counted::<ObjectId>()) == entries,
            hllset_lut@.len() == i,
            forall|j: int|
                0 <= j < i ==> text::utf8((#[trigger] hllset_lut@[j]).0@) == entry_list(entries)[j].0 && hllset_lut@[j].1
                    == entry_list(entries)[j].1,
        decreases ranked.len() - i,
    {
        let id = &ranked[i].0;
        proof {
            assert(entries[i as int] == (id.key(), ranked@[i as int].1));
            vstd::utf8::encode_utf8_decode_utf8(id@);
        }
        hllset_lut.push((text::concat2("h:", id.as_str()), ranked[i].1));
        i = i + 1;
    }
    proof {
        assert(hllset_lut@.map_values(|e: (String, u64)| (text::utf8(e.0@), e.1)) =~= entry_list(entries));
    }
    let log = inspect::inspect_log(repo);
    let ghost read = match &log {
        Some(l) => Some(inspect::inspected_views(l@)),
        None => None,
    };
    let mut commits: Vec<CommitSummary> = Vec::new();
    match &log {
        Some(l) => {
            let n = l.len();
            let mut k: usize = 0;
            while k < n
                invariant
                    n == l@.len(),
                    k <= n,
                    commits@.len() == k,
                    forall|j: int| 0 <= j < k ==> (#[trigger] commits@[j]).tells(l@[n - 1 - j]@, n - 1 - j),
                decreases n - k,
            {
                commits.push(summarize_commit(&l[n - 1 - k], n - 1 - k));
                k = k + 1;
            }
        },
        None => {},
    }
    let tip = match repo.head() {
        Some(id) => Some(id.short()),
        None => None,
    };
    let lattice_tops = [
        repo.lattice_top(Gx::G1).popcount(),
        repo.lattice_top(Gx::G2).popcount(),
        repo.lattice_top(Gx::G3).popcount(),
    ];
    let s = StoreSummary {
        store: text::copy_str(store_label),
        tip,
        context_bits: repo.context_size(),
        lattice_tops,
        hllset_lut,
        commits,
    };
    proof {
        assert(s.tells(store_label@, *repo, read));
    }
    s
}

/// A summary lists the commits of a log from the tip back, each under its place in the
/// log.
pub proof fn tip_first<S: ObjectStore>(s: StoreSummary, label: Seq<char>, repo: Repository<S>, log: Seq<InspectedModel>, i: int)
    requires
        s.tells(label, repo, Some(log)),
        0 <= i < log.len(),
    ensures
        s.commits@.len() == log.len(),
        s.commits@[0].index == log.len() - 1,
        s.commits@[0].id@ == log.last().id,
        s.commits@[i].index == log.len() - 1 - i,
        s.commits@[i].id@ == log[log.len() - 1 - i].id,
        s.commits@[i].view == log[log.len() - 1 - i].view,
        log[log.len() - 1 - i].commit matches Some(c) ==> s.commits@[i].message@ == c.0 && text::texts(s.commits@[i].parents@) == c.1,
        s.context_bits == s.lattice_tops@[0],
{
    assert(s.commits@[0].tells(log[log.len() - 1 - 0], log.len() - 1 - 0));
    assert(s.commits@[i].tells(log[log.len() - 1 - i], log.len() - 1 - i));
    assert(s.lattice_tops@[0] == repo.tops()[0].len());
}

} // verus!
