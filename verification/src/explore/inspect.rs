//! What can be read of a repository's commits.

use vstd::prelude::*;
use vstd::string::*;
use vstd::utf8::*;

use crate::git::object::Gx;
use crate::git::object::ObjectId;
use crate::git::object::ObjectModel;
use crate::git::repo::Read;
use crate::git::repo::Repository;
use crate::git::store::ObjectStore;
use crate::text;
use crate::git::object;
use crate::git::repo;
use crate::git::view;
use crate::hllset;
use crate::digest;

verus! {

/// A commit's message and parents.
#[derive(Clone, Debug, PartialEq, Eq)]
pub struct CommitLine {
    pub message: String,
    /// The first characters of the parents' ids.
    pub parents: Vec<String>,
}

/// The bits that a commit takes, keeps and brings in the first channel.
#[derive(Clone, Copy, Debug, PartialEq, Eq, Structural)]
pub struct ViewLine {
    pub departed: u64,
    pub retained: u64,
    pub new: u64,
}

/// What can be read of one commit.
#[derive(Clone, Debug, PartialEq, Eq)]
pub struct Inspected {
    /// The first characters of the id.
    pub id: String,
    pub commit: Option<CommitLine>,
    /// The keys of the three channels.
    pub keys: Option<[String; 3]>,
    pub view: Option<ViewLine>,
    /// The bits of the first channel.
    pub bits: Option<u64>,
}

/// What can be read of one commit.
#[verifier::ext_equal]
pub struct InspectedModel {
    pub id: Seq<char>,
    pub commit: Option<(Seq<char>, Seq<Seq<char>>)>,
    pub keys: Option<Seq<Seq<char>>>,
    pub view: Option<ViewLine>,
    pub bits: Option<u64>,
}

impl View for Inspected {
    type V = InspectedModel;

    open spec fn view(&self) -> InspectedModel {
        InspectedModel {
            id: self.id@,
            commit: match self.commit {
                Some(c) => Some((c.message@, text::texts(c.parents@))),
                None => None,
            },
            keys: match self.keys {
                Some(k) => Some(text::texts(k@)),
                None => None,
            },
            view: self.view,
            bits: self.bits,
        }
    }
}

/// The views of a list of readings.
pub open spec fn inspected_views(list: Seq<Inspected>) -> Seq<InspectedModel> {
    list.map_values(|x: Inspected| x@)
}

/// Ids as they are shown.
pub open spec fn shown_ids(ids: Seq<Seq<char>>) -> Seq<Seq<char>> {
    ids.map_values(|i: Seq<char>| object::cut_to(i, 8))
}

/// What a repository's contents say of a commit.
pub open spec fn inspected_in(m: Map<Seq<char>, ObjectModel>, id: Seq<char>) -> InspectedModel {
    InspectedModel {
        id: object::cut_to(id, 8),
        commit: match repo::read_commit_of(m, id) {
            Read::Found(c) => Some((c.message, shown_ids(c.parents))),
            _ => None,
        },
        keys: match repo::read_states_of(m, id) {
            Read::Found(sets) => Some(sets.map_values(|s: Set<u32>| hllset::key_of(s))),
            _ => None,
        },
        view: match view::view_of(m, id, Gx::G1) {
            Read::Found(p) => Some(
                ViewLine {
                    departed: p.1.difference(p.0).len() as u64,
                    retained: p.1.intersect(p.0).len() as u64,
                    new: p.0.difference(p.1).len() as u64,
                },
            ),
            _ => None,
        },
        bits: match repo::read_state_of(m, id, Gx::G1) {
            Read::Found(s) => Some(s.len() as u64),
            _ => None,
        },
    }
}

/// What a repository's contents say of its log, oldest first; nothing where the
/// log cannot be read.
pub open spec fn inspected_log(m: Map<Seq<char>, ObjectModel>, head: Option<Seq<char>>) -> Option<Seq<InspectedModel>> {
    match repo::log_of(m, head) {
        Read::Found(log) => Some(log.map_values(|id: Seq<char>| inspected_in(m, id))),
        _ => None,
    }
}

/// Whether an id, and the ids of the parents of its commit, can be cut where they
/// are shown; digests can.
pub open spec fn shown_whole(m: Map<Seq<char>, ObjectModel>, id: Seq<char>) -> bool {
    &&& object::cuts_at(id, 8)
    &&& forall|i: int| 0 <= i < repo::parents_in(m, id).len() ==> object::cuts_at(#[trigger] repo::parents_in(m, id)[i], 8)
}

/// Whether the head and all ids of the log can be cut where they are shown.
pub open spec fn presentable<S: ObjectStore>(repo: Repository<S>) -> bool {
    &&& repo.spec_head() is Some ==> object::cuts_at(repo.spec_head()->0, 8)
    &&& repo::log_of(repo.contents(), repo.spec_head()) matches Read::Found(log) ==> forall|i: int|
        0 <= i < log.len() ==> shown_whole(repo.contents(), #[trigger] log[i])
}

/// Whether the keys of a commit can be cut where they are shown; digests can.
pub open spec fn cuttable_keys(keys: Option<Seq<Seq<char>>>) -> bool {
    keys is Some ==> keys->0.len() == 3 && forall|g: int| 0 <= g < 3 ==> object::cuts_at(#[trigger] keys->0[g], 12)
}

/// Keys can be cut anywhere.
proof fn keys_cut(s: Set<u32>)
    ensures
        object::cuts_at(hllset::key_of(s), 12),
{
    let data = digest::sha1_of(hllset::set_bytes(s));
    let hex = digest::hex_of(data);
    let key = hllset::key_of(s);
    reveal_strlit("h:");
    assert forall|i: int| 0 <= i < hex.len() implies (#[trigger] hex[i] as nat) < 128 by {
        assert(0 <= data[i / 2] as int / 16 < 16);
        assert(0 <= data[i / 2] as int % 16 < 16);
    }
    assert(is_ascii_chars(key)) by {
        assert forall|i: int| 0 <= i < key.len() implies (#[trigger] key[i] as nat) < 128 by {
            if i >= 2 {
                assert(key[i] == hex[i - 2]);
            }
        }
    }
    object::cut_ascii(key, 12);
}

/// The first characters of a list of ids.
fn shorten_ids(ids: &Vec<ObjectId>) -> (out: Vec<String>)
    requires
        forall|i: int| 0 <= i < ids@.len() ==> object::cuts_at((#[trigger] ids@[i])@, 8),
    ensures
        text::texts(out@) == shown_ids(object::id_texts(ids@)),
{
    let mut out: Vec<String> = Vec::new();
    let mut i: usize = 0;
    while i < ids.len()
        invariant
            i <= ids@.len(),
            forall|j: int| 0 <= j < ids@.len() ==> object::cuts_at((#[trigger] ids@[j])@, 8),
            out@.len() == i,
            forall|j: int| 0 <= j < i ==> (#[trigger] out@[j])@ == object::cut_to(ids@[j]@, 8),
        decreases ids.len() - i,
    {
        out.push(ids[i].short());
        i = i + 1;
    }
    proof {
        assert(text::texts(out@) =~= shown_ids(object::id_texts(ids@)));
    }
    out
}

/// Reads what can be read of one commit.
pub fn inspect_commit<S: ObjectStore>(repo: &Repository<S>, id: &ObjectId) -> (x: Inspected)
    requires
        repo.wf(),
        shown_whole(repo.contents(), id@),
    ensures
        x.id@ == object::cut_to(id@, 8),
        cuttable_keys(x@.keys),
        x@ == inspected_in(repo.contents(), id@),
{
    let commit = match repo.read_commit(id) {
        Ok(c) => {
            proof {
                assert(repo::parents_in(repo.contents(), id@) == object::id_texts(c.parents@));
                assert forall|i: int| 0 <= i < c.parents@.len() implies object::cuts_at((#[trigger] c.parents@[i])@, 8) by {
                    assert(repo::parents_in(repo.contents(), id@)[i] == c.parents@[i]@);
                }
            }
            Some(CommitLine { message: text::copy_str(c.message.as_str()), parents: shorten_ids(&c.parents) })
        },
        Err(_) => None,
    };
    let keys = match repo.state_keys(id) {
        Ok(k) => {
            proof {
                let sets = repo::read_states_of(repo.contents(), id@)->Found_0;
                assert(text::texts(k@) == sets.map_values(|s: Set<u32>| hllset::key_of(s)));
                assert forall|g: int| 0 <= g < 3 implies object::cuts_at(#[trigger] text::texts(k@)[g], 12) by {
                    keys_cut(sets[g]);
                }
            }
            Some(k)
        },
        Err(_) => None,
    };
    let view = match view::view(repo, id) {
        Ok(v) => Some(
            ViewLine {
                departed: v.departed.popcount(),
                retained: v.retained.popcount(),
                new: v.new.popcount(),
            },
        ),
        Err(_) => None,
    };
    let bits = match repo.state(id) {
        Ok(s) => Some(s.popcount()),
        Err(_) => None,
    };
    Inspected { id: id.short(), commit, keys, view, bits }
}

/// Every member of a log is there.
proof fn log_is_there<S: ObjectStore>(repo: Repository<S>, log: Seq<Seq<char>>)
    requires
        repo.wf(),
        repo::log_of(repo.contents(), repo.spec_head()) == Read::Found(log),
    ensures
        forall|i: int| 0 <= i < log.len() ==> repo.contents().dom().contains(#[trigger] log[i]),
{
    match repo.spec_head() {
        Some(h) => {
            repo.finite_contents();
            repo::log_law(repo.contents(), h);
            assert forall|i: int| 0 <= i < log.len() implies repo.contents().dom().contains(#[trigger] log[i]) by {
                assert(repo::read_commit_of(repo.contents(), log[i]) is Found);
            }
        },
        None => {},
    }
}

/// Reads what can be read of the log, oldest first.
pub fn inspect_log<S: ObjectStore>(repo: &Repository<S>) -> (list: Option<Vec<Inspected>>)
    requires
        repo.wf(),
        presentable(*repo),
    ensures
        list is Some ==> forall|i: int| 0 <= i < list->0@.len() ==> cuttable_keys((#[trigger] list->0@[i])@.keys),
        match list {
            Some(l) => inspected_log(repo.contents(), repo.spec_head()) == Some(inspected_views(l@)),
            None => inspected_log(repo.contents(), repo.spec_head()) is None,
        },
{
    let log = match repo.log() {
        Ok(log) => log,
        Err(_) => {
            return None;
        },
    };
    let ghost ids = object::id_texts(log@);
    proof {
        log_is_there(*repo, ids);
    }
    let mut list: Vec<Inspected> = Vec::new();
    let mut i: usize = 0;
    while i < log.len()
        invariant
            i <= log@.len(),
            repo.wf(),
            presentable(*repo),
            ids == object::id_texts(log@),
            forall|j: int| 0 <= j < ids.len() ==> repo.contents().dom().contains(#[trigger] ids[j]),
            forall|j: int| 0 <= j < ids.len() ==> shown_whole(repo.contents(), #[trigger] ids[j]),
            list@.len() == i,
            forall|j: int| 0 <= j < i ==> cuttable_keys((#[trigger] list@[j])@.keys),
            forall|j: int| 0 <= j < i ==> (#[trigger] list@[j])@ == inspected_in(repo.contents(), ids[j]),
        decreases log.len() - i,
    {
        proof {
            assert(repo.contents().dom().contains(ids[i as int]));
            assert(ids[i as int] == log@[i as int]@);
        }
        list.push(inspect_commit(repo, &log[i]));
        i = i + 1;
    }
    proof {
        assert(inspected_views(list@) =~= ids.map_values(|id: Seq<char>| inspected_in(repo.contents(), id)));
    }
    Some(list)
}

/// What is shown of a commit: its message and its parents, the keys of its three
/// channels in order, and the numbers of bits that departed from, stayed with and came
/// to its parents' joined state.
pub proof fn inspected_law(m: Map<Seq<char>, ObjectModel>, id: Seq<char>)
    ensures
        repo::read_commit_of(m, id) matches Read::Found(c) ==> (inspected_in(m, id).commit matches Some(p) && p.0 == c.message && p.1.len()
            == c.parents.len() && forall|i: int| 0 <= i < c.parents.len() ==> #[trigger] p.1[i] == object::cut_to(c.parents[i], 8)),
        repo::read_states_of(m, id) matches Read::Found(s) ==> (inspected_in(m, id).keys matches Some(k) && k.len() == s.len() && forall|
            g: int,
        |
            0 <= g < s.len() ==> #[trigger] k[g] == hllset::key_of(s[g])),
        view::view_of(m, id, Gx::G1) matches Read::Found(p) ==> (hllset::on_plane(p.0) && hllset::on_plane(p.1) ==> (inspected_in(
            m,
            id,
        ).view matches Some(l) && l.departed == p.1.filter(|b: u32| !p.0.contains(b)).len() && l.retained == p.1.filter(
            |b: u32| p.0.contains(b),
        ).len() && l.new == p.0.filter(|b: u32| !p.1.contains(b)).len())),
        repo::read_state_of(m, id, Gx::G1) matches Read::Found(s) ==> (hllset::on_plane(s) ==> (inspected_in(m, id).bits matches Some(n)
            && n == s.len())),
{
    if view::view_of(m, id, Gx::G1) is Found {
        let p = view::view_of(m, id, Gx::G1)->Found_0;
        assert(p.1.difference(p.0) =~= p.1.filter(|b: u32| !p.0.contains(b)));
        assert(p.1.intersect(p.0) =~= p.1.filter(|b: u32| p.0.contains(b)));
        assert(p.0.difference(p.1) =~= p.0.filter(|b: u32| !p.1.contains(b)));
        if hllset::on_plane(p.0) && hllset::on_plane(p.1) {
            hllset::bit_list_facts(p.0);
            hllset::bit_list_facts(p.1);
            vstd::set_lib::lemma_len_subset(p.1.difference(p.0), p.1);
            vstd::set_lib::lemma_len_subset(p.1.intersect(p.0), p.1);
            vstd::set_lib::lemma_len_subset(p.0.difference(p.1), p.0);
        }
    }
    if repo::read_state_of(m, id, Gx::G1) is Found {
        let s = repo::read_state_of(m, id, Gx::G1)->Found_0;
        if hllset::on_plane(s) {
            hllset::bit_list_facts(s);
        }
    }
}

} // verus!
