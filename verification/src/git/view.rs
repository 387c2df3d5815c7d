//! Views of a commit: what departed, what stayed and what is new against its
//! parents.

use vstd::prelude::*;

use crate::git::object::Gx;
use crate::git::object::ObjectId;
use crate::git::object::ObjectModel;
use crate::git::repo::Read;
use crate::git::repo::Repository;
use crate::git::store::ObjectStore;
use crate::git::store::StoreError;
use crate::hllset::HLLSet;
use crate::git::object;
use crate::git::repo;
use crate::text;

verus! {

/// A channel of a commit against the joined states of its parents.
#[derive(Clone, Debug, PartialEq, Eq)]
pub struct CommitView {
    pub commit: ObjectId,
    pub channel: Gx,
    pub state: HLLSet,
    pub parent_state: HLLSet,
    /// In the parents, and not in the commit.
    pub departed: HLLSet,
    /// In both.
    pub retained: HLLSet,
    /// In the commit, and not in the parents.
    pub new: HLLSet,
    pub parents: Vec<ObjectId>,
}

/// The join of the states of a list of commits in a channel, or the first failure.
pub open spec fn parents_join(m: Map<Seq<char>, ObjectModel>, list: Seq<Seq<char>>, gx: Gx) -> Read<Set<u32>>
    decreases list.len(),
{
    if list.len() == 0 {
        Read::Found(Set::empty())
    } else {
        match parents_join(m, list.drop_last(), gx) {
            Read::Found(s) => match repo::read_state_of(m, list.last(), gx) {
                Read::Found(t) => Read::Found(s.union(t)),
                Read::Missing(x) => Read::Missing(x),
                Read::Wrong(w) => Read::Wrong(w),
            },
            Read::Missing(x) => Read::Missing(x),
            Read::Wrong(w) => Read::Wrong(w),
        }
    }
}

/// The state of a commit in a channel and the join of its parents' states, or the
/// first failure.
pub open spec fn view_of(m: Map<Seq<char>, ObjectModel>, id: Seq<char>, gx: Gx) -> Read<(Set<u32>, Set<u32>)> {
    match repo::read_commit_of(m, id) {
        Read::Found(c) => match repo::read_state_of(m, id, gx) {
            Read::Found(s) => match parents_join(m, c.parents, gx) {
                Read::Found(p) => Read::Found((s, p)),
                Read::Missing(x) => Read::Missing(x),
                Read::Wrong(w) => Read::Wrong(w),
            },
            Read::Missing(x) => Read::Missing(x),
            Read::Wrong(w) => Read::Wrong(w),
        },
        Read::Missing(x) => Read::Missing(x),
        Read::Wrong(w) => Read::Wrong(w),
    }
}

impl CommitView {
    /// The view shows a commit of the objects.
    pub open spec fn shows(&self, m: Map<Seq<char>, ObjectModel>, id: Seq<char>, gx: Gx) -> bool {
        &&& view_of(m, id, gx) == Read::Found((self.state@, self.parent_state@))
        &&& self.commit@ == id
        &&& self.channel == gx
        &&& object::id_texts(self.parents@) == repo::parents_in(m, id)
        &&& self.departed@ == self.parent_state@.difference(self.state@)
        &&& self.retained@ == self.parent_state@.intersect(self.state@)
        &&& self.new@ == self.state@.difference(self.parent_state@)
    }
}

/// A failed view says which read failed.
pub open spec fn view_failed(e: StoreError, read: Read<(Set<u32>, Set<u32>)>) -> bool {
    match e {
        StoreError::NotFound(x) => read == Read::<(Set<u32>, Set<u32>)>::Missing(x@),
        StoreError::Io(w) => read == Read::<(Set<u32>, Set<u32>)>::Wrong(w@),
    }
}

/// A channel of a commit against its parents.
pub fn view_channel<S: ObjectStore>(repo: &Repository<S>, commit_id: &ObjectId, gx: Gx) -> (r: Result<
    CommitView,
    StoreError,
>)
    requires
        repo.wf(),
    ensures
        match r {
            Ok(v) => v.shows(repo.contents(), commit_id@, gx),
            Err(e) => view_failed(e, view_of(repo.contents(), commit_id@, gx)),
        },
{
    let ghost m = repo.contents();
    let commit = match repo.read_commit(commit_id) {
        Ok(c) => c,
        Err(e) => {
            return Err(e);
        },
    };
    let state = match repo.state_channel(commit_id, gx) {
        Ok(s) => s,
        Err(e) => {
            return Err(e);
        },
    };
    let mut parent_state = HLLSet::new();
    let ghost list = commit@.parents;
    let mut i: usize = 0;
    proof {
        assert(list.take(0) =~= Seq::<Seq<char>>::empty());
        parents_join_prefix(m, list, 0, gx);
    }
    while i < commit.parents.len()
        invariant
            i <= commit.parents@.len(),
            repo.wf(),
            m == repo.contents(),
            list == object::id_texts(commit.parents@),
            repo::read_commit_of(m, commit_id@) == Read::Found(commit@),
            repo::read_state_of(m, commit_id@, gx) == Read::Found(state@),
            parents_join(m, list.take(i as int), gx) == Read::Found(parent_state@),
        decreases commit.parents.len() - i,
    {
        proof {
            assert(list.take(i as int + 1).drop_last() =~= list.take(i as int));
            assert(list.take(i as int + 1).last() == commit.parents@[i as int]@);
            parents_join_prefix(m, list, i as int + 1, gx);
        }
        match repo.state_channel(&commit.parents[i], gx) {
            Ok(s) => {
                parent_state.merge(&s);
            },
            Err(e) => {
                return Err(e);
            },
        }
        i = i + 1;
    }
    proof {
        assert(list.take(i as int) =~= list);
    }
    let departed = parent_state.difference(&state);
    let retained = parent_state.intersection(&state);
    let new = state.difference(&parent_state);
    Ok(
        CommitView {
            commit: commit_id.copy(),
            channel: gx,
            state,
            parent_state,
            departed,
            retained,
            new,
            parents: commit.parents,
        },
    )
}

/// A failure among the first parents is the failure of all.
proof fn parents_join_prefix(m: Map<Seq<char>, ObjectModel>, list: Seq<Seq<char>>, n: int, gx: Gx)
    requires
        0 <= n <= list.len(),
    ensures
        !(parents_join(m, list.take(n), gx) is Found) ==> parents_join(m, list, gx) == parents_join(m, list.take(n), gx),
    decreases list.len() - n,
{
    if n < list.len() {
        parents_join_prefix(m, list, n + 1, gx);
        assert(list.take(n + 1).drop_last() =~= list.take(n));
    } else {
        assert(list.take(n) =~= list);
    }
}

/// The first channel of a commit against its parents.
pub fn view<S: ObjectStore>(repo: &Repository<S>, commit_id: &ObjectId) -> (r: Result<CommitView, StoreError>)
    requires
        repo.wf(),
    ensures
        match r {
            Ok(v) => v.shows(repo.contents(), commit_id@, Gx::G1),
            Err(e) => view_failed(e, view_of(repo.contents(), commit_id@, Gx::G1)),
        },
{
    view_channel(repo, commit_id, Gx::G1)
}

/// The three channels of a commit against its parents; the first failure counts.
pub fn views<S: ObjectStore>(repo: &Repository<S>, commit_id: &ObjectId) -> (r: Result<[CommitView; 3], StoreError>)
    requires
        repo.wf(),
    ensures
        match r {
            Ok(a) => a@[0].shows(repo.contents(), commit_id@, Gx::G1) && a@[1].shows(
                repo.contents(),
                commit_id@,
                Gx::G2,
            ) && a@[2].shows(repo.contents(), commit_id@, Gx::G3),
            Err(e) => view_failed(
                e,
                match view_of(repo.contents(), commit_id@, Gx::G1) {
                    Read::Found(_) => match view_of(repo.contents(), commit_id@, Gx::G2) {
                        Read::Found(_) => view_of(repo.contents(), commit_id@, Gx::G3),
                        other => other,
                    },
                    other => other,
                },
            ),
        },
{
    let a = match view_channel(repo, commit_id, Gx::G1) {
        Ok(v) => v,
        Err(e) => {
            return Err(e);
        },
    };
    let b = match view_channel(repo, commit_id, Gx::G2) {
        Ok(v) => v,
        Err(e) => {
            return Err(e);
        },
    };
    let c = match view_channel(repo, commit_id, Gx::G3) {
        Ok(v) => v,
        Err(e) => {
            return Err(e);
        },
    };
    Ok([a, b, c])
}

/// What departed and what stayed make up the parents' state, what stayed and what
/// is new the commit's; what departed and what is new have nothing in common.
pub proof fn view_law(v: CommitView, m: Map<Seq<char>, ObjectModel>, id: Seq<char>, gx: Gx)
    requires
        v.shows(m, id, gx),
    ensures
        v.departed@.union(v.retained@) == v.parent_state@,
        v.retained@.union(v.new@) == v.state@,
        v.departed@.disjoint(v.new@),
        v.departed@.disjoint(v.retained@),
        v.retained@.disjoint(v.new@),
{
    assert(v.departed@.union(v.retained@) =~= v.parent_state@);
    assert(v.retained@.union(v.new@) =~= v.state@);
}

/// The key of a committed HLLSet.
pub fn hllset_key(id: &ObjectId) -> (key: String)
    ensures
        key@ == "h:"@ + id@,
{
    text::concat2("h:", id.as_str())
}

/// The state before a commit is what its parents had together: a bit is in it exactly
/// where the state of some parent has it. It can be read if and only if every parent's
/// state can.
pub proof fn parents_join_law(m: Map<Seq<char>, ObjectModel>, list: Seq<Seq<char>>, gx: Gx)
    ensures
        parents_join(m, list, gx) is Found <==> forall|i: int|
            0 <= i < list.len() ==> repo::read_state_of(m, #[trigger] list[i], gx) is Found,
        parents_join(m, list, gx) matches Read::Found(s) ==> forall|x: u32| #[trigger]
            s.contains(x) <==> exists|i: int|
                0 <= i < list.len() && repo::read_state_of(m, #[trigger] list[i], gx)->Found_0.contains(x),
    decreases list.len(),
{
    if list.len() > 0 {
        let front = list.drop_last();
        parents_join_law(m, front, gx);
        assert(list[list.len() - 1] == list.last());
        assert forall|i: int| 0 <= i < front.len() implies #[trigger] front[i] == list[i] by {}
        if parents_join(m, list, gx) is Found {
            assert forall|i: int| 0 <= i < list.len() implies repo::read_state_of(m, #[trigger] list[i], gx) is Found by {
                if i < front.len() {
                    assert(front[i] == list[i]);
                }
            }
            let s = parents_join(m, list, gx)->Found_0;
            let before = parents_join(m, front, gx)->Found_0;
            assert forall|x: u32| #[trigger] s.contains(x) <==> exists|i: int|
                0 <= i < list.len() && repo::read_state_of(m, #[trigger] list[i], gx)->Found_0.contains(x) by {
                if before.contains(x) {
                    let i = choose|i: int|
                        0 <= i < front.len() && repo::read_state_of(m, #[trigger] front[i], gx)->Found_0.contains(x);
                    assert(list[i] == front[i]);
                }
                if exists|i: int| 0 <= i < list.len() && repo::read_state_of(m, #[trigger] list[i], gx)->Found_0.contains(x) {
                    let i = choose|i: int|
                        0 <= i < list.len() && repo::read_state_of(m, #[trigger] list[i], gx)->Found_0.contains(x);
                    if i < front.len() {
                        assert(front[i] == list[i]);
                    }
                }
            }
        }
        if forall|i: int| 0 <= i < list.len() ==> repo::read_state_of(m, #[trigger] list[i], gx) is Found {
            assert forall|i: int| 0 <= i < front.len() implies repo::read_state_of(m, #[trigger] front[i], gx) is Found by {
                assert(front[i] == list[i]);
            }
        }
    }
}

/// A view, bit by bit: what departed is what the parents had and the commit lacks,
/// what was retained is what both have, what is new is what only the commit has.
pub proof fn view_bits(v: CommitView, m: Map<Seq<char>, ObjectModel>, id: Seq<char>, gx: Gx, x: u32)
    requires
        v.shows(m, id, gx),
    ensures
        repo::read_state_of(m, id, gx) == Read::Found(v.state@),
        v.departed@.contains(x) <==> v.parent_state@.contains(x) && !v.state@.contains(x),
        v.retained@.contains(x) <==> v.parent_state@.contains(x) && v.state@.contains(x),
        v.new@.contains(x) <==> !v.parent_state@.contains(x) && v.state@.contains(x),
        v.parent_state@.contains(x) <==> exists|i: int|
            0 <= i < repo::parents_in(m, id).len() && repo::read_state_of(
                m,
                #[trigger] repo::parents_in(m, id)[i],
                gx,
            )->Found_0.contains(x),
{
    parents_join_law(m, repo::parents_in(m, id), gx);
}

} // verus!
