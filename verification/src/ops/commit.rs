//! Commits of firings: every firing becomes a commit of what it produced.

use vstd::prelude::*;

use crate::git::object::ObjectId;
use crate::git::object::ObjectModel;
use crate::git::repo::LatticeState;
use crate::git::repo::Repository;
use crate::git::store::ObjectStore;
use crate::git::store::StoreError;
use crate::hllset::HLLSet;
use crate::ops::dispatch::FireLog;
use crate::ops::dispatch::FireModel;
use crate::ops::graph::OpGraph;
use crate::git::object;
use crate::git::registry;
use crate::git::repo;
use crate::text;

verus! {

/// The union of the values under a list of keys; keys without a value add nothing.
pub open spec fn united(cids: Seq<Seq<char>>, values: Map<Seq<char>, Set<u32>>) -> Set<u32>
    decreases cids.len(),
{
    if cids.len() == 0 {
        Set::empty()
    } else if values.dom().contains(cids.last()) {
        united(cids.drop_last(), values).union(values[cids.last()])
    } else {
        united(cids.drop_last(), values)
    }
}

/// The message of a firing.
pub open spec fn fire_message(r: FireModel) -> Seq<char> {
    "op="@ + r.op + " inputs="@ + text::joined(r.inputs, ","@) + " outputs="@ + text::joined(r.outputs, ","@)
}

/// The sets of a firing's commit: what it produced, in every channel.
pub open spec fn fire_sets(r: FireModel, values: Map<Seq<char>, Set<u32>>) -> Seq<Set<u32>> {
    let s = united(r.outputs, values);
    seq![s, s, s]
}

/// The digests of the states of the firings of a log.
pub open spec fn fire_digests(log: Seq<FireModel>, values: Map<Seq<char>, Set<u32>>) -> Seq<Seq<char>>
    decreases log.len(),
{
    if log.len() == 0 {
        Seq::empty()
    } else {
        repo::digests(fire_sets(log[0], values)) + fire_digests(log.drop_first(), values)
    }
}

/// The bit frequencies of a firing's commit.
pub open spec fn fire_tf(r: FireModel, values: Map<Seq<char>, Set<u32>>) -> Seq<u64> {
    registry::bumped(Seq::new(crate::hashing::PLANE as nat, |i: int| 0u64), united(r.outputs, values))
}

/// The id of a firing's commit behind a head.
pub open spec fn fire_id(r: FireModel, values: Map<Seq<char>, Set<u32>>, head: Option<Seq<char>>) -> Seq<char> {
    object::id_of(
        ObjectModel::Commit(repo::commit_of(fire_sets(r, values), fire_tf(r, values), repo::head_list(head), fire_message(r))),
    )
}

/// The ids of the commits of firings, each behind the one before.
pub open spec fn fire_ids(log: Seq<FireModel>, values: Map<Seq<char>, Set<u32>>, head: Option<Seq<char>>) -> Seq<
    Seq<char>,
>
    decreases log.len(),
{
    if log.len() == 0 {
        Seq::empty()
    } else {
        let before = fire_ids(log.drop_last(), values, head);
        before.push(fire_id(log.last(), values, fire_head(before, head)))
    }
}

/// The head behind some commits.
pub open spec fn fire_head(ids: Seq<Seq<char>>, head: Option<Seq<char>>) -> Option<Seq<char>> {
    if ids.len() == 0 {
        head
    } else {
        Some(ids.last())
    }
}

/// Objects with the commits of firings put in.
pub open spec fn with_fires(
    m: Map<Seq<char>, ObjectModel>,
    log: Seq<FireModel>,
    values: Map<Seq<char>, Set<u32>>,
    head: Option<Seq<char>>,
) -> Map<Seq<char>, ObjectModel>
    decreases log.len(),
{
    if log.len() == 0 {
        m
    } else {
        let r = log.last();
        let parents = repo::head_list(fire_head(fire_ids(log.drop_last(), values, head), head));
        repo::with_commit(
            with_fires(m, log.drop_last(), values, head),
            fire_sets(r, values),
            fire_tf(r, values),
            parents,
            fire_message(r),
        )
    }
}

/// The union of the values of a firing.
fn unite(cids: &Vec<String>, graph: &OpGraph) -> (s: HLLSet)
    requires
        graph.wf(),
    ensures
        s@ == united(text::texts(cids@), graph.values@),
{
    let ghost all = text::texts(cids@);
    let mut s = HLLSet::new();
    let mut i: usize = 0;
    proof {
        assert(all.take(0) =~= Seq::<Seq<char>>::empty());
    }
    while i < cids.len()
        invariant
            i <= cids@.len(),
            graph.wf(),
            all == text::texts(cids@),
            s@ == united(all.take(i as int), graph.values@),
        decreases cids.len() - i,
    {
        proof {
            assert(all.take(i as int + 1).drop_last() =~= all.take(i as int));
            assert(all.take(i as int + 1).last() == cids@[i as int]@);
        }
        match graph.values.get(cids[i].as_str()) {
            Some(set) => {
                s = s.union(set);
            },
            None => {},
        }
        i = i + 1;
    }
    proof {
        assert(all.take(i as int) =~= all);
    }
    s
}

/// Commits every firing of a log, each behind the one before; the ids.
pub fn commit_fire_log<S: ObjectStore>(repo: &mut Repository<S>, graph: &OpGraph, log: &FireLog) -> (r: Result<
    Vec<ObjectId>,
    StoreError,
>)
    requires
        old(repo).wf(),
        graph.wf(),
        registry::room_for(old(repo).counts(), fire_digests(log@, graph.values@)),
    ensures
        final(repo).wf(),
        final(repo).reliable() == old(repo).reliable(),
        final(repo).spec_branches() == old(repo).spec_branches(),
        old(repo).reliable() ==> r is Ok,
        match r {
            Ok(ids) => {
                &&& object::id_texts(ids@) == fire_ids(log@, graph.values@, old(repo).spec_head())
                &&& final(repo).contents() == with_fires(old(repo).contents(), log@, graph.values@, old(repo).spec_head())
                &&& final(repo).spec_head() == fire_head(object::id_texts(ids@), old(repo).spec_head())
            },
            Err(_) => true,
        },
{
    let ghost all = log@;
    let ghost values = graph.values@;
    let ghost head = repo.spec_head();
    let ghost m = repo.contents();
    let mut ids: Vec<ObjectId> = Vec::new();
    let mut i: usize = 0;
    proof {
        assert(all.take(0) =~= Seq::<FireModel>::empty());
        assert(all.skip(0) =~= all);
        assert(object::id_texts(ids@) =~= Seq::<Seq<char>>::empty());
    }
    while i < log.records.len()
        invariant
            i <= log.records@.len(),
            repo.wf(),
            graph.wf(),
            all == log@,
            all.len() == log.records@.len(),
            values == graph.values@,
            repo.reliable() == old(repo).reliable(),
            repo.spec_branches() == old(repo).spec_branches(),
            head == old(repo).spec_head(),
            m == old(repo).contents(),
            registry::room_for(repo.counts(), fire_digests(all.skip(i as int), values)),
            object::id_texts(ids@) == fire_ids(all.take(i as int), values, head),
            repo.contents() == with_fires(m, all.take(i as int), values, head),
            repo.spec_head() == fire_head(object::id_texts(ids@), head),
        decreases log.records.len() - i,
    {
        let record = &log.records[i];
        let ghost r = all[i as int];
        proof {
            assert(all.take(i as int + 1).drop_last() =~= all.take(i as int));
            assert(all.take(i as int + 1).last() == r);
            assert(r == record@);
        }
        let set = unite(&record.outputs, graph);
        let state = LatticeState::single(&set);
        let mut parents: Vec<ObjectId> = Vec::new();
        match repo.head() {
            Some(id) => {
                parents.push(id.copy());
            },
            None => {},
        }
        let inputs = text::join_texts(&record.inputs, ",");
        let outputs = text::join_texts(&record.outputs, ",");
        let a = text::concat3("op=", record.op.as_str(), " inputs=");
        let b = text::concat3(a.as_str(), inputs.as_str(), " outputs=");
        let message = text::concat2(b.as_str(), outputs.as_str());
        let ghost c0 = repo.counts();
        proof {
            assert(object::id_texts(parents@) =~= repo::head_list(repo.spec_head()));
            assert(message@ =~= fire_message(r));
            assert(state.sets() =~= fire_sets(r, values));
            assert(all.skip(i as int).drop_first() =~= all.skip(i as int + 1));
            assert(all.skip(i as int)[0] == r);
            registry::room_split(
                c0,
                repo::digests(fire_sets(r, values)),
                fire_digests(all.skip(i as int + 1), values),
            );
        }
        let id = match repo.commit(&state, parents.as_slice(), message.as_str()) {
            Ok(id) => id,
            Err(e) => {
                return Err(e);
            },
        };
        proof {
            assert(object::id_texts(ids@.push(id)) =~= object::id_texts(ids@).push(id@));
        }
        ids.push(id);
        i = i + 1;
    }
    proof {
        assert(all.take(i as int) =~= all);
    }
    Ok(ids)
}

/// What a firing commits: the bits of its outputs together, each bit exactly where the
/// set of some output has it.
pub proof fn united_law(cids: Seq<Seq<char>>, values: Map<Seq<char>, Set<u32>>, x: u32)
    ensures
        united(cids, values).contains(x) <==> exists|i: int|
            0 <= i < cids.len() && values.dom().contains(#[trigger] cids[i]) && values[cids[i]].contains(x),
    decreases cids.len(),
{
    if cids.len() > 0 {
        let front = cids.drop_last();
        united_law(front, values, x);
        assert(cids[cids.len() - 1] == cids.last());
        if united(front, values).contains(x) {
            let i = choose|i: int|
                0 <= i < front.len() && values.dom().contains(#[trigger] front[i]) && values[front[i]].contains(x);
            assert(cids[i] == front[i]);
        }
        if exists|i: int| 0 <= i < cids.len() && values.dom().contains(#[trigger] cids[i]) && values[cids[i]].contains(x) {
            let i = choose|i: int|
                0 <= i < cids.len() && values.dom().contains(#[trigger] cids[i]) && values[cids[i]].contains(x);
            if i < front.len() {
                assert(front[i] == cids[i]);
            }
        }
    }
}

/// A log of firings becomes a chain of commits, one for each firing, in order: the
/// first on top of the head, each other one on top of the one before it. All three
/// channels of a commit are the bits of the firing's outputs, its counts one for each
/// of them.
pub proof fn fire_chain_law(log: Seq<FireModel>, values: Map<Seq<char>, Set<u32>>, head: Option<Seq<char>>, i: int)
    requires
        0 <= i < log.len(),
    ensures
        fire_ids(log, values, head).len() == log.len(),
        ({
            let s = united(log[i].outputs, values);
            let parents = if i > 0 {
                seq![fire_ids(log, values, head)[i - 1]]
            } else {
                match head {
                    Some(h) => seq![h],
                    None => Seq::empty(),
                }
            };
            fire_ids(log, values, head)[i] == object::id_of(
                ObjectModel::Commit(
                    repo::commit_of(
                        seq![s, s, s],
                        Seq::new(crate::hashing::PLANE as nat, |k: int| if s.contains(k as u32) { 1u64 } else { 0 }),
                        parents,
                        "op="@ + log[i].op + " inputs="@ + text::joined(log[i].inputs, ","@) + " outputs="@ + text::joined(
                            log[i].outputs,
                            ","@,
                        ),
                    ),
                ),
            )
        }),
    decreases log.len(),
{
    let front = log.drop_last();
    let before = fire_ids(front, values, head);
    fire_ids_len(front, values, head);
    let all = fire_ids(log, values, head);
    if i < front.len() {
        fire_chain_law(front, values, head, i);
        assert(all[i] == before[i]);
        if i > 0 {
            assert(all[i - 1] == before[i - 1]);
        }
        assert(front[i] == log[i]);
    } else {
        let s = united(log[i].outputs, values);
        assert(log.last() == log[i]);
        assert(fire_tf(log[i], values) =~= Seq::new(
            crate::hashing::PLANE as nat,
            |k: int| if s.contains(k as u32) { 1u64 } else { 0 },
        ));
        if i > 0 {
            assert(all[i - 1] == before[i - 1]);
            assert(before.last() == before[i - 1]);
        }
    }
}

proof fn fire_ids_len(log: Seq<FireModel>, values: Map<Seq<char>, Set<u32>>, head: Option<Seq<char>>)
    ensures
        fire_ids(log, values, head).len() == log.len(),
    decreases log.len(),
{
    if log.len() > 0 {
        fire_ids_len(log.drop_last(), values, head);
    }
}

/// Every firing of a log is stored: each of its commits is there behind it, and so is
/// what was there before.
pub proof fn fires_stored(
    m: Map<Seq<char>, ObjectModel>,
    log: Seq<FireModel>,
    values: Map<Seq<char>, Set<u32>>,
    head: Option<Seq<char>>,
    i: int,
    id: Seq<char>,
)
    requires
        0 <= i < log.len(),
    ensures
        with_fires(m, log, values, head).dom().contains(fire_ids(log, values, head)[i]),
        m.dom().contains(id) ==> with_fires(m, log, values, head).dom().contains(id),
    decreases log.len(),
{
    let front = log.drop_last();
    let before = fire_ids(front, values, head);
    fires_counted(front, values, head);
    if i < front.len() {
        fires_stored(m, front, values, head, i, id);
        assert(fire_ids(log, values, head)[i] == before[i]);
    } else if front.len() > 0 {
        fires_stored(m, front, values, head, 0, id);
    }
}

proof fn fires_counted(log: Seq<FireModel>, values: Map<Seq<char>, Set<u32>>, head: Option<Seq<char>>)
    ensures
        fire_ids(log, values, head).len() == log.len(),
    decreases log.len(),
{
    if log.len() > 0 {
        fires_counted(log.drop_last(), values, head);
    }
}

} // verus!
