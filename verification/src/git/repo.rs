//! The repository: commits of lattice states over an object store, the joins of
//! all committed states, time travel, merging, the log, and pruning.

use vstd::prelude::*;

use crate::git::intake::IngestSink;
use crate::git::intake::Ingestor;
use crate::git::intake::OriginalList;
use crate::git::object::Commit;
use crate::git::object::CommitModel;
use crate::git::object::Gx;
use crate::git::object::Object;
use crate::git::object::ObjectId;
use crate::git::object::ObjectModel;
use crate::git::registry::BitTf;
use crate::git::registry::HllsetLut;
use crate::git::store::ObjectStore;
use crate::git::store::StoreError;
use crate::hllset::HLLSet;
use crate::sorted::Key;
use crate::sorted::SortedMap;
use crate::git::intake;
use crate::git::object;
use crate::git::registry;
use crate::hllset;
use crate::search;
use crate::sorted;
use crate::text;
use crate::tf;

verus! {

/// The states of the three channels, with bit frequencies.
#[derive(Clone, Debug, PartialEq, Eq)]
pub struct LatticeState {
    pub g1: HLLSet,
    pub g2: HLLSet,
    pub g3: HLLSet,
    pub tf: BitTf,
}

impl LatticeState {
    /// The three sets in order.
    pub open spec fn sets(&self) -> Seq<Set<u32>> {
        seq![self.g1@, self.g2@, self.g3@]
    }

    /// One set in all three channels, touched once.
    pub fn single(hllset: &HLLSet) -> (s: LatticeState)
        ensures
            s.tf.wf(),
            s.sets() == seq![hllset@, hllset@, hllset@],
            s.tf@ == registry::bumped(Seq::new(crate::hashing::PLANE as nat, |i: int| 0u64), hllset@),
    {
        let mut tf = BitTf::new();
        tf.touch(hllset);
        LatticeState { g1: *hllset, g2: *hllset, g3: *hllset, tf }
    }

    pub fn channels(&self) -> (c: [HLLSet; 3])
        ensures
            c@ == seq![self.g1, self.g2, self.g3],
    {
        [self.g1, self.g2, self.g3]
    }

    pub fn get(&self, gx: Gx) -> (s: &HLLSet)
        ensures
            s@ == self.sets()[gx.place()],
    {
        match gx {
            Gx::G1 => &self.g1,
            Gx::G2 => &self.g2,
            Gx::G3 => &self.g3,
        }
    }
}

/// What reading from a store's objects gives: a value, the id of a missing object,
/// or words for an object of the wrong form or that cannot be read.
pub enum Read<T> {
    Found(T),
    Missing(Seq<char>),
    Wrong(Seq<char>),
}

/// A result says what the objects say.
pub open spec fn agrees<T: View>(r: Result<T, StoreError>, read: Read<T::V>) -> bool {
    match r {
        Ok(v) => read == Read::Found(v@),
        Err(StoreError::NotFound(x)) => read == Read::<T::V>::Missing(x@),
        Err(StoreError::Io(m)) => read == Read::<T::V>::Wrong(m@),
    }
}

/// The commit under an id.
pub open spec fn read_commit_of(m: Map<Seq<char>, ObjectModel>, id: Seq<char>) -> Read<CommitModel> {
    if !m.dom().contains(id) {
        Read::Missing(id)
    } else {
        match m[id] {
            ObjectModel::Commit(c) => Read::Found(c),
            ObjectModel::Blob(_) => Read::Wrong("not a commit"@),
            ObjectModel::Spoiled(w) => Read::Wrong(w),
        }
    }
}

/// The set in a blob.
pub open spec fn read_set_of(m: Map<Seq<char>, ObjectModel>, id: Seq<char>) -> Read<Set<u32>> {
    if !m.dom().contains(id) {
        Read::Missing(id)
    } else {
        match m[id] {
            ObjectModel::Blob(bytes) => if hllset::valid_set_bytes(bytes) {
                Read::Found(hllset::set_in(bytes))
            } else {
                Read::Wrong("corrupt state blob"@)
            },
            ObjectModel::Commit(_) => Read::Wrong("not a blob"@),
            ObjectModel::Spoiled(w) => Read::Wrong(w),
        }
    }
}

/// The state of a channel in a commit.
pub open spec fn read_state_of(m: Map<Seq<char>, ObjectModel>, id: Seq<char>, gx: Gx) -> Read<Set<u32>> {
    match read_commit_of(m, id) {
        Read::Found(c) => read_set_of(m, c.trees[gx.place()]),
        Read::Missing(x) => Read::Missing(x),
        Read::Wrong(w) => Read::Wrong(w),
    }
}

/// The states of the three channels in a commit.
pub open spec fn read_states_of(m: Map<Seq<char>, ObjectModel>, id: Seq<char>) -> Read<Seq<Set<u32>>> {
    match read_state_of(m, id, Gx::G1) {
        Read::Found(a) => match read_state_of(m, id, Gx::G2) {
            Read::Found(b) => match read_state_of(m, id, Gx::G3) {
                Read::Found(c) => Read::Found(seq![a, b, c]),
                Read::Missing(x) => Read::Missing(x),
                Read::Wrong(w) => Read::Wrong(w),
            },
            Read::Missing(x) => Read::Missing(x),
            Read::Wrong(w) => Read::Wrong(w),
        },
        Read::Missing(x) => Read::Missing(x),
        Read::Wrong(w) => Read::Wrong(w),
    }
}

/// The states of a commit in the order of the channels, up to the first that cannot
/// be read.
pub open spec fn states_in(m: Map<Seq<char>, ObjectModel>, id: Seq<char>) -> Seq<Set<u32>> {
    match read_state_of(m, id, Gx::G1) {
        Read::Found(a) => match read_state_of(m, id, Gx::G2) {
            Read::Found(b) => match read_state_of(m, id, Gx::G3) {
                Read::Found(c) => seq![a, b, c],
                _ => seq![a, b],
            },
            _ => seq![a],
        },
        _ => Seq::empty(),
    }
}

/// The bit frequencies in a commit.
pub open spec fn read_tf_of(m: Map<Seq<char>, ObjectModel>, id: Seq<char>) -> Read<Seq<u64>> {
    match read_commit_of(m, id) {
        Read::Found(c) => if !m.dom().contains(c.tf) {
            Read::Missing(c.tf)
        } else {
            match m[c.tf] {
                ObjectModel::Blob(bytes) => if tf::valid_tf_bytes(bytes) {
                    Read::Found(tf::tf_decoded(bytes))
                } else {
                    Read::Wrong("corrupt TF blob"@)
                },
                ObjectModel::Commit(_) => Read::Wrong("not a blob"@),
                ObjectModel::Spoiled(w) => Read::Wrong(w),
            }
        },
        Read::Missing(x) => Read::Missing(x),
        Read::Wrong(w) => Read::Wrong(w),
    }
}

/// The sets of an array of sketches.
pub open spec fn set_views(a: Seq<HLLSet>) -> Seq<Set<u32>> {
    a.map_values(|s: HLLSet| s@)
}

/// The digests of sets of bits.
pub open spec fn digests(sets: Seq<Set<u32>>) -> Seq<Seq<char>> {
    sets.map_values(|s: Set<u32>| intake::sketch_digest(s))
}

/// The blob of a set.
pub open spec fn set_blob(s: Set<u32>) -> ObjectModel {
    ObjectModel::Blob(hllset::set_bytes(s))
}

/// The commit of a state.
pub open spec fn commit_of(sets: Seq<Set<u32>>, tf: Seq<u64>, parents: Seq<Seq<char>>, message: Seq<char>) -> CommitModel {
    CommitModel {
        trees: seq![object::id_of(set_blob(sets[0])), object::id_of(set_blob(sets[1])), object::id_of(set_blob(sets[2]))],
        tf: object::id_of(ObjectModel::Blob(tf::tf_bytes(tf))),
        parents,
        message,
    }
}

/// Objects with the blobs of a state put in.
pub open spec fn with_blobs(m: Map<Seq<char>, ObjectModel>, sets: Seq<Set<u32>>, tf: Seq<u64>) -> Map<
    Seq<char>,
    ObjectModel,
> {
    m.insert(object::id_of(set_blob(sets[0])), set_blob(sets[0])).insert(object::id_of(set_blob(sets[1])), set_blob(sets[1])).insert(
        object::id_of(set_blob(sets[2])),
        set_blob(sets[2]),
    ).insert(object::id_of(ObjectModel::Blob(tf::tf_bytes(tf))), ObjectModel::Blob(tf::tf_bytes(tf)))
}

/// Objects with a commit and its blobs put in.
pub open spec fn with_commit(
    m: Map<Seq<char>, ObjectModel>,
    sets: Seq<Set<u32>>,
    tf: Seq<u64>,
    parents: Seq<Seq<char>>,
    message: Seq<char>,
) -> Map<Seq<char>, ObjectModel> {
    let c = ObjectModel::Commit(commit_of(sets, tf, parents, message));
    with_blobs(m, sets, tf).insert(object::id_of(c), c)
}

/// The ids under which a commit and its blobs are put.
pub open spec fn commit_ids(sets: Seq<Set<u32>>, tf: Seq<u64>, parents: Seq<Seq<char>>, message: Seq<char>) -> Set<
    Seq<char>,
> {
    set![
        object::id_of(set_blob(sets[0])),
        object::id_of(set_blob(sets[1])),
        object::id_of(set_blob(sets[2])),
        object::id_of(ObjectModel::Blob(tf::tf_bytes(tf))),
        object::id_of(ObjectModel::Commit(commit_of(sets, tf, parents, message))),
    ]
}

/// Maps that agree but for one key agree but for any keys with it.
proof fn same_but_for(a: Map<Seq<char>, ObjectModel>, b: Map<Seq<char>, ObjectModel>, k: Seq<char>, s: Set<Seq<char>>)
    requires
        a.remove(k) == b.remove(k),
        s.contains(k),
    ensures
        a.remove_keys(s) == b.remove_keys(s),
{
    let x = a.remove_keys(s);
    let y = b.remove_keys(s);
    assert forall|q: Seq<char>| #![trigger x.dom().contains(q)] #![trigger y.dom().contains(q)] x.dom().contains(q)
        == y.dom().contains(q) && (x.dom().contains(q) ==> x[q] == y[q]) by {
        if q != k {
            assert(a.remove(k).dom().contains(q) == a.dom().contains(q));
            assert(b.remove(k).dom().contains(q) == b.dom().contains(q));
            if a.dom().contains(q) {
                assert(a.remove(k)[q] == a[q]);
                assert(b.remove(k)[q] == b[q]);
            }
        }
    }
    assert(x.dom() =~= y.dom());
    assert(x =~= y);
}

/// The parents of a commit; none where there is no commit.
pub open spec fn parents_in(m: Map<Seq<char>, ObjectModel>, id: Seq<char>) -> Seq<Seq<char>> {
    match read_commit_of(m, id) {
        Read::Found(c) => c.parents,
        _ => Seq::empty(),
    }
}

/// The commits reached breadth first from a queue, each once.
pub open spec fn history(
    m: Map<Seq<char>, ObjectModel>,
    queue: Seq<Seq<char>>,
    seen: Set<Seq<char>>,
    order: Seq<Seq<char>>,
) -> Read<Seq<Seq<char>>>
    decreases m.dom().difference(seen).len(), queue.len(),
    when m.dom().finite()
    via history_decreases
{
    if queue.len() == 0 {
        Read::Found(order)
    } else if seen.contains(queue[0]) {
        history(m, queue.skip(1), seen, order)
    } else {
        match read_commit_of(m, queue[0]) {
            Read::Found(c) => history(m, queue.skip(1) + c.parents, seen.insert(queue[0]), order.push(queue[0])),
            Read::Missing(x) => Read::Missing(x),
            Read::Wrong(w) => Read::Wrong(w),
        }
    }
}

#[via_fn]
proof fn history_decreases(
    m: Map<Seq<char>, ObjectModel>,
    queue: Seq<Seq<char>>,
    seen: Set<Seq<char>>,
    order: Seq<Seq<char>>,
) {
    if queue.len() > 0 && !seen.contains(queue[0]) && m.dom().contains(queue[0]) {
        less_unseen(m.dom(), seen, queue[0]);
    }
}

/// Seeing one more id leaves fewer unseen.
proof fn less_unseen(dom: Set<Seq<char>>, seen: Set<Seq<char>>, id: Seq<char>)
    requires
        dom.finite(),
        dom.contains(id),
        !seen.contains(id),
    ensures
        dom.difference(seen.insert(id)).len() < dom.difference(seen).len(),
        dom.difference(seen).finite(),
{
    let a = dom.difference(seen);
    assert(dom.difference(seen.insert(id)) =~= a.remove(id));
}

/// Whether a list of commits holds a child of an id.
pub open spec fn has_child(m: Map<Seq<char>, ObjectModel>, list: Seq<Seq<char>>, id: Seq<char>) -> bool {
    exists|i: int| 0 <= i < list.len() && parents_in(m, #[trigger] list[i]).contains(id)
}

/// The first place from a place on whose commit has no child in the list; the
/// first of all where there is none.
pub open spec fn childless(m: Map<Seq<char>, ObjectModel>, list: Seq<Seq<char>>, from: int) -> int
    decreases list.len() - from,
{
    if from < 0 || from >= list.len() {
        0
    } else if !has_child(m, list, list[from]) {
        from
    } else {
        childless(m, list, from + 1)
    }
}

/// A list of commits with each behind its children: time and again the first that
/// has no child among those left.
pub open spec fn newest_first(m: Map<Seq<char>, ObjectModel>, list: Seq<Seq<char>>) -> Seq<Seq<char>>
    decreases list.len(),
    via newest_first_decreases
{
    if list.len() == 0 {
        list
    } else {
        let k = childless(m, list, 0);
        seq![list[k]] + newest_first(m, list.remove(k))
    }
}

#[via_fn]
proof fn newest_first_decreases(m: Map<Seq<char>, ObjectModel>, list: Seq<Seq<char>>) {
    if list.len() > 0 {
        childless_facts(m, list, 0);
    }
}

proof fn childless_facts(m: Map<Seq<char>, ObjectModel>, list: Seq<Seq<char>>, from: int)
    requires
        0 <= from <= list.len(),
        list.len() > 0,
    ensures
        0 <= childless(m, list, from) < list.len(),
        (exists|k: int| from <= k < list.len() && !has_child(m, list, #[trigger] list[k])) ==> !has_child(
            m,
            list,
            list[childless(m, list, from)],
        ),
    decreases list.len() - from,
{
    if from < list.len() {
        if has_child(m, list, list[from]) {
            childless_facts(m, list, from + 1);
        }
    }
}

/// The log: the commits reached from the head, each behind its parents.
pub open spec fn log_of(m: Map<Seq<char>, ObjectModel>, head: Option<Seq<char>>) -> Read<Seq<Seq<char>>> {
    match head {
        None => Read::Found(Seq::empty()),
        Some(h) => match history(m, seq![h], Set::empty(), Seq::empty()) {
            Read::Found(order) => Read::Found(newest_first(m, order).reverse()),
            Read::Missing(x) => Read::Missing(x),
            Read::Wrong(w) => Read::Wrong(w),
        },
    }
}

/// Every commit of a list stands behind those of its parents that the list holds.
pub open spec fn oldest_first(m: Map<Seq<char>, ObjectModel>, list: Seq<Seq<char>>) -> bool {
    forall|i: int, j: int|
        0 <= i < list.len() && 0 <= j < list.len() && parents_in(m, #[trigger] list[i]).contains(#[trigger] list[j]) ==> j < i
}

/// No commit of a list descends from itself: the commits have ages, and a parent
/// is older than its child.
pub open spec fn acyclic(m: Map<Seq<char>, ObjectModel>, list: Seq<Seq<char>>) -> bool {
    exists|age: spec_fn(Seq<char>) -> nat| #[trigger] aged(m, list, age)
}

/// Ages under which each child is younger than its parents.
pub open spec fn aged(m: Map<Seq<char>, ObjectModel>, list: Seq<Seq<char>>, age: spec_fn(Seq<char>) -> nat) -> bool {
    forall|i: int, j: int|
        0 <= i < list.len() && 0 <= j < list.len() && parents_in(m, #[trigger] list[i]).contains(#[trigger] list[j]) ==> age(
            list[i],
        ) < age(list[j])
}

/// The ids of the objects that can be read.
pub open spec fn readable_ids(m: Map<Seq<char>, ObjectModel>) -> Set<Seq<char>> {
    m.dom().filter(|id: Seq<char>| !(m[id] is Spoiled))
}

/// The ids that an object points to.
pub open spec fn links(m: Map<Seq<char>, ObjectModel>, id: Seq<char>) -> Seq<Seq<char>> {
    match read_commit_of(m, id) {
        Read::Found(c) => c.trees.push(c.tf) + c.parents,
        _ => Seq::empty(),
    }
}

/// Sets of ids that hold whatever their members point to.
pub open spec fn closed_under_links(m: Map<Seq<char>, ObjectModel>, s: Set<Seq<char>>) -> bool {
    forall|id: Seq<char>, i: int|
        s.contains(id) && 0 <= i < links(m, id).len() ==> s.contains(#[trigger] links(m, id)[i])
}

/// The ids reachable from roots: the smallest such set around them.
pub open spec fn reachable(m: Map<Seq<char>, ObjectModel>, roots: Set<Seq<char>>) -> Set<Seq<char>> {
    Set::new(
        |id: Seq<char>|
            forall|s: Set<Seq<char>>|
                #[trigger] closed_under_links(m, s) && roots.subset_of(s) ==> s.contains(id),
    )
}

/// The reachable ids hold the roots and whatever they point to.
pub proof fn reachable_closed(m: Map<Seq<char>, ObjectModel>, roots: Set<Seq<char>>)
    ensures
        roots.subset_of(reachable(m, roots)),
        closed_under_links(m, reachable(m, roots)),
{
    let r = reachable(m, roots);
    assert forall|id: Seq<char>, i: int| r.contains(id) && 0 <= i < links(m, id).len() implies r.contains(
        #[trigger] links(m, id)[i],
    ) by {
        assert forall|s: Set<Seq<char>>| #[trigger] closed_under_links(m, s) && roots.subset_of(s) implies s.contains(
            links(m, id)[i],
        ) by {
            assert(s.contains(id));
        }
    }
}

/// The joins of the states of a list of commits in a channel, as far as they can
/// be read.
pub open spec fn joined_states(m: Map<Seq<char>, ObjectModel>, list: Seq<Seq<char>>, g: int) -> Set<u32>
    decreases list.len(),
{
    if list.len() == 0 {
        Set::empty()
    } else {
        match read_states_of(m, list.last()) {
            Read::Found(s) => joined_states(m, list.drop_last(), g).union(s[g]),
            _ => joined_states(m, list.drop_last(), g),
        }
    }
}

/// Numbers of a pruning.
#[derive(Clone, Copy, Debug, PartialEq, Eq, Structural)]
pub struct GcReport {
    pub pruned: usize,
    pub archived: usize,
    pub delete_failed: usize,
}

/// A context that has grown large.
#[derive(Clone, Copy, Debug, PartialEq, Eq, Structural)]
pub struct ContextWarning {
    pub bits: u64,
    pub warn_above: u64,
}

impl ContextWarning {
    pub open spec fn words(&self) -> Seq<char> {
        "context at "@ + text::decimal(self.bits as nat) + " bits (warn_above "@ + text::decimal(self.warn_above as nat)
            + "): consider compression"@
    }

    /// The warning as a message.
    pub fn message(&self) -> (s: String)
        ensures
            s@ == self.words(),
    {
        let a = text::decimal_string(self.bits);
        let b = text::decimal_string(self.warn_above);
        let head = text::concat3("context at ", a.as_str(), " bits (warn_above ");
        text::concat3(head.as_str(), b.as_str(), "): consider compression")
    }
}

/// A repository over a store.
pub struct Repository<S: ObjectStore> {
    store: S,
    head: Option<ObjectId>,
    branches: SortedMap<String, ObjectId>,
    hllset_lut: HllsetLut,
    tops: [HLLSet; 3],
}

/// An optional id as a text.
pub open spec fn optional_id(id: Option<ObjectId>) -> Option<Seq<char>> {
    match id {
        Some(i) => Some(i@),
        None => None,
    }
}

/// The ids that branches name.
pub open spec fn branch_ids(branches: Map<Seq<u8>, ObjectId>) -> Set<Seq<char>> {
    Set::new(|id: Seq<char>| exists|k: Seq<u8>| #[trigger] branches.dom().contains(k) && branches[k]@ == id)
}

/// Whether a set of ids has the id.
spec fn marked_ids(m: Map<Seq<u8>, ()>) -> Set<Seq<char>> {
    Set::new(|id: Seq<char>| m.dom().contains(text::utf8(id)))
}

proof fn marked_insert(m: Map<Seq<u8>, ()>, id: Seq<char>)
    ensures
        marked_ids(m.insert(text::utf8(id), ())) == marked_ids(m).insert(id),
{
    assert forall|x: Seq<char>| #[trigger] text::utf8(x) == text::utf8(id) implies x == id by {
        text::utf8_injective(x, id);
    }
    assert(marked_ids(m.insert(text::utf8(id), ())) =~= marked_ids(m).insert(id));
}

/// The ids of a list with one more.
proof fn id_texts_push(v: Seq<ObjectId>, id: ObjectId)
    ensures
        object::id_texts(v.push(id)) == object::id_texts(v).push(id@),
{
    assert(object::id_texts(v.push(id)) =~= object::id_texts(v).push(id@));
}

impl<S: ObjectStore> Repository<S> {
    pub closed spec fn spec_store(&self) -> S {
        self.store
    }

    /// The objects of the store by id.
    pub open spec fn contents(&self) -> Map<Seq<char>, ObjectModel> {
        self.spec_store().contents()
    }

    /// Whether the store never fails to write or to list.
    pub open spec fn reliable(&self) -> bool {
        self.spec_store().reliable()
    }

    pub closed spec fn spec_head(&self) -> Option<Seq<char>> {
        optional_id(self.head)
    }

    /// The commits that branches name.
    pub closed spec fn spec_branches(&self) -> Map<Seq<u8>, ObjectId> {
        self.branches@
    }

    /// The touch counts of the registry.
    pub closed spec fn counts(&self) -> Map<Seq<u8>, u64> {
        self.hllset_lut@
    }

    /// The join of all states committed, channel by channel.
    pub closed spec fn tops(&self) -> Seq<Set<u32>> {
        set_views(self.tops@)
    }

    pub closed spec fn wf(&self) -> bool {
        self.store.wf() && self.hllset_lut.wf() && self.branches.wf()
    }

    /// A fresh repository over a store.
    pub fn new(store: S) -> (r: Repository<S>)
        requires
            store.wf(),
        ensures
            r.wf(),
            r.spec_store() == store,
            r.spec_head() is None,
            r.spec_branches() == Map::<Seq<u8>, ObjectId>::empty(),
            r.counts() == Map::<Seq<u8>, u64>::empty(),
            r.tops() == seq![Set::<u32>::empty(), Set::<u32>::empty(), Set::<u32>::empty()],
    {
        let r = Repository {
            store,
            head: None,
            branches: SortedMap::new(),
            hllset_lut: HllsetLut::new(),
            tops: [HLLSet::new(), HLLSet::new(), HLLSet::new()],
        };
        proof {
            assert(r.tops() =~= seq![Set::<u32>::empty(), Set::<u32>::empty(), Set::<u32>::empty()]);
        }
        r
    }

    /// A repository over a store with commits: the head is the one the store keeps,
    /// and the tops are joined anew from the log.
    pub fn open(store: S) -> (r: Repository<S>)
        requires
            store.wf(),
        ensures
            r.wf(),
            r.spec_store() == store,
            r.spec_branches() == Map::<Seq<u8>, ObjectId>::empty(),
            r.counts() == Map::<Seq<u8>, u64>::empty(),
            store.reliable() ==> r.spec_head() == store.kept_head(),
            r.tops().len() == 3,
            forall|g: int|
                0 <= g < 3 ==> #[trigger] r.tops()[g] == (match log_of(store.contents(), r.spec_head()) {
                    Read::Found(list) => joined_states(store.contents(), list, g),
                    _ => Set::empty(),
                }),
    {
        let head = store.read_head();
        let mut r = Repository::new(store);
        r.head = head;
        r.rebuild_tops();
        r
    }

    fn rebuild_tops(&mut self)
        requires
            old(self).wf(),
            old(self).tops() == seq![Set::<u32>::empty(), Set::<u32>::empty(), Set::<u32>::empty()],
        ensures
            final(self).wf(),
            final(self).spec_store() == old(self).spec_store(),
            final(self).spec_head() == old(self).spec_head(),
            final(self).spec_branches() == old(self).spec_branches(),
            final(self).counts() == old(self).counts(),
            final(self).tops().len() == 3,
            forall|g: int|
                0 <= g < 3 ==> #[trigger] final(self).tops()[g] == (match log_of(old(self).contents(), old(self).spec_head()) {
                    Read::Found(list) => joined_states(old(self).contents(), list, g),
                    _ => Set::empty(),
                }),
    {
        let ghost m = self.contents();
        let ghost before = *self;
        let log = match self.log() {
            Ok(list) => list,
            Err(_) => {
                return;
            },
        };
        let ghost list = object::id_texts(log@);
        let mut i: usize = 0;
        proof {
            assert(list.take(0) =~= Seq::<Seq<char>>::empty());
            assert(set_views(self.tops@).len() == 3);
        }
        while i < log.len()
            invariant
                i <= log.len(),
                list == object::id_texts(log@),
                self.wf(),
                self.store == before.store,
                self.head == before.head,
                self.branches == before.branches,
                self.hllset_lut == before.hllset_lut,
                m == before.contents(),
                forall|g: int|
                    0 <= g < 3 ==> (#[trigger] self.tops@[g])@ == joined_states(m, list.take(i as int), g),
            decreases log.len() - i,
        {
            let ghost mid = self.tops@;
            proof {
                assert(list.take(i as int + 1).drop_last() =~= list.take(i as int));
                assert(list.take(i as int + 1).last() == log@[i as int]@);
            }
            match self.states(&log[i]) {
                Ok(states) => {
                    let ghost found = set_views(states@);
                    self.tops[0] = self.tops[0].union(&states[0]);
                    self.tops[1] = self.tops[1].union(&states[1]);
                    self.tops[2] = self.tops[2].union(&states[2]);
                    proof {
                        assert forall|g: int| 0 <= g < 3 implies (#[trigger] self.tops@[g])@
                            == joined_states(m, list.take(i as int + 1), g) by {
                            assert(mid[g]@ == joined_states(m, list.take(i as int), g));
                            assert(found[g] == states@[g]@);
                        }
                    }
                },
                Err(_) => {},
            }
            i = i + 1;
        }
        proof {
            assert(list.take(i as int) =~= list);
        }
    }

    /// A repository holds finitely many objects.
    pub proof fn finite_contents(&self)
        requires
            self.wf(),
        ensures
            self.contents().dom().finite(),
    {
        self.store.finite();
    }

    pub fn store(&self) -> (s: &S)
        ensures
            *s == self.spec_store(),
    {
        &self.store
    }

    /// The store, to be changed.
    pub fn store_mut(&mut self) -> (s: &mut S)
        ensures
            *s == old(self).spec_store(),
            final(self).spec_store() == *final(s),
            final(self).spec_head() == old(self).spec_head(),
            final(self).spec_branches() == old(self).spec_branches(),
            final(self).counts() == old(self).counts(),
            final(self).tops() == old(self).tops(),
            old(self).wf() && final(s).wf() ==> final(self).wf(),
    {
        &mut self.store
    }

    /// The id of the latest commit.
    pub fn head(&self) -> (id: Option<&ObjectId>)
        ensures
            id is Some <==> self.spec_head() is Some,
            id is Some ==> self.spec_head() == Some(id->0@),
    {
        match &self.head {
            Some(id) => Some(id),
            None => None,
        }
    }

    pub fn hllset_lut(&self) -> (l: &HllsetLut)
        requires
            self.wf(),
        ensures
            l.wf(),
            l@ == self.counts(),
    {
        &self.hllset_lut
    }

    /// Puts the blob of a channel into the store and registers its set.
    fn put_channel(&mut self, set: &HLLSet) -> (r: Result<ObjectId, StoreError>)
        requires
            old(self).wf(),
            tf::count_in(old(self).counts(), text::utf8(intake::sketch_digest(set@))) < u64::MAX,
        ensures
            final(self).wf(),
            final(self).spec_head() == old(self).spec_head(),
            final(self).spec_branches() == old(self).spec_branches(),
            final(self).tops() == old(self).tops(),
            final(self).reliable() == old(self).reliable(),
            final(self).spec_store().deletes() == old(self).spec_store().deletes(),
            final(self).spec_store().keeps_head() == old(self).spec_store().keeps_head(),
            final(self).spec_store().kept_head() == old(self).spec_store().kept_head(),
            final(self).contents().remove(object::id_of(set_blob(set@))) == old(self).contents().remove(object::id_of(set_blob(set@))),
            r is Ok ==> r->Ok_0@ == object::id_of(set_blob(set@)) && final(self).contents() == old(self).contents().insert(
                object::id_of(set_blob(set@)),
                set_blob(set@),
            ) && final(self).counts() == registry::counted_up(old(self).counts(), intake::sketch_digest(set@)),
            r is Err ==> final(self).counts() == old(self).counts(),
            old(self).reliable() ==> r is Ok,
    {
        let blob = Object::Blob(set.to_bytes());
        let blob_id = blob.id();
        match self.store.put(&blob_id, &blob) {
            Ok(_) => {},
            Err(e) => {
                return Err(e);
            },
        }
        let content_id = ObjectId::of_bytes(set.to_bytes().as_slice());
        self.hllset_lut.enter(&content_id);
        Ok(blob_id)
    }

    /// Commits a state: its blobs and the commit go into the store, its sets into
    /// the registry and the tops, and the commit becomes the head.
    pub fn commit(&mut self, state: &LatticeState, parents: &[ObjectId], message: &str) -> (r: Result<
        ObjectId,
        StoreError,
    >)
        requires
            old(self).wf(),
            state.tf.wf(),
            registry::room_for(old(self).counts(), digests(state.sets())),
        ensures
            final(self).wf(),
            final(self).spec_branches() == old(self).spec_branches(),
            final(self).reliable() == old(self).reliable(),
            final(self).spec_store().deletes() == old(self).spec_store().deletes(),
            old(self).reliable() ==> r is Ok,
            r is Ok ==> {
                let id = object::id_of(ObjectModel::Commit(commit_of(state.sets(), state.tf@, object::id_texts(parents@), message@)));
                &&& r->Ok_0@ == id
                &&& final(self).contents() == with_commit(
                    old(self).contents(),
                    state.sets(),
                    state.tf@,
                    object::id_texts(parents@),
                    message@,
                )
                &&& final(self).spec_head() == Some(id)
                &&& final(self).counts() == registry::counted_all(old(self).counts(), digests(state.sets()))
                &&& final(self).tops().len() == 3
                &&& forall|g: int|
                    0 <= g < 3 ==> #[trigger] final(self).tops()[g] == old(self).tops()[g].union(state.sets()[g])
                &&& old(self).spec_store().keeps_head() ==> final(self).spec_store().kept_head() == Some(id)
            },
            ({
                let fresh = commit_ids(state.sets(), state.tf@, object::id_texts(parents@), message@);
                final(self).contents().remove_keys(fresh) == old(self).contents().remove_keys(fresh)
            }),
    {
        let ghost m0 = self.contents();
        let ghost c0 = self.counts();
        let ghost sets = state.sets();
        let ghost d = digests(sets);
        proof {
            registry::room_step(c0, d, 0);
            registry::room_step(c0, d, 1);
            registry::room_step(c0, d, 2);
            assert(d.take(0) =~= Seq::<Seq<char>>::empty());
            assert(d[0] == intake::sketch_digest(sets[0]) && d[1] == intake::sketch_digest(sets[1]) && d[2]
                == intake::sketch_digest(sets[2]));
            assert(d.take(1).drop_last() =~= Seq::<Seq<char>>::empty());
            assert(d.take(2).drop_last() =~= d.take(1));
            assert(d.drop_last() =~= d.take(2));
            assert(d.take(1).last() == intake::sketch_digest(sets[0]));
            assert(d.take(2).last() == intake::sketch_digest(sets[1]));
            assert(d.last() == intake::sketch_digest(sets[2]));
        }
        let ghost fresh = commit_ids(sets, state.tf@, object::id_texts(parents@), message@);
        let r0 = self.put_channel(&state.g1);
        proof {
            same_but_for(self.contents(), m0, object::id_of(set_blob(sets[0])), fresh);
        }
        let t0 = match r0 {
            Ok(id) => id,
            Err(e) => {
                return Err(e);
            },
        };
        let ghost m1 = self.contents();
        proof {
            assert(registry::counted_all(c0, Seq::<Seq<char>>::empty()) == c0);
            assert(self.counts() == registry::counted_all(c0, d.take(1)));
        }
        let r1 = self.put_channel(&state.g2);
        proof {
            same_but_for(self.contents(), m1, object::id_of(set_blob(sets[1])), fresh);
        }
        let t1 = match r1 {
            Ok(id) => id,
            Err(e) => {
                return Err(e);
            },
        };
        let ghost m2 = self.contents();
        proof {
            assert(self.counts() == registry::counted_all(c0, d.take(2)));
        }
        let r2 = self.put_channel(&state.g3);
        proof {
            same_but_for(self.contents(), m2, object::id_of(set_blob(sets[2])), fresh);
        }
        let t2 = match r2 {
            Ok(id) => id,
            Err(e) => {
                return Err(e);
            },
        };
        let ghost m3 = self.contents();
        let tf_blob = Object::Blob(state.tf.to_bytes());
        let tf_id = tf_blob.id();
        let r3 = self.store.put(&tf_id, &tf_blob);
        proof {
            same_but_for(self.contents(), m3, tf_id@, fresh);
        }
        match r3 {
            Ok(_) => {},
            Err(e) => {
                return Err(e);
            },
        }
        let ghost m4 = self.contents();
        let commit = Commit { trees: [t0, t1, t2], tf: tf_id, parents: object::copy_ids(parents), message: text::copy_str(message) };
        let commit_id = commit.id();
        proof {
            assert(commit@.trees =~= commit_of(sets, state.tf@, object::id_texts(parents@), message@).trees);
            assert(commit@ == commit_of(sets, state.tf@, object::id_texts(parents@), message@));
        }
        let object = Object::Commit(Box::new(commit));
        let r4 = self.store.put(&commit_id, &object);
        proof {
            same_but_for(self.contents(), m4, commit_id@, fresh);
        }
        match r4 {
            Ok(_) => {},
            Err(e) => {
                return Err(e);
            },
        }
        self.tops[0] = self.tops[0].union(&state.g1);
        self.tops[1] = self.tops[1].union(&state.g2);
        self.tops[2] = self.tops[2].union(&state.g3);
        self.head = Some(commit_id.copy());
        match self.store.write_head(&commit_id) {
            Ok(_) => Ok(commit_id),
            Err(e) => Err(e),
        }
    }

    /// The join of the states committed in a channel.
    pub fn lattice_top(&self, gx: Gx) -> (s: &HLLSet)
        ensures
            s@ == self.tops()[gx.place()],
    {
        &self.tops[gx.index()]
    }

    /// The number of bits of the first channel's top.
    pub fn context_size(&self) -> (n: u64)
        ensures
            n == self.tops()[0].len(),
    {
        self.tops[0].popcount()
    }

    /// How many bits a state would bring, over all channels.
    pub fn new_bits(&self, state: &LatticeState) -> (n: u64)
        ensures
            n == fresh_bits(self.tops(), state.sets()),
    {
        let a = state.g1.difference(&self.tops[0]);
        let b = state.g2.difference(&self.tops[1]);
        let c = state.g3.difference(&self.tops[2]);
        proof {
            a.members();
            b.members();
            c.members();
        }
        a.popcount() + b.popcount() + c.popcount()
    }

    /// A warning, once the context is larger than a threshold.
    pub fn context_warning(&self, warn_above: u64) -> (w: Option<ContextWarning>)
        ensures
            w is Some <==> self.tops()[0].len() > warn_above,
            w is Some ==> w->0.bits == self.tops()[0].len() && w->0.warn_above == warn_above,
    {
        let bits = self.context_size();
        if bits > warn_above {
            Some(ContextWarning { bits, warn_above })
        } else {
            None
        }
    }
}

impl<S: ObjectStore> Repository<S> {
    /// The commit under an id.
    pub fn read_commit(&self, commit_id: &ObjectId) -> (r: Result<Commit, StoreError>)
        requires
            self.wf(),
        ensures
            agrees(r, read_commit_of(self.contents(), commit_id@)),
    {
        match self.store.get(commit_id) {
            Ok(Object::Commit(c)) => Ok(*c),
            Ok(Object::Blob(_)) => Err(StoreError::Io(text::copy_str("not a commit"))),
            Err(e) => Err(e),
        }
    }

    /// The state of a channel in a commit.
    pub fn state_channel(&self, commit_id: &ObjectId, gx: Gx) -> (r: Result<HLLSet, StoreError>)
        requires
            self.wf(),
        ensures
            agrees(r, read_state_of(self.contents(), commit_id@, gx)),
    {
        let commit = match self.read_commit(commit_id) {
            Ok(c) => c,
            Err(e) => {
                return Err(e);
            },
        };
        let tree = &commit.trees[gx.index()];
        proof {
            assert(tree@ == commit@.trees[gx.place()]);
        }
        match self.store.get(tree) {
            Ok(Object::Blob(bytes)) => match HLLSet::from_bytes(bytes.as_slice()) {
                Some(s) => Ok(s),
                None => Err(StoreError::Io(text::copy_str("corrupt state blob"))),
            },
            Ok(Object::Commit(_)) => Err(StoreError::Io(text::copy_str("not a blob"))),
            Err(e) => Err(e),
        }
    }

    /// The states of the three channels in a commit.
    pub fn states(&self, commit_id: &ObjectId) -> (r: Result<[HLLSet; 3], StoreError>)
        requires
            self.wf(),
        ensures
            match r {
                Ok(a) => read_states_of(self.contents(), commit_id@) == Read::Found(set_views(a@)),
                Err(StoreError::NotFound(x)) => read_states_of(self.contents(), commit_id@) == Read::<
                    Seq<Set<u32>>,
                >::Missing(x@),
                Err(StoreError::Io(w)) => read_states_of(self.contents(), commit_id@) == Read::<Seq<Set<u32>>>::Wrong(w@),
            },
    {
        let a = match self.state_channel(commit_id, Gx::G1) {
            Ok(s) => s,
            Err(e) => {
                return Err(e);
            },
        };
        let b = match self.state_channel(commit_id, Gx::G2) {
            Ok(s) => s,
            Err(e) => {
                return Err(e);
            },
        };
        let c = match self.state_channel(commit_id, Gx::G3) {
            Ok(s) => s,
            Err(e) => {
                return Err(e);
            },
        };
        let out = [a, b, c];
        proof {
            assert(set_views(out@) =~= seq![a@, b@, c@]);
        }
        Ok(out)
    }

    /// The state of the first channel in a commit.
    pub fn state(&self, commit_id: &ObjectId) -> (r: Result<HLLSet, StoreError>)
        requires
            self.wf(),
        ensures
            agrees(r, read_state_of(self.contents(), commit_id@, Gx::G1)),
    {
        self.state_channel(commit_id, Gx::G1)
    }

    /// The bit frequencies in a commit.
    pub fn state_tf(&self, commit_id: &ObjectId) -> (r: Result<BitTf, StoreError>)
        requires
            self.wf(),
        ensures
            agrees(r, read_tf_of(self.contents(), commit_id@)),
            r is Ok ==> r->Ok_0.wf(),
    {
        let commit = match self.read_commit(commit_id) {
            Ok(c) => c,
            Err(e) => {
                return Err(e);
            },
        };
        match self.store.get(&commit.tf) {
            Ok(Object::Blob(bytes)) => match BitTf::from_bytes(bytes.as_slice()) {
                Some(t) => Ok(t),
                None => Err(StoreError::Io(text::copy_str("corrupt TF blob"))),
            },
            Ok(Object::Commit(_)) => Err(StoreError::Io(text::copy_str("not a blob"))),
            Err(e) => Err(e),
        }
    }

    /// The content keys of the three channels in a commit.
    pub fn state_keys(&self, commit_id: &ObjectId) -> (r: Result<[String; 3], StoreError>)
        requires
            self.wf(),
        ensures
            match r {
                Ok(a) => read_states_of(self.contents(), commit_id@) matches Read::Found(sets) && text::texts(a@)
                    == sets.map_values(|s: Set<u32>| hllset::key_of(s)),
                Err(StoreError::NotFound(x)) => read_states_of(self.contents(), commit_id@) == Read::<
                    Seq<Set<u32>>,
                >::Missing(x@),
                Err(StoreError::Io(w)) => read_states_of(self.contents(), commit_id@) == Read::<Seq<Set<u32>>>::Wrong(w@),
            },
    {
        match self.states(commit_id) {
            Ok(a) => {
                let out = [a[0].content_key(), a[1].content_key(), a[2].content_key()];
                proof {
                    assert(text::texts(out@) =~= set_views(a@).map_values(|s: Set<u32>| hllset::key_of(s)));
                }
                Ok(out)
            },
            Err(e) => Err(e),
        }
    }

    /// What a set has in common with the state of a channel in a commit; the state
    /// is touched.
    pub fn project(&mut self, hllset: &HLLSet, commit_id: &ObjectId, gx: Gx) -> (r: Result<HLLSet, StoreError>)
        requires
            old(self).wf(),
            read_state_of(old(self).contents(), commit_id@, gx) matches Read::Found(x) ==> tf::count_in(
                old(self).counts(),
                text::utf8(intake::sketch_digest(x)),
            ) < u64::MAX,
        ensures
            final(self).wf(),
            final(self).spec_store() == old(self).spec_store(),
            final(self).spec_head() == old(self).spec_head(),
            final(self).spec_branches() == old(self).spec_branches(),
            final(self).tops() == old(self).tops(),
            match r {
                Ok(s) => read_state_of(old(self).contents(), commit_id@, gx) matches Read::Found(x) && s@
                    == hllset@.intersect(x) && final(self).counts() == registry::counted_up(old(self).counts(), intake::sketch_digest(x)),
                Err(e) => final(self).counts() == old(self).counts() && agrees::<HLLSet>(
                    Err(e),
                    read_state_of(old(self).contents(), commit_id@, gx),
                ),
            },
    {
        let channel = match self.state_channel(commit_id, gx) {
            Ok(s) => s,
            Err(e) => {
                return Err(e);
            },
        };
        let content_id = ObjectId::of_bytes(channel.to_bytes().as_slice());
        self.hllset_lut.touch(&content_id);
        Ok(hllset.intersection(&channel))
    }

    /// What a set has in common with the states of a commit.
    pub fn project_all(&mut self, hllset: &HLLSet, commit_id: &ObjectId) -> (r: Result<[HLLSet; 3], StoreError>)
        requires
            old(self).wf(),
            registry::room_for(old(self).counts(), digests(states_in(old(self).contents(), commit_id@))),
        ensures
            final(self).wf(),
            final(self).spec_store() == old(self).spec_store(),
            final(self).spec_head() == old(self).spec_head(),
            final(self).spec_branches() == old(self).spec_branches(),
            final(self).tops() == old(self).tops(),
            match r {
                Ok(a) => read_states_of(old(self).contents(), commit_id@) matches Read::Found(x) && set_views(a@)
                    == x.map_values(|s: Set<u32>| hllset@.intersect(s)) && final(self).counts() == registry::counted_all(
                    old(self).counts(),
                    digests(x),
                ),
                Err(StoreError::NotFound(x)) => read_states_of(old(self).contents(), commit_id@) == Read::<
                    Seq<Set<u32>>,
                >::Missing(x@),
                Err(StoreError::Io(w)) => read_states_of(old(self).contents(), commit_id@) == Read::<
                    Seq<Set<u32>>,
                >::Wrong(w@),
            },
            final(self).counts() == registry::counted_all(
                old(self).counts(),
                digests(states_in(old(self).contents(), commit_id@)),
            ),
    {
        let ghost c0 = self.counts();
        let ghost m = self.contents();
        let ghost d = digests(states_in(m, commit_id@));
        proof {
            assert(registry::counted_all(c0, Seq::<Seq<char>>::empty()) == c0);
            if read_state_of(m, commit_id@, Gx::G1) is Found {
                registry::room_step(c0, d, 0);
                assert(d.take(0) =~= Seq::<Seq<char>>::empty());
                assert(d[0] == intake::sketch_digest(read_state_of(m, commit_id@, Gx::G1)->Found_0));
            }
        }
        let a = match self.project(hllset, commit_id, Gx::G1) {
            Ok(s) => s,
            Err(e) => {
                return Err(e);
            },
        };
        let ghost x0 = read_state_of(m, commit_id@, Gx::G1)->Found_0;
        let ghost c1 = self.counts();
        proof {
            assert(d.take(1).drop_last() =~= Seq::<Seq<char>>::empty());
            assert(d.take(1).last() == intake::sketch_digest(x0));
            assert(registry::counted_all(c0, d.take(1)) == c1);
            if read_state_of(m, commit_id@, Gx::G2) is Found {
                registry::room_step(c0, d, 1);
                assert(d[1] == intake::sketch_digest(read_state_of(m, commit_id@, Gx::G2)->Found_0));
            }
        }
        let b = match self.project(hllset, commit_id, Gx::G2) {
            Ok(s) => s,
            Err(e) => {
                return Err(e);
            },
        };
        let ghost x1 = read_state_of(m, commit_id@, Gx::G2)->Found_0;
        let ghost c2 = self.counts();
        proof {
            assert(d.take(2).drop_last() =~= d.take(1));
            assert(d.take(2).last() == intake::sketch_digest(x1));
            assert(registry::counted_all(c0, d.take(2)) == c2);
            if read_state_of(m, commit_id@, Gx::G3) is Found {
                registry::room_step(c0, d, 2);
                assert(d[2] == intake::sketch_digest(read_state_of(m, commit_id@, Gx::G3)->Found_0));
            }
        }
        let c = match self.project(hllset, commit_id, Gx::G3) {
            Ok(s) => s,
            Err(e) => {
                return Err(e);
            },
        };
        let ghost x2 = read_state_of(m, commit_id@, Gx::G3)->Found_0;
        let out = [a, b, c];
        proof {
            let x = seq![x0, x1, x2];
            assert(set_views(out@) =~= x.map_values(|s: Set<u32>| hllset@.intersect(s)));
            assert(d == digests(x));
            assert(d.drop_last() =~= d.take(2));
            assert(d.last() == intake::sketch_digest(x2));
        }
        Ok(out)
    }

    /// Ingests a stream of tokens; commits where it brings new bits.
    pub fn ingest(&mut self, ingestor: &mut Ingestor, tokens: &Vec<Vec<u8>>, message: &str) -> (r: Result<
        Option<ObjectId>,
        StoreError,
    >)
        requires
            old(self).wf(),
            ({
                let sets = intake::sketches(hllset::token_views(tokens@));
                registry::room_for(
                    old(self).counts(),
                    if fresh_bits(old(self).tops(), sets) == 0 {
                        digests(sets)
                    } else {
                        digests(sets) + digests(sets)
                    },
                )
            }),
            old(ingestor).wf(),
            old(ingestor).spec_tokens() + tokens@.len() <= u64::MAX,
            forall|i: int|
                0 <= i < old(ingestor).spec_bit_tf().len() ==> #[trigger] old(ingestor).spec_bit_tf()[i] <= u64::MAX - 3,
        ensures
            final(self).wf(),
            final(ingestor).wf(),
            final(ingestor).spec_seen() == old(ingestor).spec_seen().union(hllset::token_views(tokens@).to_set()),
            forall|t: Seq<u8>|
                #[trigger] final(ingestor).tally(t) == old(ingestor).tally(t) + tf::occurrences(hllset::token_views(tokens@), t),
            final(ingestor).spec_bit_tf() == intake::bumped3(old(ingestor).spec_bit_tf(), intake::sketches(hllset::token_views(tokens@))),
            final(ingestor).spec_tokens() == old(ingestor).spec_tokens() + tokens@.len(),
            final(self).spec_branches() == old(self).spec_branches(),
            final(self).reliable() == old(self).reliable(),
            old(self).reliable() ==> r is Ok,
            r is Ok ==> (r->Ok_0 is None <==> fresh_bits(old(self).tops(), intake::sketches(hllset::token_views(tokens@))) == 0),
            match r {
                Ok(None) => {
                    &&& final(self).spec_store() == old(self).spec_store()
                    &&& final(self).spec_head() == old(self).spec_head()
                    &&& final(self).tops() == old(self).tops()
                    &&& final(self).counts() == registry::counted_all(
                        old(self).counts(),
                        digests(intake::sketches(hllset::token_views(tokens@))),
                    )
                },
                Ok(Some(id)) => {
                    let sets = intake::sketches(hllset::token_views(tokens@));
                    let tf = final(ingestor).spec_bit_tf();
                    let parents = head_list(old(self).spec_head());
                    &&& id@ == object::id_of(ObjectModel::Commit(commit_of(sets, tf, parents, message@)))
                    &&& final(self).contents() == with_commit(old(self).contents(), sets, tf, parents, message@)
                    &&& final(self).spec_head() == Some(id@)
                    &&& final(self).counts() == registry::counted_all(
                        registry::counted_all(old(self).counts(), digests(sets)),
                        digests(sets),
                    )
                    &&& final(self).tops().len() == 3
                    &&& forall|g: int|
                        0 <= g < 3 ==> #[trigger] final(self).tops()[g] == old(self).tops()[g].union(sets[g])
                },
                Err(_) => true,
            },
    {
        let ghost c0 = self.counts();
        let ghost all = hllset::token_views(tokens@);
        let mut parents: Vec<ObjectId> = Vec::new();
        match &self.head {
            Some(id) => {
                parents.push(id.copy());
            },
            None => {},
        }
        let mut sink = OriginalList { items: Vec::new() };
        let out = ingestor.ingest_stream(tokens, &mut sink);
        let mut shown: Vec<ObjectId> = Vec::new();
        let mut i: usize = 0;
        let ghost sets = intake::sketches(all);
        proof {
            assert(object::id_texts(parents@) =~= head_list(self.spec_head()));
            assert(sink.shown().len() == 3);
        }
        while i < sink.items.len()
            invariant
                i <= sink.items@.len(),
                shown@.len() == i,
                forall|j: int| 0 <= j < i ==> (#[trigger] shown@[j])@ == sink.items@[j].1@,
            decreases sink.items.len() - i,
        {
            shown.push(ObjectId(sink.items[i].1.clone()));
            i = i + 1;
        }
        proof {
            assert forall|j: int| 0 <= j < 3 implies object::id_texts(shown@)[j] == digests(sets)[j] by {
                assert(sink.shown()[j] == (sets[j], intake::sketch_digest(sets[j])));
                assert(sink.shown()[j].1 == sink.items@[j].1@);
            }
            assert(object::id_texts(shown@) =~= digests(sets));
            if fresh_bits(self.tops(), sets) != 0 {
                registry::room_split(c0, digests(sets), digests(sets));
            }
        }
        self.hllset_lut.touch_many(&shown);
        let state = LatticeState {
            g1: out.channels[0],
            g2: out.channels[1],
            g3: out.channels[2],
            tf: BitTf::from_tfvec(ingestor.bit_tf().copy()),
        };
        proof {
            assert(state.sets() =~= sets);
        }
        if self.new_bits(&state) == 0 {
            return Ok(None);
        }
        match self.commit(&state, parents.as_slice(), message) {
            Ok(id) => Ok(Some(id)),
            Err(e) => Err(e),
        }
    }

    /// The join of two commits, channel by channel, with summed bit frequencies;
    /// their states are touched. Nothing is committed.
    pub fn merge(&mut self, a: &ObjectId, b: &ObjectId) -> (r: Result<LatticeState, StoreError>)
        requires
            old(self).wf(),
            merged_of(old(self).contents(), a@, b@) is Found ==> registry::room_for(
                old(self).counts(),
                digests(
                    read_states_of(old(self).contents(), a@)->Found_0 + read_states_of(old(self).contents(), b@)->Found_0,
                ),
            ),
            frequencies_fit(old(self).contents(), a@, b@),
        ensures
            final(self).wf(),
            final(self).spec_store() == old(self).spec_store(),
            final(self).spec_head() == old(self).spec_head(),
            final(self).spec_branches() == old(self).spec_branches(),
            final(self).tops() == old(self).tops(),
            match r {
                Ok(s) => {
                    &&& s.tf.wf()
                    &&& merged_of(old(self).contents(), a@, b@) == Read::Found((s.sets(), s.tf@))
                    &&& final(self).counts() == registry::counted_all(
                        old(self).counts(),
                        digests(
                            read_states_of(old(self).contents(), a@)->Found_0 + read_states_of(
                                old(self).contents(),
                                b@,
                            )->Found_0,
                        ),
                    )
                },
                Err(StoreError::NotFound(x)) => final(self).counts() == old(self).counts() && merged_of(
                    old(self).contents(),
                    a@,
                    b@,
                ) == Read::<(Seq<Set<u32>>, Seq<u64>)>::Missing(x@),
                Err(StoreError::Io(w)) => final(self).counts() == old(self).counts() && (merged_of(
                    old(self).contents(),
                    a@,
                    b@,
                ) == Read::<(Seq<Set<u32>>, Seq<u64>)>::Wrong(w@)),
            },
    {
        let sa = match self.states(a) {
            Ok(s) => s,
            Err(e) => {
                return Err(e);
            },
        };
        let sb = match self.states(b) {
            Ok(s) => s,
            Err(e) => {
                return Err(e);
            },
        };
        let mut tf = match self.state_tf(a) {
            Ok(t) => t,
            Err(e) => {
                return Err(e);
            },
        };
        let other = match self.state_tf(b) {
            Ok(t) => t,
            Err(e) => {
                return Err(e);
            },
        };
        let ghost x = set_views(sa@);
        let ghost y = set_views(sb@);
        tf.merge(&other);
        let joined = LatticeState {
            g1: sa[0].union(&sb[0]),
            g2: sa[1].union(&sb[1]),
            g3: sa[2].union(&sb[2]),
            tf,
        };
        let mut list: Vec<ObjectId> = Vec::new();
        list.push(ObjectId::of_bytes(sa[0].to_bytes().as_slice()));
        list.push(ObjectId::of_bytes(sa[1].to_bytes().as_slice()));
        list.push(ObjectId::of_bytes(sa[2].to_bytes().as_slice()));
        list.push(ObjectId::of_bytes(sb[0].to_bytes().as_slice()));
        list.push(ObjectId::of_bytes(sb[1].to_bytes().as_slice()));
        list.push(ObjectId::of_bytes(sb[2].to_bytes().as_slice()));
        proof {
            assert(object::id_texts(list@) =~= digests(x + y));
            assert(joined.sets() =~= joins(x, y));
        }
        self.hllset_lut.touch_many(&list);
        Ok(joined)
    }

    /// Commits the join of two commits, with both as parents.
    pub fn merge_commit(&mut self, a: &ObjectId, b: &ObjectId, message: &str) -> (r: Result<ObjectId, StoreError>)
        requires
            old(self).wf(),
            merged_of(old(self).contents(), a@, b@) matches Read::Found(merged) ==> registry::room_for(
                old(self).counts(),
                digests(
                    read_states_of(old(self).contents(), a@)->Found_0 + read_states_of(old(self).contents(), b@)->Found_0,
                ) + digests(merged.0),
            ),
            frequencies_fit(old(self).contents(), a@, b@),
        ensures
            final(self).wf(),
            final(self).spec_branches() == old(self).spec_branches(),
            final(self).reliable() == old(self).reliable(),
            old(self).reliable() && merged_of(old(self).contents(), a@, b@) is Found ==> r is Ok,
            match r {
                Ok(id) => {
                    let merged = merged_of(old(self).contents(), a@, b@)->Found_0;
                    let parents = seq![a@, b@];
                    &&& merged_of(old(self).contents(), a@, b@) is Found
                    &&& id@ == object::id_of(ObjectModel::Commit(commit_of(merged.0, merged.1, parents, message@)))
                    &&& final(self).contents() == with_commit(
                        old(self).contents(),
                        merged.0,
                        merged.1,
                        parents,
                        message@,
                    )
                    &&& final(self).spec_head() == Some(id@)
                    &&& final(self).counts() == registry::counted_all(
                        registry::counted_all(
                            old(self).counts(),
                            digests(
                                read_states_of(old(self).contents(), a@)->Found_0 + read_states_of(
                                    old(self).contents(),
                                    b@,
                                )->Found_0,
                            ),
                        ),
                        digests(merged.0),
                    )
                    &&& final(self).tops().len() == 3
                    &&& forall|g: int|
                        0 <= g < 3 ==> #[trigger] final(self).tops()[g] == old(self).tops()[g].union(merged.0[g])
                },
                Err(StoreError::NotFound(x)) => merged_of(old(self).contents(), a@, b@) == Read::<
                    (Seq<Set<u32>>, Seq<u64>),
                >::Missing(x@) || !old(self).reliable(),
                Err(StoreError::Io(w)) => merged_of(old(self).contents(), a@, b@) == Read::<
                    (Seq<Set<u32>>, Seq<u64>),
                >::Wrong(w@) || !old(self).reliable(),
            },
    {
        let ghost c0 = self.counts();
        let ghost m = self.contents();
        let ghost d = digests(read_states_of(m, a@)->Found_0 + read_states_of(m, b@)->Found_0);
        proof {
            if merged_of(m, a@, b@) is Found {
                registry::room_split(c0, d, digests(merged_of(m, a@, b@)->Found_0.0));
            }
        }
        let joined = match self.merge(a, b) {
            Ok(s) => s,
            Err(e) => {
                return Err(e);
            },
        };
        let mut parents: Vec<ObjectId> = Vec::new();
        parents.push(a.copy());
        parents.push(b.copy());
        proof {
            assert(object::id_texts(parents@) =~= seq![a@, b@]);
        }
        self.commit(&joined, parents.as_slice(), message)
    }

    /// The commits reached from the head, each once, the oldest first: each behind
    /// its parents, as long as no commit descends from itself.
    pub fn log(&self) -> (r: Result<Vec<ObjectId>, StoreError>)
        requires
            self.wf(),
        ensures
            match r {
                Ok(list) => log_of(self.contents(), self.spec_head()) == Read::Found(object::id_texts(list@)),
                Err(StoreError::NotFound(x)) => log_of(self.contents(), self.spec_head()) == Read::<
                    Seq<Seq<char>>,
                >::Missing(x@),
                Err(StoreError::Io(w)) => log_of(self.contents(), self.spec_head()) == Read::<Seq<Seq<char>>>::Wrong(w@),
            },
            r matches Ok(list) ==> {
                &&& object::id_texts(list@).no_duplicates()
                &&& acyclic(self.contents(), object::id_texts(list@)) ==> oldest_first(
                    self.contents(),
                    object::id_texts(list@),
                )
            },
    {
        let ghost m = self.contents();
        proof {
            self.store.finite();
        }
        let mut queue: Vec<ObjectId> = Vec::new();
        match &self.head {
            Some(id) => {
                queue.push(id.copy());
            },
            None => {
                let list: Vec<ObjectId> = Vec::new();
                proof {
                    assert(object::id_texts(list@) =~= Seq::<Seq<char>>::empty());
                }
                return Ok(list);
            },
        }
        let mut front: usize = 0;
        let mut order: Vec<ObjectId> = Vec::new();
        let mut parents: Vec<Vec<ObjectId>> = Vec::new();
        let mut seen: SortedMap<ObjectId, ()> = SortedMap::new();
        let ghost start = history(m, seq![self.spec_head()->0], Set::empty(), Seq::empty());
        proof {
            assert(object::id_texts(queue@).skip(0) =~= seq![self.spec_head()->0]);
            assert(marked_ids(seen@) =~= Set::<Seq<char>>::empty());
            assert(object::id_texts(order@) =~= Seq::<Seq<char>>::empty());
        }
        while front < queue.len()
            invariant
                self.wf(),
                m == self.contents(),
                m.dom().finite(),
                front <= queue@.len(),
                seen.wf(),
                start == history(m, object::id_texts(queue@).skip(front as int), marked_ids(seen@), object::id_texts(order@)),
                log_of(m, self.spec_head()) == (match start {
                    Read::Found(order) => Read::Found(newest_first(m, order).reverse()),
                    Read::Missing(x) => Read::Missing(x),
                    Read::Wrong(w) => Read::Wrong(w),
                }),
                tells_parents(m, order@, parents@),
            decreases m.dom().difference(marked_ids(seen@)).len(), queue@.len() - front,
        {
            let ghost rest = object::id_texts(queue@).skip(front as int);
            let id = queue[front].copy();
            proof {
                assert(rest[0] == id@);
                assert(rest.skip(1) =~= object::id_texts(queue@).skip(front as int + 1));
            }
            front = front + 1;
            if !seen.contains(id.key_bytes()) {
                let commit = match self.read_commit(&id) {
                    Ok(c) => c,
                    Err(e) => {
                        return Err(e);
                    },
                };
                proof {
                    less_unseen(m.dom(), marked_ids(seen@), id@);
                    marked_insert(seen@, id@);
                    id_texts_push(order@, id);
                }
                let ghost q0 = object::id_texts(queue@);
                let mut more = object::copy_ids(commit.parents.as_slice());
                let ghost extra = more@;
                queue.append(&mut more);
                proof {
                    assert(object::id_texts(queue@) =~= q0 + object::id_texts(extra));
                    assert(object::id_texts(queue@).skip(front as int) =~= q0.skip(front as int) + commit@.parents);
                }
                seen.insert(id.copy(), ());
                order.push(id);
                parents.push(commit.parents);
            }
        }
        proof {
            assert(object::id_texts(queue@).skip(front as int).len() == 0);
        }
        let ghost reached = object::id_texts(order@);
        let newest = unwind(order, parents, Ghost(m));
        let mut list: Vec<ObjectId> = Vec::new();
        let mut i: usize = newest.len();
        while i > 0
            invariant
                i <= newest@.len(),
                list@.len() == newest@.len() - i,
                forall|j: int| 0 <= j < list@.len() ==> (#[trigger] list@[j])@ == newest@[newest@.len() - 1 - j]@,
            decreases i,
        {
            i = i - 1;
            list.push(newest[i].copy());
        }
        proof {
            assert(object::id_texts(list@) =~= object::id_texts(newest@).reverse());
            log_law(m, self.spec_head()->0);
        }
        Ok(list)
    }

    /// Names a commit by a branch.
    pub fn set_branch(&mut self, name: &str, commit: &ObjectId)
        requires
            old(self).wf(),
        ensures
            final(self).wf(),
            final(self).spec_store() == old(self).spec_store(),
            final(self).spec_head() == old(self).spec_head(),
            final(self).counts() == old(self).counts(),
            final(self).tops() == old(self).tops(),
            final(self).spec_branches().dom() == old(self).spec_branches().dom().insert(text::utf8(name@)),
            final(self).spec_branches()[text::utf8(name@)]@ == commit@,
            forall|k: Seq<u8>|
                k != text::utf8(name@) && #[trigger] old(self).spec_branches().dom().contains(k) ==> final(self).spec_branches()[k] == old(self).spec_branches()[k],
    {
        self.branches.insert(text::copy_str(name), commit.copy());
    }

    /// The branches by name.
    pub fn branches(&self) -> (b: &SortedMap<String, ObjectId>)
        requires
            self.wf(),
        ensures
            b.wf(),
            b@ == self.spec_branches(),
    {
        &self.branches
    }

    /// The roots of a pruning: the head, the branches and what is to be kept.
    pub open spec fn roots(&self, keep: Seq<Seq<char>>) -> Set<Seq<char>> {
        head_list(self.spec_head()).to_set().union(branch_ids(self.spec_branches())).union(keep.to_set())
    }

    fn root_list(&self, keep: &[ObjectId]) -> (list: Vec<ObjectId>)
        requires
            self.wf(),
        ensures
            object::id_texts(list@).to_set() == self.roots(object::id_texts(keep@)),
    {
        let mut list: Vec<ObjectId> = Vec::new();
        match &self.head {
            Some(id) => {
                list.push(id.copy());
            },
            None => {},
        }
        let ghost first = object::id_texts(list@);
        proof {
            assert(first =~= head_list(self.spec_head()));
        }
        let e = &self.branches.entries;
        let mut i: usize = 0;
        while i < e.len()
            invariant
                i <= e@.len(),
                list@.len() == first.len() + i,
                e@ == self.branches.entries@,
                forall|j: int| 0 <= j < first.len() ==> (#[trigger] list@[j])@ == first[j],
                forall|j: int| 0 <= j < i ==> (#[trigger] e@[j]).1@ == list@[first.len() + j]@,
            decreases e.len() - i,
        {
            list.push(e[i].1.copy());
            i = i + 1;
        }
        let ghost second = object::id_texts(list@);
        let mut kept = object::copy_ids(keep);
        let ghost third = object::id_texts(kept@);
        let ghost k0 = kept@;
        let ghost l0 = list@;
        list.append(&mut kept);
        proof {
            let all = object::id_texts(list@);
            assert(all =~= second + third);
            self.branches.entry_facts();
            assert forall|id: Seq<char>| all.to_set().contains(id) == self.roots(object::id_texts(keep@)).contains(id) by {
                if all.contains(id) {
                    let j = choose|j: int| 0 <= j < all.len() && all[j] == id;
                    if j < first.len() {
                        assert(first[j] == id);
                        assert(first.contains(id));
                    } else if j < second.len() {
                        let q = j - first.len();
                        assert(e@[q].1@ == l0[first.len() + q]@);
                        assert(self.branches@.dom().contains(e@[q].0.key()));
                        assert(branch_ids(self.spec_branches()).contains(id));
                    } else {
                        assert(third[j - second.len()] == id);
                        assert(third.contains(id));
                    }
                }
                if first.contains(id) {
                    let j = choose|j: int| 0 <= j < first.len() && first[j] == id;
                    assert(all[j] == id);
                }
                if third.contains(id) {
                    let j = choose|j: int| 0 <= j < third.len() && third[j] == id;
                    assert(all[second.len() + j] == id);
                }
                if branch_ids(self.spec_branches()).contains(id) {
                    let k = choose|k: Seq<u8>| #[trigger] self.branches@.dom().contains(k) && self.branches@[k]@ == id;
                    let q = sorted::slot(e@, k);
                    assert(e@[q].0.key() == k);
                    assert(e@[q].1@ == l0[first.len() + q]@);
                    assert(all[first.len() + q] == id);
                }
            }
            assert(all.to_set() =~= self.roots(object::id_texts(keep@)));
        }
        list
    }

    /// The ids reachable from the head, the branches and what is to be kept. What
    /// cannot be read points to nothing.
    fn reachable_mark(&self, keep: &[ObjectId]) -> (mark: SortedMap<ObjectId, ()>)
        requires
            self.wf(),
        ensures
            mark.wf(),
            marked_ids(mark@) == reachable(self.contents(), self.roots(object::id_texts(keep@))),
    {
        let ghost m = self.contents();
        let ghost roots = self.roots(object::id_texts(keep@));
        proof {
            self.store.finite();
            reachable_closed(m, roots);
        }
        let ghost goal = reachable(m, roots);
        let mut queue = self.root_list(keep);
        let mut front: usize = 0;
        let mut mark: SortedMap<ObjectId, ()> = SortedMap::new();
        proof {
            assert(marked_ids(mark@) =~= Set::<Seq<char>>::empty());
            assert(object::id_texts(queue@).skip(0) =~= object::id_texts(queue@));
            assert forall|i: int| 0 <= i < queue@.len() implies goal.contains((#[trigger] queue@[i])@) by {
                assert(object::id_texts(queue@)[i] == queue@[i]@);
                assert(object::id_texts(queue@).to_set().contains(queue@[i]@));
            }
            assert forall|id: Seq<char>| roots.contains(id) implies pending(object::id_texts(queue@), 0, id) by {
                assert(object::id_texts(queue@).contains(id));
            }
        }
        while front < queue.len()
            invariant
                self.wf(),
                m == self.contents(),
                m.dom().finite(),
                front <= queue@.len(),
                mark.wf(),
                goal == reachable(m, roots),
                closed_under_links(m, goal),
                forall|i: int| 0 <= i < queue@.len() ==> goal.contains((#[trigger] queue@[i])@),
                forall|id: Seq<char>| #[trigger] marked_ids(mark@).contains(id) ==> goal.contains(id),
                forall|id: Seq<char>|
                    #[trigger] roots.contains(id) ==> marked_ids(mark@).contains(id) || pending(
                        object::id_texts(queue@),
                        front as int,
                        id,
                    ),
                forall|id: Seq<char>, k: int|
                    marked_ids(mark@).contains(id) && 0 <= k < links(m, id).len() ==> marked_ids(mark@).contains(
                        #[trigger] links(m, id)[k],
                    ) || pending(object::id_texts(queue@), front as int, links(m, id)[k]),
            decreases m.dom().difference(marked_ids(mark@)).len(), queue@.len() - front,
        {
            let id = queue[front].copy();
            let ghost q0 = object::id_texts(queue@);
            let ghost m0 = marked_ids(mark@);
            let ghost f0 = front as int;
            proof {
                assert(q0[f0] == id@);
                assert(goal.contains(queue@[f0]@));
                assert forall|x: Seq<char>| #[trigger] pending(q0, f0, x) implies x == id@ || pending(q0, f0 + 1, x) by {}
            }
            front = front + 1;
            if !mark.contains(id.key_bytes()) {
                proof {
                    marked_insert(mark@, id@);
                    if m.dom().contains(id@) {
                        less_unseen(m.dom(), m0, id@);
                    } else {
                        assert(m.dom().difference(m0.insert(id@)) =~= m.dom().difference(m0));
                    }
                }
                let found = self.store.get(&id);
                mark.insert(id.copy(), ());
                match found {
                    Ok(Object::Commit(commit)) => {
                        let mut more: Vec<ObjectId> = Vec::new();
                        more.push(commit.trees[0].copy());
                        more.push(commit.trees[1].copy());
                        more.push(commit.trees[2].copy());
                        more.push(commit.tf.copy());
                        let mut parents = object::copy_ids(commit.parents.as_slice());
                        let ghost p = parents@;
                        let ghost head = more@;
                        more.append(&mut parents);
                        let ghost added = more@;
                        queue.append(&mut more);
                        proof {
                            let l = links(m, id@);
                            assert(object::id_texts(head) =~= commit@.trees.push(commit@.tf));
                            assert(object::id_texts(added) =~= l);
                            assert(object::id_texts(queue@) =~= q0 + l);
                            assert forall|i: int| 0 <= i < queue@.len() implies goal.contains((#[trigger] queue@[i])@) by {
                                assert(object::id_texts(queue@)[i] == queue@[i]@);
                                if i >= q0.len() {
                                    let k = i - q0.len();
                                    assert(links(m, id@)[k] == queue@[i]@);
                                } else {
                                    assert(q0[i] == queue@[i]@);
                                }
                            }
                            assert forall|x: Seq<char>| #[trigger] pending(q0, f0 + 1, x) implies pending(
                                object::id_texts(queue@),
                                f0 + 1,
                                x,
                            ) by {
                                let i = choose|i: int| f0 + 1 <= i < q0.len() && #[trigger] q0[i] == x;
                                assert(object::id_texts(queue@)[i] == x);
                            }
                            assert forall|k: int| 0 <= k < l.len() implies pending(
                                object::id_texts(queue@),
                                f0 + 1,
                                #[trigger] l[k],
                            ) by {
                                assert(object::id_texts(queue@)[q0.len() + k] == l[k]);
                            }
                        }
                    },
                    _ => {
                        proof {
                            assert(links(m, id@).len() == 0);
                        }
                    },
                }
            }
        }
        proof {
            assert forall|id: Seq<char>| !#[trigger] pending(object::id_texts(queue@), front as int, id) by {}
            assert(closed_under_links(m, marked_ids(mark@)));
            assert(roots.subset_of(marked_ids(mark@)));
            assert(marked_ids(mark@) =~= goal);
        }
        mark
    }

    /// The ids of the store that are not marked.
    fn doomed(&self, mark: &SortedMap<ObjectId, ()>) -> (list: Vec<ObjectId>)
        requires
            self.wf(),
            mark.wf(),
        ensures
            self.reliable() ==> object::id_texts(list@).to_set() == self.contents().dom().difference(marked_ids(mark@))
                && object::id_texts(list@).no_duplicates(),
            forall|i: int| 0 <= i < list@.len() ==> !marked_ids(mark@).contains((#[trigger] list@[i])@),
    {
        let all = self.store.ids();
        let mut list: Vec<ObjectId> = Vec::new();
        let ghost names = object::id_texts(all@);
        let ghost pick = |id: Seq<char>| !marked_ids(mark@).contains(id);
        let mut i: usize = 0;
        proof {
            reveal(Seq::filter);
            assert(object::id_texts(list@) =~= names.take(0).filter(pick));
        }
        while i < all.len()
            invariant
                i <= all@.len(),
                mark.wf(),
                names == object::id_texts(all@),
                pick == (|id: Seq<char>| !marked_ids(mark@).contains(id)),
                object::id_texts(list@) == names.take(i as int).filter(pick),
                forall|j: int| 0 <= j < list@.len() ==> !marked_ids(mark@).contains((#[trigger] list@[j])@),
            decreases all.len() - i,
        {
            proof {
                reveal(Seq::filter);
                let longer = names.take(i as int + 1);
                assert(longer.drop_last() =~= names.take(i as int));
                assert(longer.last() == all@[i as int]@);
            }
            if !mark.contains(all[i].key_bytes()) {
                let id = all[i].copy();
                proof {
                    id_texts_push(list@, id);
                }
                list.push(id);
            }
            i = i + 1;
        }
        proof {
            assert(names.take(i as int) =~= names);
            if self.reliable() {
                let f = names.filter(pick);
                search::filter_distinct(names, pick);
                assert forall|id: Seq<char>| f.to_set().contains(id) == self.contents().dom().difference(
                    marked_ids(mark@),
                ).contains(id) by {
                    search::filter_members(names, pick, id);
                    assert(names.to_set().contains(id) == names.contains(id));
                }
                assert(f.to_set() =~= self.contents().dom().difference(marked_ids(mark@)));
            }
        }
        list
    }

    /// Deletes objects; the number of failures.
    fn delete_all(&mut self, list: &Vec<ObjectId>) -> (failed: usize)
        requires
            old(self).wf(),
        ensures
            final(self).wf(),
            final(self).spec_head() == old(self).spec_head(),
            final(self).spec_branches() == old(self).spec_branches(),
            final(self).counts() == old(self).counts(),
            final(self).tops() == old(self).tops(),
            final(self).reliable() == old(self).reliable(),
            failed <= list@.len(),
            final(self).contents().submap_of(old(self).contents()),
            final(self).contents().remove_keys(object::id_texts(list@).to_set()) == old(self).contents().remove_keys(
                object::id_texts(list@).to_set(),
            ),
            old(self).reliable() && old(self).spec_store().deletes() && object::id_texts(list@).no_duplicates() && object::id_texts(
                list@,
            ).to_set().subset_of(old(self).contents().dom()) ==> failed == 0 && final(self).contents() == old(self).contents().remove_keys(object::id_texts(list@).to_set()),
    {
        let ghost before = *self;
        let ghost all = object::id_texts(list@);
        let ghost good = before.reliable() && before.spec_store().deletes() && all.no_duplicates()
            && all.to_set().subset_of(before.contents().dom());
        let mut failed: usize = 0;
        let mut i: usize = 0;
        proof {
            assert(all.take(0).to_set() =~= Set::<Seq<char>>::empty());
            assert(self.contents().remove_keys(Set::<Seq<char>>::empty()) =~= self.contents());
        }
        while i < list.len()
            invariant
                i <= list@.len(),
                failed <= i,
                self.wf(),
                all == object::id_texts(list@),
                self.spec_head() == before.spec_head(),
                self.spec_branches() == before.spec_branches(),
                self.counts() == before.counts(),
                self.tops() == before.tops(),
                self.reliable() == before.reliable(),
                self.spec_store().deletes() == before.spec_store().deletes(),
                good == (before.reliable() && before.spec_store().deletes() && all.no_duplicates()
                    && all.to_set().subset_of(before.contents().dom())),
                self.contents().submap_of(before.contents()),
                self.contents().remove_keys(all.take(i as int).to_set()) == before.contents().remove_keys(
                    all.take(i as int).to_set(),
                ),
                good ==> failed == 0 && self.contents() == before.contents().remove_keys(all.take(i as int).to_set()),
            decreases list.len() - i,
        {
            let ghost mid = self.contents();
            let ghost id = list@[i as int]@;
            let ghost a = all.take(i as int);
            let ghost b = all.take(i as int + 1);
            proof {
                assert(b =~= a.push(id));
                text_set_push(a, id);
                if good {
                    assert(all[i as int] == id);
                    assert(all.to_set().contains(id));
                    assert(!a.contains(id)) by {
                        if a.contains(id) {
                            let j = choose|j: int| 0 <= j < a.len() && a[j] == id;
                            assert(all[j] == all[i as int]);
                        }
                    }
                    assert(mid.dom().contains(id));
                }
            }
            match self.store.delete(&list[i]) {
                Ok(_) => {},
                Err(_) => {
                    failed = failed + 1;
                },
            }
            proof {
                same_but_for(self.contents(), mid, id, b.to_set());
                assert(mid.remove_keys(b.to_set()) =~= mid.remove_keys(a.to_set()).remove(id));
                assert(before.contents().remove_keys(b.to_set()) =~= before.contents().remove_keys(a.to_set()).remove(id));
            }
            i = i + 1;
        }
        proof {
            assert(all.take(i as int) =~= all);
        }
        failed
    }

    /// Prunes what cannot be reached from the head, the branches and `keep`. What
    /// cannot be read points to nothing.
    pub fn gc(&mut self, keep: &[ObjectId]) -> (r: Result<GcReport, StoreError>)
        requires
            old(self).wf(),
        ensures
            final(self).wf(),
            final(self).spec_head() == old(self).spec_head(),
            final(self).spec_branches() == old(self).spec_branches(),
            final(self).counts() == old(self).counts(),
            final(self).tops() == old(self).tops(),
            r is Ok,
            r->Ok_0.archived == 0,
            r->Ok_0.delete_failed <= r->Ok_0.pruned,
            final(self).contents().submap_of(old(self).contents()),
            ({
                let kept = reachable(old(self).contents(), old(self).roots(object::id_texts(keep@)));
                &&& final(self).contents().restrict(kept) == old(self).contents().restrict(kept)
                &&& old(self).reliable() ==> r->Ok_0.pruned == old(self).contents().dom().difference(kept).len()
                &&& old(self).reliable() && old(self).spec_store().deletes() ==> r->Ok_0.delete_failed == 0 && final(self).contents() == old(self).contents().restrict(kept)
            }),
    {
        let ghost m = self.contents();
        let ghost kept = reachable(m, self.roots(object::id_texts(keep@)));
        let mark = self.reachable_mark(keep);
        let list = self.doomed(&mark);
        let pruned = list.len();
        let delete_failed = self.delete_all(&list);
        proof {
            pruned_facts(m, kept, object::id_texts(list@), self.contents());
            spared(m, kept, list@, self.contents());
        }
        Ok(GcReport { pruned, archived: 0, delete_failed })
    }

    /// Prunes like `gc`, after putting what is pruned into an archive. What cannot be
    /// read cannot be archived, and stays.
    pub fn gc_to<A: ObjectStore>(&mut self, archive: &mut A, keep: &[ObjectId]) -> (r: Result<GcReport, StoreError>)
        requires
            old(self).wf(),
            old(archive).wf(),
        ensures
            final(self).wf(),
            final(archive).wf(),
            final(self).spec_head() == old(self).spec_head(),
            final(self).spec_branches() == old(self).spec_branches(),
            final(self).counts() == old(self).counts(),
            final(self).tops() == old(self).tops(),
            old(archive).reliable() ==> r is Ok,
            r is Err ==> final(self).spec_store() == old(self).spec_store(),
            r is Ok ==> r->Ok_0.delete_failed <= r->Ok_0.pruned && r->Ok_0.archived == r->Ok_0.pruned,
            r is Ok ==> forall|id: Seq<char>|
                #[trigger] old(self).contents().dom().contains(id) && !final(self).contents().dom().contains(id)
                    ==> final(archive).contents().dom().contains(id) && final(archive).contents()[id] == old(self).contents()[id],
            final(self).contents().submap_of(old(self).contents()),
            final(archive).contents().remove_keys(old(self).contents().dom()) == old(archive).contents().remove_keys(
                old(self).contents().dom(),
            ),
            ({
                let kept = reachable(old(self).contents(), old(self).roots(object::id_texts(keep@)));
                let gone = readable_ids(old(self).contents()).difference(kept);
                &&& final(self).contents().restrict(kept) == old(self).contents().restrict(kept)
                &&& r is Ok && old(self).reliable() ==> r->Ok_0.pruned == gone.len()
                &&& r is Ok && old(self).reliable() ==> final(archive).contents() == old(archive).contents().union_prefer_right(old(self).contents().restrict(gone))
                &&& r is Ok && old(self).reliable() && old(self).spec_store().deletes() ==> r->Ok_0.delete_failed == 0
                    && final(self).contents() == old(self).contents().remove_keys(gone)
            }),
    {
        let ghost m = self.contents();
        let ghost a0 = archive.contents();
        let ghost kept = reachable(m, self.roots(object::id_texts(keep@)));
        let mark = self.reachable_mark(keep);
        let list = self.doomed(&mark);
        let ghost names = object::id_texts(list@);
        let ghost whole = |id: Seq<char>| readable_ids(m).contains(id);
        let mut safe: Vec<ObjectId> = Vec::new();
        let mut i: usize = 0;
        proof {
            reveal(Seq::filter);
            assert(object::id_texts(safe@) =~= Seq::<Seq<char>>::empty());
            assert(object::id_texts(safe@).to_set() =~= Set::<Seq<char>>::empty());
            assert(archive.contents() =~= a0.union_prefer_right(m.restrict(object::id_texts(safe@).to_set())));
            assert(names.take(0).filter(whole) =~= object::id_texts(safe@));
        }
        while i < list.len()
            invariant
                i <= list@.len(),
                self.wf(),
                archive.wf(),
                m == self.contents(),
                *self == *old(self),
                names == object::id_texts(list@),
                whole == (|id: Seq<char>| readable_ids(m).contains(id)),
                archive.reliable() == old(archive).reliable(),
                object::id_texts(safe@) == names.take(i as int).filter(whole),
                forall|j: int| 0 <= j < list@.len() ==> !kept.contains((#[trigger] list@[j])@),
                forall|j: int| 0 <= j < safe@.len() ==> !kept.contains((#[trigger] safe@[j])@),
                a0 == old(archive).contents(),
                object::id_texts(safe@).to_set().subset_of(m.dom()),
                archive.contents() == a0.union_prefer_right(m.restrict(object::id_texts(safe@).to_set())),
            decreases list.len() - i,
        {
            let ghost id = list@[i as int]@;
            let ghost a = object::id_texts(safe@);
            let ghost c0 = archive.contents();
            proof {
                reveal(Seq::filter);
                let longer = names.take(i as int + 1);
                assert(longer.drop_last() =~= names.take(i as int));
                assert(longer.last() == id);
                text_set_push(a, id);
            }
            match self.store.get(&list[i]) {
                Ok(object) => {
                    match archive.put(&list[i], &object) {
                        Ok(_) => {},
                        Err(e) => {
                            proof {
                                same_but_for(archive.contents(), c0, id, m.dom());
                                assert(c0.remove_keys(m.dom()) =~= a0.remove_keys(m.dom()));
                            }
                            return Err(e);
                        },
                    }
                    let one = list[i].copy();
                    proof {
                        id_texts_push(safe@, one);
                    }
                    safe.push(one);
                    proof {
                        assert(archive.contents() =~= a0.union_prefer_right(m.restrict(a.to_set().insert(id))));
                    }
                },
                Err(_) => {},
            }
            i = i + 1;
        }
        let pruned = safe.len();
        let archived = safe.len();
        let ghost good = object::id_texts(safe@);
        let delete_failed = self.delete_all(&safe);
        proof {
            assert(names.take(i as int) =~= names);
            spared(m, kept, safe@, self.contents());
            if old(self).reliable() {
                let gone = readable_ids(m).difference(kept);
                search::filter_distinct(names, whole);
                assert forall|id: Seq<char>| good.to_set().contains(id) == gone.contains(id) by {
                    search::filter_members(names, whole, id);
                    assert(names.to_set().contains(id) == names.contains(id));
                }
                assert(good.to_set() =~= gone);
                good.unique_seq_to_set();
            }
            assert(archive.contents().remove_keys(m.dom()) =~= a0.remove_keys(m.dom()));
            let after = self.contents();
            assert forall|id: Seq<char>| #[trigger] m.dom().contains(id) && !after.dom().contains(id) implies archive.contents().dom().contains(
                id,
            ) && archive.contents()[id] == m[id] by {
                if !good.to_set().contains(id) {
                    assert(m.remove_keys(good.to_set()).dom().contains(id));
                    assert(after.remove_keys(good.to_set()).dom().contains(id));
                }
            }
        }
        Ok(GcReport { pruned, archived, delete_failed })
    }
}

/// Whether the second list has the parents of the commits of the first.
spec fn tells_parents(m: Map<Seq<char>, ObjectModel>, list: Seq<ObjectId>, parents: Seq<Vec<ObjectId>>) -> bool {
    list.len() == parents.len() && forall|i: int|
        0 <= i < list.len() ==> object::id_texts((#[trigger] parents[i])@) == parents_in(m, list[i]@)
}

/// Whether an id is among ids.
fn among(id: &ObjectId, ids: &Vec<ObjectId>) -> (yes: bool)
    ensures
        yes == object::id_texts(ids@).contains(id@),
{
    let mut i: usize = 0;
    while i < ids.len()
        invariant
            i <= ids.len(),
            forall|j: int| 0 <= j < i ==> #[trigger] object::id_texts(ids@)[j] != id@,
        decreases ids.len() - i,
    {
        if text::same_text(ids[i].as_str(), id.as_str()) {
            proof {
                assert(object::id_texts(ids@)[i as int] == id@);
            }
            return true;
        }
        i = i + 1;
    }
    false
}

/// Commits with each behind its children, given the parents of each.
fn unwind(list: Vec<ObjectId>, parents: Vec<Vec<ObjectId>>, Ghost(m): Ghost<Map<Seq<char>, ObjectModel>>) -> (newest: Vec<
    ObjectId,
>)
    requires
        tells_parents(m, list@, parents@),
    ensures
        object::id_texts(newest@) == newest_first(m, object::id_texts(list@)),
{
    let mut rest = list;
    let mut up = parents;
    let mut newest: Vec<ObjectId> = Vec::new();
    let ghost goal = newest_first(m, object::id_texts(list@));
    proof {
        assert(object::id_texts(newest@) + newest_first(m, object::id_texts(rest@)) =~= goal);
    }
    while rest.len() > 0
        invariant
            tells_parents(m, rest@, up@),
            object::id_texts(newest@) + newest_first(m, object::id_texts(rest@)) == goal,
        decreases rest.len(),
    {
        let ghost names = object::id_texts(rest@);
        let mut k: usize = 0;
        let mut at: usize = 0;
        let mut open = true;
        while open && k < rest.len()
            invariant
                k <= rest.len(),
                rest.len() > 0,
                names == object::id_texts(rest@),
                tells_parents(m, rest@, up@),
                open ==> at == 0 && childless(m, names, 0) == childless(m, names, k as int),
                !open ==> at == childless(m, names, 0) && at < rest.len(),
            decreases rest.len() - k + (if open { 1int } else { 0int }),
        {
            let mut child = false;
            let mut i: usize = 0;
            while i < rest.len()
                invariant
                    i <= rest.len(),
                    k < rest.len(),
                    names == object::id_texts(rest@),
                    tells_parents(m, rest@, up@),
                    child == exists|j: int| 0 <= j < i && parents_in(m, #[trigger] names[j]).contains(names[k as int]),
                decreases rest.len() - i,
            {
                proof {
                    assert(names[i as int] == rest@[i as int]@);
                    assert(object::id_texts(up@[i as int]@) == parents_in(m, names[i as int]));
                    assert(names[k as int] == rest@[k as int]@);
                }
                if among(&rest[k], &up[i]) {
                    child = true;
                }
                i = i + 1;
            }
            if child {
                k = k + 1;
            } else {
                at = k;
                open = false;
            }
        }
        proof {
            childless_facts(m, names, 0);
        }
        let ghost before = newest@;
        let id = rest.remove(at);
        let _ = up.remove(at);
        proof {
            id_texts_push(before, id);
            assert(object::id_texts(rest@) =~= names.remove(at as int));
            assert(names[at as int] == id@);
        }
        newest.push(id);
        proof {
            assert(object::id_texts(newest@) + newest_first(m, object::id_texts(rest@)) =~= object::id_texts(before)
                + newest_first(m, names));
        }
    }
    proof {
        assert(object::id_texts(newest@) =~= goal);
    }
    newest
}

/// Whether an id still stands in a queue.
spec fn pending(queue: Seq<Seq<char>>, front: int, id: Seq<char>) -> bool {
    exists|i: int| front <= i < queue.len() && #[trigger] queue[i] == id
}

/// One more text in a list is one more member.
proof fn text_set_push(s: Seq<Seq<char>>, x: Seq<char>)
    ensures
        s.push(x).to_set() == s.to_set().insert(x),
{
    let p = s.push(x);
    assert forall|q: Seq<char>| p.to_set().contains(q) == s.to_set().insert(x).contains(q) by {
        if p.contains(q) {
            let i = choose|i: int| 0 <= i < p.len() && p[i] == q;
            if i < s.len() {
                assert(s[i] == q);
            }
        }
        if s.contains(q) {
            let i = choose|i: int| 0 <= i < s.len() && s[i] == q;
            assert(p[i] == q);
        }
        assert(p[s.len() as int] == x);
    }
    assert(p.to_set() =~= s.to_set().insert(x));
}

/// What is to be kept is spared where only others are deleted.
proof fn spared(
    m: Map<Seq<char>, ObjectModel>,
    kept: Set<Seq<char>>,
    gone: Seq<ObjectId>,
    after: Map<Seq<char>, ObjectModel>,
)
    requires
        after.remove_keys(object::id_texts(gone).to_set()) == m.remove_keys(object::id_texts(gone).to_set()),
        forall|i: int| 0 <= i < gone.len() ==> !kept.contains((#[trigger] gone[i])@),
    ensures
        after.restrict(kept) == m.restrict(kept),
{
    let x = after.restrict(kept);
    let y = m.restrict(kept);
    let names = object::id_texts(gone);
    let d = names.to_set();
    assert forall|q: Seq<char>| kept.contains(q) implies !d.contains(q) by {
        if names.contains(q) {
            let i = choose|i: int| 0 <= i < names.len() && names[i] == q;
            assert(gone[i]@ == q);
        }
    }
    assert forall|q: Seq<char>| #![trigger x.dom().contains(q)] #![trigger y.dom().contains(q)] x.dom().contains(q)
        == y.dom().contains(q) && (x.dom().contains(q) ==> x[q] == y[q]) by {
        assert(after.remove_keys(d).dom().contains(q) == (after.dom().contains(q) && !d.contains(q)));
        assert(m.remove_keys(d).dom().contains(q) == (m.dom().contains(q) && !d.contains(q)));
        if after.dom().contains(q) && !d.contains(q) {
            assert(after.remove_keys(d)[q] == after[q]);
            assert(m.remove_keys(d)[q] == m[q]);
        }
    }
    assert(x.dom() =~= y.dom());
    assert(x =~= y);
}

/// What is left once the doomed are gone.
proof fn pruned_facts(
    m: Map<Seq<char>, ObjectModel>,
    kept: Set<Seq<char>>,
    doomed: Seq<Seq<char>>,
    after: Map<Seq<char>, ObjectModel>,
)
    ensures
        doomed.no_duplicates() && doomed.to_set() == m.dom().difference(kept) ==> doomed.len() == m.dom().difference(
            kept,
        ).len() && m.remove_keys(doomed.to_set()) == m.restrict(kept),
        doomed.to_set() == m.dom().difference(kept) && after.remove_keys(doomed.to_set()) == m.remove_keys(doomed.to_set())
            ==> after.restrict(kept) == m.restrict(kept),
{
    if doomed.to_set() == m.dom().difference(kept) {
        if doomed.no_duplicates() {
            doomed.unique_seq_to_set();
            assert(m.remove_keys(doomed.to_set()) =~= m.restrict(kept));
        }
        if after.remove_keys(doomed.to_set()) == m.remove_keys(doomed.to_set()) {
            let x = after.restrict(kept);
            let y = m.restrict(kept);
            let d = doomed.to_set();
            assert forall|q: Seq<char>| #![trigger x.dom().contains(q)] #![trigger y.dom().contains(q)] x.dom().contains(q)
                == y.dom().contains(q) && (x.dom().contains(q) ==> x[q] == y[q]) by {
                assert(after.remove_keys(d).dom().contains(q) == (after.dom().contains(q) && !d.contains(q)));
                assert(m.remove_keys(d).dom().contains(q) == (m.dom().contains(q) && !d.contains(q)));
                if after.dom().contains(q) && !d.contains(q) {
                    assert(after.remove_keys(d)[q] == after[q]);
                    assert(m.remove_keys(d)[q] == m[q]);
                }
            }
            assert(x.dom() =~= y.dom());
            assert(x =~= y);
        }
    }
}

/// A head as a list of at most one id.
pub open spec fn head_list(head: Option<Seq<char>>) -> Seq<Seq<char>> {
    match head {
        Some(h) => seq![h],
        None => Seq::empty(),
    }
}

/// The joins of two lists of three sets.
pub open spec fn joins(a: Seq<Set<u32>>, b: Seq<Set<u32>>) -> Seq<Set<u32>> {
    seq![a[0].union(b[0]), a[1].union(b[1]), a[2].union(b[2])]
}

/// The join of two commits, as far as they can be read.
pub open spec fn merged_of(m: Map<Seq<char>, ObjectModel>, a: Seq<char>, b: Seq<char>) -> Read<
    (Seq<Set<u32>>, Seq<u64>),
> {
    match read_states_of(m, a) {
        Read::Found(x) => match read_states_of(m, b) {
            Read::Found(y) => match read_tf_of(m, a) {
                Read::Found(s) => match read_tf_of(m, b) {
                    Read::Found(t) => Read::Found((joins(x, y), registry::summed(s, t))),
                    Read::Missing(i) => Read::Missing(i),
                    Read::Wrong(w) => Read::Wrong(w),
                },
                Read::Missing(i) => Read::Missing(i),
                Read::Wrong(w) => Read::Wrong(w),
            },
            Read::Missing(i) => Read::Missing(i),
            Read::Wrong(w) => Read::Wrong(w),
        },
        Read::Missing(i) => Read::Missing(i),
        Read::Wrong(w) => Read::Wrong(w),
    }
}

/// Bit frequencies of two commits whose sums fit.
pub open spec fn frequencies_fit(m: Map<Seq<char>, ObjectModel>, a: Seq<char>, b: Seq<char>) -> bool {
    read_tf_of(m, a) is Found && read_tf_of(m, b) is Found ==> registry::sums_fit(
        read_tf_of(m, a)->Found_0,
        read_tf_of(m, b)->Found_0,
    )
}

/// Every object that can be read stands under its own id.
pub open spec fn addressed(m: Map<Seq<char>, ObjectModel>) -> bool {
    forall|id: Seq<char>| #[trigger] m.dom().contains(id) && !(m[id] is Spoiled) ==> id == object::id_of(m[id])
}

/// No two different objects of a list share an id.
pub open spec fn clash_free(list: Seq<ObjectModel>) -> bool {
    forall|i: int, j: int|
        0 <= i < list.len() && 0 <= j < list.len() && object::id_of(#[trigger] list[i]) == object::id_of(#[trigger] list[j]) ==> list[i]
            == list[j]
}

/// The objects that a commit puts into the store.
pub open spec fn commit_objects(sets: Seq<Set<u32>>, tf: Seq<u64>, parents: Seq<Seq<char>>, message: Seq<char>) -> Seq<
    ObjectModel,
> {
    seq![
        set_blob(sets[0]),
        set_blob(sets[1]),
        set_blob(sets[2]),
        ObjectModel::Blob(tf::tf_bytes(tf)),
        ObjectModel::Commit(commit_of(sets, tf, parents, message)),
    ]
}

/// Committing keeps every object under its own id. What is committed can be read
/// back, and what was there before stays, unless two objects share an id.
pub proof fn commit_law(
    m: Map<Seq<char>, ObjectModel>,
    sets: Seq<Set<u32>>,
    tf: Seq<u64>,
    parents: Seq<Seq<char>>,
    message: Seq<char>,
    old_id: Seq<char>,
)
    requires
        sets.len() == 3,
        forall|i: int| 0 <= i < 3 ==> hllset::on_plane(#[trigger] sets[i]),
        tf.len() == crate::hashing::PLANE,
    ensures
        ({
            let after = with_commit(m, sets, tf, parents, message);
            let c = commit_of(sets, tf, parents, message);
            let id = object::id_of(ObjectModel::Commit(c));
            let fresh = commit_objects(sets, tf, parents, message);
            &&& read_commit_of(after, id) == Read::Found(c)
            &&& addressed(m) ==> addressed(after)
            &&& clash_free(fresh) ==> read_states_of(after, id) == Read::Found(sets)
            &&& clash_free(fresh) ==> read_tf_of(after, id) == Read::Found(tf)
            &&& addressed(m) && readable_ids(m).contains(old_id) && clash_free(fresh.push(m[old_id])) ==> after.dom().contains(
                old_id,
            ) && after[old_id] == m[old_id]
        }),
{
    let after = with_commit(m, sets, tf, parents, message);
    let c = commit_of(sets, tf, parents, message);
    let id = object::id_of(ObjectModel::Commit(c));
    let fresh = commit_objects(sets, tf, parents, message);
    hllset::set_bytes_valid(sets[0]);
    hllset::set_bytes_valid(sets[1]);
    hllset::set_bytes_valid(sets[2]);
    tf::tf_round_trip(tf);
    assert(fresh[0] == set_blob(sets[0]) && fresh[1] == set_blob(sets[1]) && fresh[2] == set_blob(sets[2]));
    assert(fresh[3] == ObjectModel::Blob(tf::tf_bytes(tf)));
    assert(fresh[4] == ObjectModel::Commit(c));
    assert(c.trees[0] == object::id_of(fresh[0]) && c.trees[1] == object::id_of(fresh[1]) && c.trees[2] == object::id_of(fresh[2]));
    if clash_free(fresh) {
        assert(after[object::id_of(fresh[0])] == fresh[0]);
        assert(after[object::id_of(fresh[1])] == fresh[1]);
        assert(after[object::id_of(fresh[2])] == fresh[2]);
        assert(after[object::id_of(fresh[3])] == fresh[3]);
        assert(read_state_of(after, id, Gx::G1) == Read::Found(sets[0]));
        assert(read_state_of(after, id, Gx::G2) == Read::Found(sets[1]));
        assert(read_state_of(after, id, Gx::G3) == Read::Found(sets[2]));
        assert(seq![sets[0], sets[1], sets[2]] =~= sets);
    }
    if addressed(m) && readable_ids(m).contains(old_id) && clash_free(fresh.push(m[old_id])) {
        let more = fresh.push(m[old_id]);
        assert(more[5] == m[old_id]);
        assert forall|i: int| 0 <= i < 5 implies object::id_of(#[trigger] more[i]) == old_id ==> more[i] == m[old_id] by {
            assert(object::id_of(more[5]) == old_id);
        }
        assert(more[0] == fresh[0] && more[1] == fresh[1] && more[2] == fresh[2] && more[3] == fresh[3] && more[4]
            == fresh[4]);
    }
}

/// A state brings no new bits exactly where the tops hold all of it; committing it
/// then leaves the tops as they are. Tops never lose a bit.
pub proof fn tops_law(tops: Seq<Set<u32>>, sets: Seq<Set<u32>>)
    requires
        sets.len() == 3,
        tops.len() == 3,
        forall|i: int| 0 <= i < 3 ==> hllset::on_plane(#[trigger] sets[i]),
    ensures
        fresh_bits(tops, sets) == 0 <==> forall|g: int| 0 <= g < 3 ==> (#[trigger] sets[g]).subset_of(tops[g]),
        fresh_bits(tops, sets) == 0 ==> forall|g: int| 0 <= g < 3 ==> (#[trigger] tops[g]).union(sets[g]) == tops[g],
        forall|g: int| 0 <= g < 3 ==> (#[trigger] tops[g]).subset_of(tops[g].union(sets[g])),
{
    assert forall|g: int| 0 <= g < 3 implies ((#[trigger] sets[g]).difference(tops[g]).len() == 0) == sets[g].subset_of(
        tops[g],
    ) by {
        hllset::bit_list_facts(sets[g]);
        let d = sets[g].difference(tops[g]);
        vstd::set_lib::lemma_len_subset(d, sets[g]);
        if d.len() == 0 {
            d.lemma_len0_is_empty();
            assert forall|b: u32| sets[g].contains(b) implies tops[g].contains(b) by {
                assert(!d.contains(b));
            }
        } else if sets[g].subset_of(tops[g]) {
            assert(d =~= Set::<u32>::empty());
        }
    }
    assert(sets[0].difference(tops[0]).len() == 0 <==> sets[0].subset_of(tops[0]));
    assert(sets[1].difference(tops[1]).len() == 0 <==> sets[1].subset_of(tops[1]));
    assert(sets[2].difference(tops[2]).len() == 0 <==> sets[2].subset_of(tops[2]));
    if fresh_bits(tops, sets) == 0 {
        assert forall|g: int| 0 <= g < 3 implies (#[trigger] tops[g]).union(sets[g]) == tops[g] by {
            assert(sets[g].difference(tops[g]).len() == 0);
            assert(tops[g].union(sets[g]) =~= tops[g]);
        }
    }
}

/// Joining commits is idempotent, commutative and associative, channel by channel.
pub proof fn joins_law(a: Seq<Set<u32>>, b: Seq<Set<u32>>, c: Seq<Set<u32>>)
    requires
        a.len() == 3,
        b.len() == 3,
        c.len() == 3,
    ensures
        joins(a, a) == a,
        joins(a, b) == joins(b, a),
        joins(joins(a, b), c) == joins(a, joins(b, c)),
{
    assert forall|g: int| 0 <= g < 3 implies (#[trigger] a[g]).union(a[g]) == a[g] && a[g].union(b[g]) == b[g].union(a[g])
        && a[g].union(b[g]).union(c[g]) == a[g].union(b[g].union(c[g])) by {
        assert(a[g].union(a[g]) =~= a[g]);
        assert(a[g].union(b[g]) =~= b[g].union(a[g]));
        assert(a[g].union(b[g]).union(c[g]) =~= a[g].union(b[g].union(c[g])));
    }
    assert(a[0].union(a[0]) == a[0] && a[1].union(a[1]) == a[1] && a[2].union(a[2]) == a[2]);
    assert(joins(a, a) =~= a);
    assert(joins(a, b) =~= joins(b, a));
    assert(joins(joins(a, b), c) =~= joins(a, joins(b, c)));
}

/// Sets of ids that hold the parents of their members.
pub open spec fn closed_under_parents(m: Map<Seq<char>, ObjectModel>, s: Set<Seq<char>>) -> bool {
    forall|id: Seq<char>, i: int|
        s.contains(id) && 0 <= i < parents_in(m, id).len() ==> s.contains(#[trigger] parents_in(m, id)[i])
}

/// The log lists commits only, each once: the head, the parents of what it lists,
/// and nothing that some such set could do without. Each stands behind its parents,
/// where no commit descends from itself.
pub proof fn log_law(m: Map<Seq<char>, ObjectModel>, head: Seq<char>)
    requires
        m.dom().finite(),
    ensures
        log_of(m, Some(head)) matches Read::Found(list) ==> {
            &&& list.no_duplicates()
            &&& list.to_set().contains(head)
            &&& closed_under_parents(m, list.to_set())
            &&& forall|i: int| 0 <= i < list.len() ==> read_commit_of(m, #[trigger] list[i]) is Found
            &&& forall|s: Set<Seq<char>>|
                s.contains(head) && #[trigger] closed_under_parents(m, s) ==> list.to_set().subset_of(s)
            &&& acyclic(m, list) ==> oldest_first(m, list)
        },
{
    let empty = Set::<Seq<char>>::empty();
    let none = Seq::<Seq<char>>::empty();
    assert(none.to_set() =~= empty);
    let found = history(m, seq![head], empty, none);
    history_sound(m, seq![head], empty, none);
    match found {
        Read::Found(order) => {
            let newest = newest_first(m, order);
            newest_first_facts(m, order);
            let list = newest.reverse();
            assert forall|x: Seq<char>| list.to_set().contains(x) == order.to_set().contains(x) by {
                assert(newest.to_set().contains(x) == order.to_set().contains(x));
                if newest.contains(x) {
                    let i = choose|i: int| 0 <= i < newest.len() && newest[i] == x;
                    assert(list[newest.len() - 1 - i] == x);
                }
                if list.contains(x) {
                    let i = choose|i: int| 0 <= i < list.len() && list[i] == x;
                    assert(newest[newest.len() - 1 - i] == x);
                }
            }
            if acyclic(m, list) {
                let age = choose|age: spec_fn(Seq<char>) -> nat| #[trigger] aged(m, list, age);
                assert forall|i: int, j: int|
                    0 <= i < order.len() && 0 <= j < order.len() && parents_in(m, #[trigger] order[i]).contains(
                        #[trigger] order[j],
                    ) implies age(order[i]) < age(order[j]) by {
                    assert(order.to_set().contains(order[i]) && order.to_set().contains(order[j]));
                    assert(list.to_set().contains(order[i]) && list.to_set().contains(order[j]));
                    let k = choose|k: int| 0 <= k < list.len() && list[k] == order[i];
                    let l = choose|l: int| 0 <= l < list.len() && list[l] == order[j];
                    assert(parents_in(m, list[k]).contains(list[l]));
                }
                newest_first_ordered(m, order, age);
                assert forall|i: int, j: int|
                    0 <= i < list.len() && 0 <= j < list.len() && parents_in(m, #[trigger] list[i]).contains(
                        #[trigger] list[j],
                    ) implies j < i by {
                    let p = newest.len() - 1 - i;
                    let q = newest.len() - 1 - j;
                    assert(newest[p] == list[i] && newest[q] == list[j]);
                    assert(p < q);
                }
            }
            assert(list.to_set() =~= order.to_set());
            assert(seq![head][0] == head);
            assert(order.to_set().contains(head));
            assert forall|s: Set<Seq<char>>|
                s.contains(head) && #[trigger] closed_under_parents(m, s) implies list.to_set().subset_of(s) by {
                history_minimal(m, seq![head], empty, none, s);
            }
            assert forall|i: int| 0 <= i < list.len() implies read_commit_of(m, #[trigger] list[i]) is Found by {
                assert(list.to_set().contains(list[i]));
                assert(order.to_set().contains(list[i]));
                let k = choose|k: int| 0 <= k < order.len() && order[k] == list[i];
                assert(read_commit_of(m, order[k]) is Found);
            }
            assert forall|i: int, j: int| 0 <= i < list.len() && 0 <= j < list.len() && i != j implies list[i] != list[j] by {
                assert(newest[newest.len() - 1 - i] == list[i]);
                assert(newest[newest.len() - 1 - j] == list[j]);
            }
        },
        _ => {},
    }
}

/// A list in another order has the same members.
proof fn newest_first_facts(m: Map<Seq<char>, ObjectModel>, list: Seq<Seq<char>>)
    ensures
        newest_first(m, list).to_set() == list.to_set(),
        newest_first(m, list).len() == list.len(),
        list.no_duplicates() ==> newest_first(m, list).no_duplicates(),
    decreases list.len(),
{
    if list.len() > 0 {
        let k = childless(m, list, 0);
        childless_facts(m, list, 0);
        let rest = list.remove(k);
        let tail = newest_first(m, rest);
        let out = newest_first(m, list);
        newest_first_facts(m, rest);
        assert(out =~= seq![list[k]] + tail);
        assert forall|i: int| 0 <= i < rest.len() implies rest[i] == list[if i < k { i } else { i + 1 }] by {}
        assert forall|x: Seq<char>| out.to_set().contains(x) == list.to_set().contains(x) by {
            assert(tail.to_set().contains(x) == rest.to_set().contains(x));
            if out.contains(x) {
                let i = choose|i: int| 0 <= i < out.len() && out[i] == x;
                if i > 0 {
                    assert(tail[i - 1] == x);
                    assert(rest.contains(x));
                    let j = choose|j: int| 0 <= j < rest.len() && rest[j] == x;
                    assert(list[if j < k { j } else { j + 1 }] == x);
                }
            }
            if list.contains(x) {
                let i = choose|i: int| 0 <= i < list.len() && list[i] == x;
                if i == k {
                    assert(out[0] == x);
                } else {
                    assert(rest[if i < k { i } else { i - 1 }] == x);
                    assert(tail.contains(x));
                    let j = choose|j: int| 0 <= j < tail.len() && tail[j] == x;
                    assert(out[j + 1] == x);
                }
            }
        }
        assert(out.to_set() =~= list.to_set());
        if list.no_duplicates() {
            assert(rest.no_duplicates());
            assert(!rest.to_set().contains(list[k])) by {
                if rest.contains(list[k]) {
                    let i = choose|i: int| 0 <= i < rest.len() && rest[i] == list[k];
                    assert(list[if i < k { i } else { i + 1 }] == list[k]);
                }
            }
            assert forall|i: int, j: int| 0 <= i < out.len() && 0 <= j < out.len() && i != j implies out[i] != out[j] by {
                if i > 0 {
                    assert(out[i] == tail[i - 1]);
                    assert(tail.to_set().contains(tail[i - 1]));
                }
                if j > 0 {
                    assert(out[j] == tail[j - 1]);
                    assert(tail.to_set().contains(tail[j - 1]));
                }
            }
        }
    } else {
        assert(newest_first(m, list) =~= list);
    }
}

/// The youngest of some commits.
proof fn youngest(list: Seq<Seq<char>>, age: spec_fn(Seq<char>) -> nat) -> (k: int)
    requires
        list.len() > 0,
    ensures
        0 <= k < list.len(),
        forall|i: int| 0 <= i < list.len() ==> age(list[k]) <= age(#[trigger] list[i]),
    decreases list.len(),
{
    if list.len() == 1 {
        0
    } else {
        let shorter = list.drop_last();
        let k = youngest(shorter, age);
        assert forall|i: int| 0 <= i < shorter.len() implies age(list[k]) <= age(#[trigger] list[i]) by {
            assert(shorter[i] == list[i] && shorter[k] == list[k]);
        }
        if age(list[k]) <= age(list.last()) {
            k
        } else {
            list.len() - 1
        }
    }
}

/// Commits with ages come out with each behind its children.
proof fn newest_first_ordered(m: Map<Seq<char>, ObjectModel>, list: Seq<Seq<char>>, age: spec_fn(Seq<char>) -> nat)
    requires
        aged(m, list, age),
    ensures
        ({
            let out = newest_first(m, list);
            forall|i: int, j: int|
                0 <= i < out.len() && 0 <= j < out.len() && parents_in(m, #[trigger] out[i]).contains(#[trigger] out[j])
                    ==> i < j
        }),
    decreases list.len(),
{
    if list.len() > 0 {
        let k = childless(m, list, 0);
        let y = youngest(list, age);
        assert(!has_child(m, list, list[y]));
        childless_facts(m, list, 0);
        let rest = list.remove(k);
        let tail = newest_first(m, rest);
        let out = newest_first(m, list);
        newest_first_facts(m, rest);
        assert(out =~= seq![list[k]] + tail);
        assert forall|i: int| 0 <= i < rest.len() implies rest[i] == list[if i < k { i } else { i + 1 }] by {}
        assert forall|i: int, j: int|
            0 <= i < rest.len() && 0 <= j < rest.len() && parents_in(m, #[trigger] rest[i]).contains(#[trigger] rest[j])
            implies age(rest[i]) < age(rest[j]) by {
            let a = if i < k { i } else { i + 1 };
            let b = if j < k { j } else { j + 1 };
            assert(rest[i] == list[a] && rest[j] == list[b]);
        }
        newest_first_ordered(m, rest, age);
        assert forall|i: int, j: int|
            0 <= i < out.len() && 0 <= j < out.len() && parents_in(m, #[trigger] out[i]).contains(#[trigger] out[j])
            implies i < j by {
            if j == 0 {
                if i == 0 {
                    assert(parents_in(m, list[k]).contains(list[k]));
                } else {
                    assert(out[i] == tail[i - 1]);
                    assert(tail.to_set().contains(tail[i - 1]));
                    assert(rest.to_set().contains(tail[i - 1]));
                    let l = choose|l: int| 0 <= l < rest.len() && rest[l] == tail[i - 1];
                    let n = if l < k { l } else { l + 1 };
                    assert(list[n] == out[i]);
                    assert(has_child(m, list, list[k]));
                }
            } else if i > 0 {
                assert(out[i] == tail[i - 1] && out[j] == tail[j - 1]);
            }
        }
    }
}

/// The order depends on the parents of the commits alone.
proof fn newest_first_same(m: Map<Seq<char>, ObjectModel>, n: Map<Seq<char>, ObjectModel>, list: Seq<Seq<char>>)
    requires
        forall|i: int| 0 <= i < list.len() ==> parents_in(m, #[trigger] list[i]) == parents_in(n, list[i]),
    ensures
        newest_first(m, list) == newest_first(n, list),
    decreases list.len(),
{
    if list.len() > 0 {
        childless_same(m, n, list, 0);
        childless_facts(m, list, 0);
        let k = childless(m, list, 0);
        let rest = list.remove(k);
        assert forall|i: int| 0 <= i < rest.len() implies parents_in(m, #[trigger] rest[i]) == parents_in(n, rest[i]) by {
            assert(rest[i] == list[if i < k { i } else { i + 1 }]);
        }
        newest_first_same(m, n, rest);
    }
}

proof fn childless_same(m: Map<Seq<char>, ObjectModel>, n: Map<Seq<char>, ObjectModel>, list: Seq<Seq<char>>, from: int)
    requires
        forall|i: int| 0 <= i < list.len() ==> parents_in(m, #[trigger] list[i]) == parents_in(n, list[i]),
    ensures
        childless(m, list, from) == childless(n, list, from),
    decreases list.len() - from,
{
    if 0 <= from < list.len() {
        let id = list[from];
        if has_child(m, list, id) {
            let i = choose|i: int| 0 <= i < list.len() && parents_in(m, #[trigger] list[i]).contains(id);
            assert(parents_in(n, list[i]).contains(id));
        }
        if has_child(n, list, id) {
            let i = choose|i: int| 0 <= i < list.len() && parents_in(n, #[trigger] list[i]).contains(id);
            assert(parents_in(m, list[i]).contains(id));
        }
        childless_same(m, n, list, from + 1);
    }
}

/// The parents of all commits are there, and no commit descends from itself.
pub open spec fn sound_history(m: Map<Seq<char>, ObjectModel>) -> bool {
    exists|age: spec_fn(Seq<char>) -> nat| #[trigger] all_aged(m, age)
}

/// Ages under which each commit is younger than its parents, which are there.
pub open spec fn all_aged(m: Map<Seq<char>, ObjectModel>, age: spec_fn(Seq<char>) -> nat) -> bool {
    forall|id: Seq<char>, p: Seq<char>|
        #[trigger] parents_in(m, id).contains(p) ==> m.dom().contains(p) && age(id) < age(p)
}

/// In a sound history the log is the oldest first. Without objects the history is
/// sound, and it stays sound with each new commit on top of commits that are there.
pub proof fn oldest_first_law(
    m: Map<Seq<char>, ObjectModel>,
    head: Seq<char>,
    after: Map<Seq<char>, ObjectModel>,
    id: Seq<char>,
)
    requires
        m.dom().finite(),
        sound_history(m),
        m.submap_of(after),
        !m.dom().contains(id),
        forall|p: Seq<char>| #[trigger] parents_in(after, id).contains(p) ==> m.dom().contains(p),
        forall|x: Seq<char>|
            #[trigger] after.dom().contains(x) && !m.dom().contains(x) && x != id ==> parents_in(after, x).len() == 0,
    ensures
        log_of(m, Some(head)) matches Read::Found(list) ==> oldest_first(m, list),
        sound_history(Map::empty()),
        sound_history(after),
{
    let age = choose|age: spec_fn(Seq<char>) -> nat| #[trigger] all_aged(m, age);
    log_law(m, head);
    if log_of(m, Some(head)) is Found {
        let list = log_of(m, Some(head))->Found_0;
        assert(aged(m, list, age));
        assert(acyclic(m, list));
    }
    assert(all_aged(Map::empty(), age));
    let more = |x: Seq<char>| if m.dom().contains(x) { age(x) + 1 } else { 0nat };
    assert forall|x: Seq<char>, p: Seq<char>| #[trigger] parents_in(after, x).contains(p) implies after.dom().contains(p)
        && more(x) < more(p) by {
        if m.dom().contains(x) {
            assert(parents_in(m, x) == parents_in(after, x));
            assert(parents_in(m, x).contains(p));
        } else if x != id {
            assert(after.dom().contains(x));
        }
    }
    assert(all_aged(after, more));
}

proof fn history_sound(
    m: Map<Seq<char>, ObjectModel>,
    queue: Seq<Seq<char>>,
    seen: Set<Seq<char>>,
    order: Seq<Seq<char>>,
)
    requires
        m.dom().finite(),
        order.to_set() == seen,
        order.no_duplicates(),
        forall|i: int| 0 <= i < order.len() ==> read_commit_of(m, #[trigger] order[i]) is Found,
        forall|id: Seq<char>, i: int|
            seen.contains(id) && 0 <= i < parents_in(m, id).len() ==> seen.contains(#[trigger] parents_in(m, id)[i])
                || queue.contains(parents_in(m, id)[i]),
    ensures
        history(m, queue, seen, order) matches Read::Found(out) ==> {
            &&& out.no_duplicates()
            &&& seen.subset_of(out.to_set())
            &&& forall|i: int| 0 <= i < queue.len() ==> out.to_set().contains(#[trigger] queue[i])
            &&& closed_under_parents(m, out.to_set())
            &&& forall|i: int| 0 <= i < out.len() ==> read_commit_of(m, #[trigger] out[i]) is Found
        },
    decreases m.dom().difference(seen).len(), queue.len(),
{
    if queue.len() > 0 {
        let id = queue[0];
        let rest = queue.skip(1);
        assert forall|x: Seq<char>| #[trigger] queue.contains(x) implies x == id || rest.contains(x) by {
            let i = choose|i: int| 0 <= i < queue.len() && queue[i] == x;
            if i > 0 {
                assert(rest[i - 1] == x);
            }
        }
        if seen.contains(id) {
            history_sound(m, rest, seen, order);
            if history(m, queue, seen, order) is Found {
                let out = history(m, queue, seen, order)->Found_0;
                assert forall|i: int| 0 <= i < queue.len() implies out.to_set().contains(#[trigger] queue[i]) by {
                    if i > 0 {
                        assert(rest[i - 1] == queue[i]);
                    }
                }
            }
        } else if read_commit_of(m, id) is Found {
            let c = read_commit_of(m, id)->Found_0;
            let more = rest + c.parents;
            less_unseen(m.dom(), seen, id);
            text_set_push(order, id);
            let longer = order.push(id);
            assert forall|i: int| 0 <= i < longer.len() implies read_commit_of(m, #[trigger] longer[i]) is Found by {
                if i < order.len() {
                    assert(longer[i] == order[i]);
                }
            }
            assert(longer.no_duplicates()) by {
                assert forall|i: int, j: int| 0 <= i < longer.len() && 0 <= j < longer.len() && i != j implies longer[i]
                    != longer[j] by {
                    if i < order.len() && j == order.len() {
                        assert(order.to_set().contains(order[i]));
                    }
                    if j < order.len() && i == order.len() {
                        assert(order.to_set().contains(order[j]));
                    }
                }
            }
            assert forall|x: Seq<char>, i: int|
                seen.insert(id).contains(x) && 0 <= i < parents_in(m, x).len() implies seen.insert(id).contains(
                #[trigger] parents_in(m, x)[i],
            ) || more.contains(parents_in(m, x)[i]) by {
                let p = parents_in(m, x)[i];
                if x == id {
                    assert(more[rest.len() + i] == p);
                } else if !seen.contains(p) {
                    assert(queue.contains(p));
                    if p != id {
                        let j = choose|j: int| 0 <= j < rest.len() && rest[j] == p;
                        assert(more[j] == p);
                    }
                }
            }
            history_sound(m, more, seen.insert(id), longer);
            if history(m, queue, seen, order) is Found {
                let out = history(m, queue, seen, order)->Found_0;
                assert forall|i: int| 0 <= i < queue.len() implies out.to_set().contains(#[trigger] queue[i]) by {
                    if i > 0 {
                        assert(more[i - 1] == queue[i]);
                    } else {
                        assert(seen.insert(id).contains(id));
                    }
                }
            }
        }
    }
}

proof fn history_minimal(
    m: Map<Seq<char>, ObjectModel>,
    queue: Seq<Seq<char>>,
    seen: Set<Seq<char>>,
    order: Seq<Seq<char>>,
    s: Set<Seq<char>>,
)
    requires
        m.dom().finite(),
        closed_under_parents(m, s),
        forall|i: int| 0 <= i < order.len() ==> s.contains(#[trigger] order[i]),
        forall|i: int| 0 <= i < queue.len() ==> s.contains(#[trigger] queue[i]),
    ensures
        history(m, queue, seen, order) matches Read::Found(out) ==> out.to_set().subset_of(s),
    decreases m.dom().difference(seen).len(), queue.len(),
{
    if queue.len() > 0 {
        let id = queue[0];
        let rest = queue.skip(1);
        assert forall|i: int| 0 <= i < rest.len() implies s.contains(#[trigger] rest[i]) by {
            assert(queue[i + 1] == rest[i]);
        }
        if seen.contains(id) {
            history_minimal(m, rest, seen, order, s);
        } else if read_commit_of(m, id) is Found {
            let c = read_commit_of(m, id)->Found_0;
            let more = rest + c.parents;
            less_unseen(m.dom(), seen, id);
            assert forall|i: int| 0 <= i < more.len() implies s.contains(#[trigger] more[i]) by {
                if i < rest.len() {
                    assert(more[i] == rest[i]);
                } else {
                    assert(parents_in(m, id)[i - rest.len()] == more[i]);
                }
            }
            history_minimal(m, more, seen.insert(id), order.push(id), s);
        }
    } else {
        assert forall|x: Seq<char>| order.to_set().contains(x) implies s.contains(x) by {
            let i = choose|i: int| 0 <= i < order.len() && order[i] == x;
        }
    }
}

proof fn history_kept(
    m: Map<Seq<char>, ObjectModel>,
    after: Map<Seq<char>, ObjectModel>,
    queue: Seq<Seq<char>>,
    seen: Set<Seq<char>>,
    order: Seq<Seq<char>>,
    id: Seq<char>,
)
    requires
        m.dom().finite(),
        after.dom().finite(),
        m.submap_of(after),
        !m.dom().contains(id),
        history(m, queue, seen, order) is Found,
    ensures
        history(after, queue, seen.insert(id), seq![id] + order) == Read::Found(
            seq![id] + history(m, queue, seen, order)->Found_0,
        ),
    decreases m.dom().difference(seen).len(), queue.len(),
{
    if queue.len() > 0 {
        let first = queue[0];
        if seen.contains(first) {
            history_kept(m, after, queue.skip(1), seen, order, id);
        } else {
            let c = read_commit_of(m, first)->Found_0;
            less_unseen(m.dom(), seen, first);
            history_kept(m, after, queue.skip(1) + c.parents, seen.insert(first), order.push(first), id);
            assert(seen.insert(id).insert(first) =~= seen.insert(first).insert(id));
            assert(seq![id] + order.push(first) =~= (seq![id] + order).push(first));
        }
    }
}

/// A commit on top of the head stands at the end of the log, and the log before
/// it is as it was.
pub proof fn log_grows(
    m: Map<Seq<char>, ObjectModel>,
    after: Map<Seq<char>, ObjectModel>,
    head: Option<Seq<char>>,
    id: Seq<char>,
)
    requires
        m.dom().finite(),
        after.dom().finite(),
        m.submap_of(after),
        !m.dom().contains(id),
        log_of(m, head) is Found,
        read_commit_of(after, id) matches Read::Found(c) && c.parents == head_list(head),
    ensures
        log_of(after, Some(id)) == Read::Found(log_of(m, head)->Found_0.push(id)),
{
    let none = Set::<Seq<char>>::empty();
    let empty = Seq::<Seq<char>>::empty();
    let start = seq![id];
    assert(start.skip(1) + head_list(head) =~= head_list(head));
    assert(empty.push(id) =~= seq![id] + empty);
    assert(start[0] == id);
    assert(history(after, start, none, empty) == history(after, head_list(head), none.insert(id), seq![id] + empty));
    match head {
        Some(h) => {
            history_kept(m, after, seq![h], none, empty, id);
            let o = history(m, seq![h], none, empty)->Found_0;
            assert(empty.to_set() =~= none);
            history_sound(m, seq![h], none, empty);
            let all = seq![id] + o;
            assert forall|i: int| 0 <= i < o.len() implies parents_in(m, #[trigger] o[i]) == parents_in(after, o[i])
                && m.dom().contains(o[i]) by {
                assert(read_commit_of(m, o[i]) is Found);
            }
            assert(!has_child(after, all, id)) by {
                if has_child(after, all, id) {
                    let i = choose|i: int| 0 <= i < all.len() && parents_in(after, #[trigger] all[i]).contains(id);
                    let k = choose|k: int| 0 <= k < parents_in(after, all[i]).len() && parents_in(after, all[i])[k] == id;
                    if i > 0 {
                        assert(all[i] == o[i - 1]);
                        assert(o.to_set().contains(o[i - 1]));
                        assert(parents_in(m, o[i - 1])[k] == id);
                        assert(o.to_set().contains(id));
                    } else {
                        assert(seq![h][0] == h);
                        assert(o.to_set().contains(h));
                    }
                    let l = choose|l: int| 0 <= l < o.len() && o[l] == id;
                    assert(m.dom().contains(o[l]));
                }
            }
            assert(all[0] == id);
            assert(childless(after, all, 0) == 0);
            assert(all.remove(0) =~= o);
            newest_first_same(m, after, o);
            assert(newest_first(after, all) == seq![id] + newest_first(m, o));
            assert((seq![id] + newest_first(m, o)).reverse() =~= newest_first(m, o).reverse().push(id));
        },
        None => {
            let all = seq![id] + empty;
            assert(childless(after, all, 0) == 0);
            assert(all.remove(0) =~= empty);
            assert(newest_first(after, empty) == empty);
            assert(newest_first(after, all) =~= all);
            assert(all.reverse() =~= empty.push(id));
        },
    }
}

/// Pruning loses nothing that can be reached, and pruning again prunes nothing:
/// what can be reached among the objects kept is what could be reached before.
pub proof fn gc_law(m: Map<Seq<char>, ObjectModel>, roots: Set<Seq<char>>)
    ensures
        reachable(m.restrict(reachable(m, roots)), roots) == reachable(m, roots),
        forall|id: Seq<char>|
            #[trigger] reachable(m, roots).contains(id) ==> read_commit_of(m.restrict(reachable(m, roots)), id)
                == read_commit_of(m, id) && read_set_of(m.restrict(reachable(m, roots)), id) == read_set_of(m, id),
{
    let r = reachable(m, roots);
    let n = m.restrict(r);
    reachable_closed(m, roots);
    reachable_closed(n, roots);
    let q = reachable(n, roots);
    assert forall|id: Seq<char>| r.contains(id) implies #[trigger] links(n, id) == links(m, id) by {}
    assert forall|id: Seq<char>| r.contains(id) implies q.contains(id) by {
        // Whatever is closed over the objects kept is closed over all of them, as
        // far as it lies among the reachable.
        let both = q.intersect(r);
        assert(closed_under_links(m, both)) by {
            assert forall|x: Seq<char>, i: int| both.contains(x) && 0 <= i < links(m, x).len() implies both.contains(
                #[trigger] links(m, x)[i],
            ) by {
                assert(links(n, x) == links(m, x));
                assert(links(n, x)[i] == links(m, x)[i]);
            }
        }
        assert(roots.subset_of(both));
        assert(both.contains(id));
    }
    assert(closed_under_links(n, r)) by {
        assert forall|x: Seq<char>, i: int| r.contains(x) && 0 <= i < links(n, x).len() implies r.contains(
            #[trigger] links(n, x)[i],
        ) by {
            assert(links(n, x) == links(m, x));
            assert(links(m, x)[i] == links(n, x)[i]);
        }
    }
    assert(q =~= r);
}

/// The bits of three sets that three tops lack.
pub open spec fn fresh_bits(tops: Seq<Set<u32>>, sets: Seq<Set<u32>>) -> nat {
    sets[0].difference(tops[0]).len() + sets[1].difference(tops[1]).len() + sets[2].difference(tops[2]).len()
}

/// A join of two states has in each channel the bits that either state has there.
pub proof fn joined_bits(a: Seq<Set<u32>>, b: Seq<Set<u32>>, g: int, x: u32)
    requires
        0 <= g < 3,
    ensures
        joins(a, b).len() == 3,
        joins(a, b)[g].contains(x) <==> a[g].contains(x) || b[g].contains(x),
{
}

/// A merge has in each channel the bits that either commit has there, and counts each
/// bit as often as both commits together. It is there if and only if both commits'
/// states and counts can be read.
pub proof fn merge_law(m: Map<Seq<char>, ObjectModel>, a: Seq<char>, b: Seq<char>)
    ensures
        merged_of(m, a, b) is Found <==> read_states_of(m, a) is Found && read_states_of(m, b) is Found && read_tf_of(m, a) is Found
            && read_tf_of(m, b) is Found,
        merged_of(m, a, b) matches Read::Found(out) ==> {
            let s = read_tf_of(m, a)->Found_0;
            let t = read_tf_of(m, b)->Found_0;
            &&& out.0.len() == 3
            &&& forall|g: int, x: u32|
                0 <= g < 3 ==> (#[trigger] out.0[g].contains(x) <==> read_states_of(m, a)->Found_0[g].contains(x)
                    || read_states_of(m, b)->Found_0[g].contains(x))
            &&& out.1.len() == s.len()
            &&& frequencies_fit(m, a, b) ==> forall|i: int| 0 <= i < s.len() ==> #[trigger] out.1[i] == s[i] + t[i]
        },
{
    if merged_of(m, a, b) is Found {
        let out = merged_of(m, a, b)->Found_0;
        let s = read_tf_of(m, a)->Found_0;
        let t = read_tf_of(m, b)->Found_0;
        assert forall|g: int, x: u32| 0 <= g < 3 implies (#[trigger] out.0[g].contains(x) <==> read_states_of(
            m,
            a,
        )->Found_0[g].contains(x) || read_states_of(m, b)->Found_0[g].contains(x)) by {
            joined_bits(read_states_of(m, a)->Found_0, read_states_of(m, b)->Found_0, g, x);
        }
        if frequencies_fit(m, a, b) {
            assert forall|i: int| 0 <= i < s.len() implies #[trigger] out.1[i] == s[i] + t[i] by {
                assert(s[i] + t[i] <= u64::MAX);
            }
        }
    }
}

/// What a commit is read as: each channel is the set in the blob that the commit names
/// at that channel's place.
pub proof fn channels_law(m: Map<Seq<char>, ObjectModel>, id: Seq<char>)
    ensures
        read_states_of(m, id) matches Read::Found(s) ==> {
            &&& s.len() == 3
            &&& read_state_of(m, id, Gx::G1) == Read::Found(s[0])
            &&& read_state_of(m, id, Gx::G2) == Read::Found(s[1])
            &&& read_state_of(m, id, Gx::G3) == Read::Found(s[2])
            &&& read_commit_of(m, id) matches Read::Found(c) && forall|g: int|
                0 <= g < 3 ==> read_set_of(m, #[trigger] c.trees[g]) == Read::Found(s[g])
        },
{
    if read_states_of(m, id) is Found {
        let c = read_commit_of(m, id)->Found_0;
        let s = read_states_of(m, id)->Found_0;
        assert(read_set_of(m, c.trees[0]) == Read::Found(s[0]));
        assert(read_set_of(m, c.trees[1]) == Read::Found(s[1]));
        assert(read_set_of(m, c.trees[2]) == Read::Found(s[2]));
    }
}

/// A new commit names the three sets in channel order, the counts, its parents and its
/// message; each channel is read back as it was given.
pub proof fn commit_channels(
    m: Map<Seq<char>, ObjectModel>,
    sets: Seq<Set<u32>>,
    tf: Seq<u64>,
    parents: Seq<Seq<char>>,
    message: Seq<char>,
)
    requires
        sets.len() == 3,
        forall|i: int| 0 <= i < 3 ==> hllset::on_plane(#[trigger] sets[i]),
        tf.len() == crate::hashing::PLANE,
        clash_free(commit_objects(sets, tf, parents, message)),
    ensures
        ({
            let after = with_commit(m, sets, tf, parents, message);
            let id = object::id_of(ObjectModel::Commit(commit_of(sets, tf, parents, message)));
            &&& read_state_of(after, id, Gx::G1) == Read::Found(sets[0])
            &&& read_state_of(after, id, Gx::G2) == Read::Found(sets[1])
            &&& read_state_of(after, id, Gx::G3) == Read::Found(sets[2])
            &&& parents_in(after, id) == parents
            &&& read_commit_of(after, id) matches Read::Found(c) && c.message == message
        }),
{
    let after = with_commit(m, sets, tf, parents, message);
    let id = object::id_of(ObjectModel::Commit(commit_of(sets, tf, parents, message)));
    commit_law(m, sets, tf, parents, message, id);
    channels_law(after, id);
}

/// What is kept with a commit: its three states, its counts and its parents are
/// reachable wherever it is, and so is everything a root names; what nothing names but
/// itself is not.
pub proof fn reachable_law(m: Map<Seq<char>, ObjectModel>, roots: Set<Seq<char>>, id: Seq<char>)
    ensures
        roots.contains(id) ==> reachable(m, roots).contains(id),
        reachable(m, roots).contains(id) ==> (read_commit_of(m, id) matches Read::Found(c) ==> {
            &&& forall|g: int| 0 <= g < c.trees.len() ==> reachable(m, roots).contains(#[trigger] c.trees[g])
            &&& reachable(m, roots).contains(c.tf)
            &&& forall|i: int| 0 <= i < c.parents.len() ==> reachable(m, roots).contains(#[trigger] c.parents[i])
        }),
        !roots.contains(id) && (forall|x: Seq<char>|
            x != id && #[trigger] m.dom().contains(x) ==> (m[x] matches ObjectModel::Commit(c) ==> !c.trees.contains(id) && c.tf != id
                && !c.parents.contains(id))) ==> !reachable(m, roots).contains(id),
{
    reachable_closed(m, roots);
    let r = reachable(m, roots);
    if r.contains(id) && read_commit_of(m, id) is Found {
        let c = read_commit_of(m, id)->Found_0;
        let l = links(m, id);
        let n = c.trees.len() as int;
        assert forall|g: int| 0 <= g < n implies r.contains(#[trigger] c.trees[g]) by {
            assert(l[g] == c.trees[g]);
        }
        assert(l[n] == c.tf);
        assert forall|i: int| 0 <= i < c.parents.len() implies r.contains(#[trigger] c.parents[i]) by {
            assert(l[n + 1 + i] == c.parents[i]);
        }
    }
    if !roots.contains(id) && (forall|x: Seq<char>|
        x != id && #[trigger] m.dom().contains(x) ==> (m[x] matches ObjectModel::Commit(c) ==> !c.trees.contains(id) && c.tf != id
            && !c.parents.contains(id))) {
        let others = Set::new(|x: Seq<char>| x != id);
        assert(closed_under_links(m, others)) by {
            assert forall|x: Seq<char>, i: int| others.contains(x) && 0 <= i < links(m, x).len() implies others.contains(
                #[trigger] links(m, x)[i],
            ) by {
                let c = read_commit_of(m, x)->Found_0;
                assert(m.dom().contains(x));
                let n = c.trees.len() as int;
                if i < n {
                    assert(c.trees.contains(c.trees[i]));
                } else if i > n {
                    assert(c.parents.contains(c.parents[i - n - 1]));
                }
            }
        }
        assert(roots.subset_of(others));
    }
}

/// The join of the states of a list of commits has a bit exactly where the state of
/// some commit of the list that can be read has it.
pub proof fn joined_states_law(m: Map<Seq<char>, ObjectModel>, list: Seq<Seq<char>>, g: int, x: u32)
    ensures
        joined_states(m, list, g).contains(x) <==> exists|i: int|
            0 <= i < list.len() && (read_states_of(m, #[trigger] list[i]) matches Read::Found(s) && s[g].contains(x)),
    decreases list.len(),
{
    if list.len() > 0 {
        let front = list.drop_last();
        joined_states_law(m, front, g, x);
        if joined_states(m, front, g).contains(x) {
            let i = choose|i: int|
                0 <= i < front.len() && (read_states_of(m, #[trigger] front[i]) matches Read::Found(s) && s[g].contains(x));
            assert(list[i] == front[i]);
        }
        if exists|i: int|
            0 <= i < list.len() && (read_states_of(m, #[trigger] list[i]) matches Read::Found(s) && s[g].contains(x)) {
            let i = choose|i: int|
                0 <= i < list.len() && (read_states_of(m, #[trigger] list[i]) matches Read::Found(s) && s[g].contains(x));
            if i < front.len() {
                assert(front[i] == list[i]);
            }
        }
        assert(list[list.len() - 1] == list.last());
    }
}

/// Fresh bits are counted channel by channel: each bit of a state that the top of its
/// channel lacks counts once.
pub proof fn fresh_bits_law(tops: Seq<Set<u32>>, sets: Seq<Set<u32>>)
    ensures
        fresh_bits(tops, sets) == sets[0].filter(|x: u32| !tops[0].contains(x)).len() + sets[1].filter(
            |x: u32| !tops[1].contains(x),
        ).len() + sets[2].filter(|x: u32| !tops[2].contains(x)).len(),
{
    assert(sets[0].difference(tops[0]) =~= sets[0].filter(|x: u32| !tops[0].contains(x)));
    assert(sets[1].difference(tops[1]) =~= sets[1].filter(|x: u32| !tops[1].contains(x)));
    assert(sets[2].difference(tops[2]) =~= sets[2].filter(|x: u32| !tops[2].contains(x)));
}

} // verus!
