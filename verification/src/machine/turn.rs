//! The state machine proper: one turn of token ids at a time.

use vstd::multiset::Multiset;
use vstd::prelude::*;

use crate::boolring::BoolWindow;
use crate::boolring::RingStats;
use crate::context_tree::ContextTree;
use crate::context_tree::Leaf;
use crate::context_tree::TreeDiff;
use crate::git::intake::IngestSink;
use crate::git::object::CommitModel;
use crate::git::object::Gx;
use crate::git::object::ObjectId;
use crate::git::object::ObjectModel;
use crate::git::repo::LatticeState;
use crate::git::repo::Read;
use crate::git::repo::Repository;
use crate::git::store::ObjectStore;
use crate::git::store::StoreError;
use crate::git::view::CommitView;
use crate::hllset::HLLSet;
use crate::machine::state::StateCache;
use crate::machine::state::TurnModel;
use crate::machine::state::TurnRecord;
use crate::machine::state::RING_CAPACITY;
use crate::machine::token::TokenEncoding;
use crate::machine::token::TokenId;
use crate::morphisms::api::Ingested;
use crate::morphisms::api::PAD;
use crate::text;
use crate::boolring;
use crate::git::intake;
use crate::git::object;
use crate::git::registry;
use crate::git::repo;
use crate::hllset;
use crate::machine::state;
use crate::machine::token;
use crate::morphisms::api;
use crate::git::view;

verus! {

/// The name of the encoding that the machine inscribes ids in.
pub const APP_ENCODING_NAME: &'static str = "tid";

/// What one turn did.
#[derive(Clone, Debug, PartialEq, Eq)]
pub struct TurnOutcome {
    /// The commit, where one was made.
    pub commit: Option<ObjectId>,
    pub head: Option<ObjectId>,
    /// The tree after the turn.
    pub tree: ContextTree,
    /// What the turn changed in the tree.
    pub diff: TreeDiff,
    /// The first channel at the head, against its parents.
    pub commit_view: Option<CommitView>,
    /// The turn's tokens, restored in order from their sketches.
    pub full_image: Vec<Vec<u8>>,
    /// The ids of those tokens.
    pub restored_ids: Vec<TokenId>,
    pub ring_stats: RingStats,
}

/// Why a turn failed.
#[derive(Clone, Debug, PartialEq, Eq)]
pub enum AppError {
    Store(StoreError),
    Other(String),
}

impl AppError {
    pub open spec fn words(&self) -> Seq<char> {
        match self {
            AppError::Store(e) => "store error: "@ + e.words(),
            AppError::Other(m) => m@,
        }
    }

    /// The error in words.
    pub fn message(&self) -> (s: String)
        requires
            self matches AppError::Store(StoreError::NotFound(id)) ==> object::cuts_at(id@, 8),
        ensures
            s@ == self.words(),
    {
        match self {
            AppError::Store(e) => {
                let m = e.message();
                text::concat2("store error: ", m.as_str())
            },
            AppError::Other(m) => text::copy_str(m.as_str()),
        }
    }
}

impl vstd::std_specs::convert::FromSpecImpl<StoreError> for AppError {
    open spec fn obeys_from_spec() -> bool {
        true
    }

    open spec fn from_spec(e: StoreError) -> AppError {
        AppError::Store(e)
    }
}

impl From<StoreError> for AppError {
    fn from(e: StoreError) -> (r: AppError) {
        AppError::Store(e)
    }
}

/// A sink that keeps nothing.
struct NoopSink {
    shown: Ghost<Seq<(Set<u32>, Seq<char>)>>,
}

impl IngestSink for NoopSink {
    closed spec fn shown(&self) -> Seq<(Set<u32>, Seq<char>)> {
        self.shown@
    }

    fn on_original(&mut self, hllset: &HLLSet, sha1: String) {
        self.shown = Ghost(self.shown@.push((hllset@, sha1@)));
    }
}

/// The three sketches of a turn.
pub open spec fn turn_sets(ids: Seq<u32>) -> Seq<Set<u32>> {
    intake::sketches(state::id_tokens(ids))
}

/// The bit counts after a turn.
pub open spec fn turn_counts(cache: StateCache, ids: Seq<u32>) -> Seq<u64> {
    registry::summed(cache.tf_base@, intake::bumped3(cache.ingestor.spec_bit_tf(), turn_sets(ids)))
}

/// The channels after a turn.
pub open spec fn turn_channels(cache: StateCache, ids: Seq<u32>) -> Seq<Set<u32>> {
    repo::joins(repo::set_views(cache.working@), turn_sets(ids))
}

/// Whether a turn changes the ring's basis: its sketch is no sum of the window's
/// members, or the oldest member leaves.
pub open spec fn shifts(ring: BoolWindow, ids: Seq<u32>) -> bool {
    !boolring::in_span(ring.window(), state::turn_sketch(ids)) || ring.window().len() == ring.capacity()
}

/// The message of a turn's commit.
pub open spec fn turn_message(ids: Seq<u32>, fresh: nat) -> Seq<char> {
    if fresh == 0 {
        state::structural_text(ids)
    } else {
        state::ids_text(ids)
    }
}

/// The ids among a list of tokens.
pub open spec fn ids_of_tokens(tokens: Seq<Seq<u8>>) -> Seq<u32>
    decreases tokens.len(),
{
    if tokens.len() == 0 {
        Seq::empty()
    } else {
        let earlier = ids_of_tokens(tokens.drop_last());
        match token::tid_of(tokens.last()) {
            Some(id) => earlier.push(id),
            None => earlier,
        }
    }
}

/// Whether a list of tokens is what the sketches of a turn are restored to.
pub open spec fn restores(image: Seq<Seq<u8>>, tokens: Seq<Seq<u8>>) -> bool {
    exists|g: Ingested| #[trigger] api::ingest_of(g, tokens, PAD@) && image == api::ordered(g, 1)
}

/// Room for one more turn in every counter.
pub open spec fn room_for_turn(cache: StateCache, n: nat) -> bool {
    &&& cache.turn < u64::MAX
    &&& cache.ring.changes() + 2 <= u64::MAX
    &&& cache.ingestor.spec_tokens() + n <= u64::MAX
    &&& n + 3 <= usize::MAX
    &&& forall|i: int|
        0 <= i < cache.tf_base@.len() ==> #[trigger] cache.tf_base@[i] + cache.ingestor.spec_bit_tf()[i] + 3 <= u64::MAX
}

/// What a turn does to the parts of the cache that it touches first.
pub open spec fn taken_in(before: StateCache, after: StateCache, ids: Seq<u32>, stats: RingStats) -> bool {
    &&& after.wf()
    &&& after.tf_base == before.tf_base
    &&& repo::set_views(after.working@) == turn_channels(before, ids)
    &&& after.ingestor.spec_seeds() == before.ingestor.spec_seeds()
    &&& after.ingestor.spec_tokens() == before.ingestor.spec_tokens() + ids.len()
    &&& after.ingestor.spec_seen() == before.ingestor.spec_seen().union(state::id_tokens(ids).to_set())
    &&& after.ingestor.spec_bit_tf() == intake::bumped3(before.ingestor.spec_bit_tf(), turn_sets(ids))
    &&& boolring::pushed(before.ring, after.ring, state::turn_sketch(ids), stats)
}

/// What a turn records once it is committed, or needs no commit.
pub open spec fn recorded(before: StateCache, after: StateCache, ids: Seq<u32>, commit: Option<Seq<char>>) -> bool {
    &&& state::turn_views(after.turns@) == state::turn_views(before.turns@).push(
        TurnModel { ids, g1: state::turn_sketch(ids), commit },
    )
    &&& after.tree@ == before.tree@.insert(hllset::key_of(state::turn_sketch(ids)), Multiset::empty())
    &&& after.turn == before.turn + 1
    &&& before.in_step() ==> after.in_step()
}

/// The machine: a repository, and nothing else of its own.
pub struct StateMachine<S: ObjectStore> {
    repo: Repository<S>,
}

impl<S: ObjectStore> StateMachine<S> {
    pub closed spec fn spec_repo(&self) -> Repository<S> {
        self.repo
    }

    pub open spec fn wf(&self) -> bool {
        self.spec_repo().wf()
    }

    /// A machine over a new repository.
    pub fn new(store: S) -> (m: StateMachine<S>)
        requires
            store.wf(),
        ensures
            m.wf(),
            m.spec_repo().spec_store() == store,
            m.spec_repo().spec_head() is None,
            m.spec_repo().counts() == Map::<Seq<u8>, u64>::empty(),
            m.spec_repo().tops() == state::no_sets(),
    {
        StateMachine { repo: Repository::new(store) }
    }

    /// A machine over what a store holds.
    pub fn open(store: S) -> (m: StateMachine<S>)
        requires
            store.wf(),
        ensures
            m.wf(),
            m.spec_repo().spec_store() == store,
            store.reliable() ==> m.spec_repo().spec_head() == store.kept_head(),
            m.spec_repo().counts() == Map::<Seq<u8>, u64>::empty(),
            m.spec_repo().tops().len() == 3,
            forall|g: int|
                0 <= g < 3 ==> #[trigger] m.spec_repo().tops()[g] == (match repo::log_of(store.contents(), m.spec_repo().spec_head()) {
                    Read::Found(list) => repo::joined_states(store.contents(), list, g),
                    _ => Set::empty(),
                }),
    {
        StateMachine { repo: Repository::open(store) }
    }

    pub fn repo(&self) -> (r: &Repository<S>)
        ensures
            *r == self.spec_repo(),
    {
        &self.repo
    }

    pub fn repo_mut(&mut self) -> (r: &mut Repository<S>)
        ensures
            *r == old(self).spec_repo(),
            final(self).spec_repo() == *final(r),
    {
        &mut self.repo
    }

    pub fn head(&self) -> (id: Option<&ObjectId>)
        ensures
            id is Some <==> self.spec_repo().spec_head() is Some,
            id is Some ==> self.spec_repo().spec_head() == Some(id->0@),
    {
        self.repo.head()
    }
}

/// What a commit does to a repository.
pub open spec fn committed<S: ObjectStore>(
    before: Repository<S>,
    after: Repository<S>,
    commit: CommitModel,
    sets: Seq<Set<u32>>,
    counts: Seq<u64>,
) -> bool {
    &&& commit == repo::commit_of(sets, counts, commit.parents, commit.message)
    &&& after.spec_head() == Some(object::id_of(ObjectModel::Commit(commit)))
    &&& after.contents() == repo::with_commit(before.contents(), sets, counts, commit.parents, commit.message)
    &&& after.counts() == registry::counted_all(before.counts(), repo::digests(sets))
    &&& after.tops().len() == 3
    &&& forall|g: int| 0 <= g < 3 ==> #[trigger] after.tops()[g] == before.tops()[g].union(sets[g])
    &&& after.spec_branches() == before.spec_branches()
}

/// The commit of a turn.
pub open spec fn turn_commit(cache: StateCache, ids: Seq<u32>, fresh: nat) -> CommitModel {
    repo::commit_of(
        turn_channels(cache, ids),
        turn_counts(cache, ids),
        repo::head_list(repo::optional_id(cache.tip)),
        turn_message(ids, fresh),
    )
}

/// The fresh bits of a turn against the tops of a repository.
pub open spec fn turn_fresh<S: ObjectStore>(repo: Repository<S>, cache: StateCache, ids: Seq<u32>) -> nat {
    repo::fresh_bits(repo.tops(), turn_channels(cache, ids))
}

/// Whether a turn is committed: it brings fresh bits, or changes the basis.
pub open spec fn turn_counts_as_change<S: ObjectStore>(repo: Repository<S>, cache: StateCache, ids: Seq<u32>) -> bool {
    turn_fresh(repo, cache, ids) != 0 || shifts(cache.ring, ids)
}

/// What a turn does to the repository, where the store does not fail.
pub open spec fn stored<S: ObjectStore>(
    before: Repository<S>,
    after: Repository<S>,
    cache: StateCache,
    ids: Seq<u32>,
) -> bool {
    if turn_counts_as_change(before, cache, ids) {
        committed(
            before,
            after,
            turn_commit(cache, ids, turn_fresh(before, cache, ids)),
            turn_channels(cache, ids),
            turn_counts(cache, ids),
        )
    } else {
        after == before
    }
}

/// The id of a turn's commit, where there is one.
pub open spec fn turn_id<S: ObjectStore>(repo: Repository<S>, cache: StateCache, ids: Seq<u32>) -> Option<Seq<char>> {
    if turn_counts_as_change(repo, cache, ids) {
        Some(object::id_of(ObjectModel::Commit(turn_commit(cache, ids, turn_fresh(repo, cache, ids)))))
    } else {
        None
    }
}

/// What a turn says of what it did.
pub open spec fn told<S: ObjectStore>(
    out: TurnOutcome,
    repo: Repository<S>,
    before: StateCache,
    after: StateCache,
    ids: Seq<u32>,
) -> bool {
    &&& repo::optional_id(out.head) == repo.spec_head()
    &&& out.tree.wf()
    &&& out.tree@ == after.tree@
    &&& out.tree.spec_root() == after.tree.spec_root()
    &&& out.diff.compares(&before.tree, &after.tree)
    &&& out.commit_view is Some <==> repo.spec_head() is Some
    &&& out.commit_view is Some ==> out.commit_view->0.shows(repo.contents(), repo.spec_head()->0, Gx::G1)
    &&& restores(hllset::token_views(out.full_image@), state::id_tokens(ids))
    &&& out.restored_ids@ == ids_of_tokens(hllset::token_views(out.full_image@))
}

/// The window after one more turn.
proof fn recent_slides(turns: Seq<TurnModel>, turn: TurnModel)
    ensures
        boolring::slid(state::recent(turns), turn.g1, RING_CAPACITY as nat) == state::recent(turns.push(turn)),
{
    assert(boolring::slid(state::recent(turns), turn.g1, RING_CAPACITY as nat) =~= state::recent(turns.push(turn)));
}

/// The tree after one more turn.
proof fn tree_grows(turns: Seq<TurnModel>, turn: TurnModel)
    ensures
        state::turn_tree(turns).insert(hllset::key_of(turn.g1), Multiset::empty()) == state::turn_tree(turns.push(turn)),
{
    let a = state::turn_tree(turns).insert(hllset::key_of(turn.g1), Multiset::empty());
    let longer = turns.push(turn);
    let b = state::turn_tree(longer);
    assert forall|h: Seq<char>| a.dom().contains(h) == #[trigger] b.dom().contains(h) by {
        if state::turn_tree(turns).dom().contains(h) {
            let i = choose|i: int| 0 <= i < turns.len() && hllset::key_of((#[trigger] turns[i]).g1) == h;
            assert(hllset::key_of(longer[i].g1) == h);
        }
        if h == hllset::key_of(turn.g1) {
            assert(hllset::key_of(longer[turns.len() as int].g1) == h);
        }
        if b.dom().contains(h) {
            let i = choose|i: int| 0 <= i < longer.len() && hllset::key_of((#[trigger] longer[i]).g1) == h;
            if i < turns.len() {
                assert(hllset::key_of(turns[i].g1) == h);
            }
        }
    }
    assert(a =~= b);
}

/// The ids among restored tokens.
pub fn ids_of_image(image: &Vec<Vec<u8>>) -> (ids: Vec<TokenId>)
    ensures
        ids@ == ids_of_tokens(hllset::token_views(image@)),
{
    let ghost all = hllset::token_views(image@);
    let mut ids: Vec<TokenId> = Vec::new();
    let mut i: usize = 0;
    while i < image.len()
        invariant
            i <= image@.len(),
            all == hllset::token_views(image@),
            ids@ == ids_of_tokens(all.take(i as int)),
        decreases image.len() - i,
    {
        proof {
            assert(all.take(i as int + 1).drop_last() =~= all.take(i as int));
            assert(all.take(i as int + 1).last() == image@[i as int]@);
        }
        match token::parse_token_id(image[i].as_slice()) {
            Some(id) => {
                ids.push(id);
            },
            None => {},
        }
        i = i + 1;
    }
    proof {
        assert(all.take(i as int) =~= all);
    }
    ids
}

/// Takes a turn into the counts, the channels and the ring.
fn take_in(cache: &mut StateCache, ids: &[TokenId], tokens: &Vec<Vec<u8>>) -> (stats: RingStats)
    requires
        old(cache).wf(),
        room_for_turn(*old(cache), ids@.len()),
        hllset::token_views(tokens@) == state::id_tokens(ids@),
        tokens@.len() == ids@.len(),
    ensures
        taken_in(*old(cache), *final(cache), ids@, stats),
        final(cache).turns == old(cache).turns,
        final(cache).tree == old(cache).tree,
        final(cache).turn == old(cache).turn,
        final(cache).tip == old(cache).tip,
{
    let mut sink = NoopSink { shown: Ghost(Seq::empty()) };
    let ghost channels = turn_channels(*cache, ids@);
    proof {
        assert forall|i: int|
            0 <= i < cache.ingestor.spec_bit_tf().len() implies #[trigger] cache.ingestor.spec_bit_tf()[i] <= u64::MAX - 3 by {
            assert(cache.tf_base@[i] + cache.ingestor.spec_bit_tf()[i] + 3 <= u64::MAX);
        }
    }
    let pass = cache.ingestor.ingest_stream(tokens, &mut sink);
    let g1 = cache.working[0].union(&pass.channels[0]);
    let g2 = cache.working[1].union(&pass.channels[1]);
    let g3 = cache.working[2].union(&pass.channels[2]);
    cache.working = [g1, g2, g3];
    proof {
        assert(repo::set_views(cache.working@) =~= channels);
    }
    cache.ring.push(&pass.channels[0])
}

impl<S: ObjectStore> StateMachine<S> {
    /// Takes one turn: ingests its ids, joins them to the channels, and commits
    /// where that brought fresh bits or changed the basis.
    pub fn run_turn(&mut self, cache: &mut StateCache, ids: &[TokenId]) -> (r: Result<TurnOutcome, AppError>)
        requires
            old(self).wf(),
            old(cache).wf(),
            room_for_turn(*old(cache), ids@.len()),
            turn_counts_as_change(old(self).spec_repo(), *old(cache), ids@) ==> registry::room_for(
                old(self).spec_repo().counts(),
                repo::digests(turn_channels(*old(cache), ids@)),
            ),
        ensures
            final(self).wf(),
            final(self).spec_repo().reliable() == old(self).spec_repo().reliable(),
            old(self).spec_repo().reliable() ==> (r is Ok <==> final(self).spec_repo().spec_head() is None || view::view_of(
                final(self).spec_repo().contents(),
                final(self).spec_repo().spec_head()->0,
                Gx::G1,
            ) is Found),
            old(self).spec_repo().reliable() ==> stored(
                old(self).spec_repo(),
                final(self).spec_repo(),
                *old(cache),
                ids@,
            ),
            match r {
                Ok(out) => {
                    &&& taken_in(*old(cache), *final(cache), ids@, out.ring_stats)
                    &&& repo::optional_id(out.commit) == turn_id(old(self).spec_repo(), *old(cache), ids@)
                    &&& recorded(*old(cache), *final(cache), ids@, repo::optional_id(out.commit))
                    &&& stored(old(self).spec_repo(), final(self).spec_repo(), *old(cache), ids@)
                    &&& repo::optional_id(final(cache).tip) == final(self).spec_repo().spec_head()
                    &&& told(out, final(self).spec_repo(), *old(cache), *final(cache), ids@)
                },
                Err(AppError::Store(e)) => {
                    &&& exists|stats: RingStats| #[trigger] taken_in(*old(cache), *final(cache), ids@, stats)
                    &&& {
                        ||| !old(self).spec_repo().reliable() && turn_counts_as_change(
                            old(self).spec_repo(),
                            *old(cache),
                            ids@,
                        ) && final(cache).turns == old(cache).turns && final(cache).tree == old(cache).tree
                            && final(cache).turn == old(cache).turn && final(cache).tip == old(cache).tip
                        ||| stored(old(self).spec_repo(), final(self).spec_repo(), *old(cache), ids@) && recorded(
                            *old(cache),
                            *final(cache),
                            ids@,
                            turn_id(old(self).spec_repo(), *old(cache), ids@),
                        ) && repo::optional_id(final(cache).tip) == final(self).spec_repo().spec_head() && view::view_failed(
                            e,
                            view::view_of(
                                final(self).spec_repo().contents(),
                                final(self).spec_repo().spec_head()->0,
                                Gx::G1,
                            ),
                        )
                    }
                },
                Err(AppError::Other(_)) => false,
            },
    {
        let ghost before = self.spec_repo();
        let ghost cache0 = *cache;
        let ghost channels = turn_channels(cache0, ids@);
        let ghost counts = turn_counts(cache0, ids@);
        let bytes = state::tokens_of(ids);
        let tokens = &bytes;
        let changes_before = cache.ring.generation();
        let ring_stats = take_in(cache, ids, tokens);
        let basis_changed = cache.ring.generation() != changes_before;
        let ghost cache1 = *cache;
        proof {
            assert(taken_in(cache0, cache1, ids@, ring_stats));
            assert(basis_changed == shifts(cache0.ring, ids@));
            bumped3_bound(cache0, ids@);
        }
        let state = LatticeState {
            g1: cache.working[0],
            g2: cache.working[1],
            g3: cache.working[2],
            tf: cache.current_tf(),
        };
        proof {
            assert(state.sets() =~= channels);
        }
        let mut parents: Vec<ObjectId> = Vec::new();
        match &cache.tip {
            Some(id) => {
                parents.push(id.copy());
            },
            None => {},
        }
        proof {
            assert(object::id_texts(parents@) =~= repo::head_list(repo::optional_id(cache0.tip)));
        }
        let new_bits = self.repo.new_bits(&state);
        let mut commit: Option<ObjectId> = None;
        if new_bits != 0 || basis_changed {
            let message = if new_bits == 0 {
                state::ids_message_structural(ids)
            } else {
                state::ids_message(ids)
            };
            match self.repo.commit(&state, parents.as_slice(), message.as_str()) {
                Ok(id) => {
                    commit = Some(id);
                },
                Err(e) => {
                    return Err(AppError::from(e));
                },
            }
        }
        let ghost after = self.spec_repo();
        proof {
            assert(stored(before, after, cache0, ids@));
        }
        let g1 = HLLSet::from_tokens(tokens);
        let record = TurnRecord {
            ids: vstd::slice::slice_to_vec(ids),
            g1,
            commit: match &commit {
                Some(id) => Some(id.copy()),
                None => None,
            },
        };
        let leaf = Leaf { h: g1.content_key(), views: Vec::new() };
        proof {
            state::bare_leaf(leaf);
        }
        let tree = cache.tree.insert(leaf);
        let diff = cache.tree.diff(&tree);
        let ghost turns0 = state::turn_views(cache.turns@);
        let ghost model = record@;
        cache.turns.push(record);
        cache.tree = tree;
        cache.turn = cache.turn + 1;
        let head = match self.repo.head() {
            Some(id) => Some(id.copy()),
            None => None,
        };
        cache.tip = match self.repo.head() {
            Some(id) => Some(id.copy()),
            None => None,
        };
        proof {
            assert(state::turn_views(cache.turns@) =~= turns0.push(model));
            recent_slides(turns0, model);
            tree_grows(turns0, model);
            assert(recorded(cache0, *cache, ids@, repo::optional_id(commit)));
            assert(taken_in(cache0, *cache, ids@, ring_stats));
        }
        let commit_view = match self.repo.head() {
            Some(id) => {
                match view::view(&self.repo, id) {
                    Ok(v) => Some(v),
                    Err(e) => {
                        return Err(AppError::from(e));
                    },
                }
            },
            None => None,
        };
        let ingested = api::ingest(tokens);
        let full_image = api::materialize(&ingested);
        let restored_ids = ids_of_image(&full_image);
        proof {
            assert(api::ingest_of(ingested, state::id_tokens(ids@), PAD@));
        }
        Ok(
            TurnOutcome {
                commit,
                head,
                tree: cache.tree.copy(),
                diff,
                commit_view,
                full_image,
                restored_ids,
                ring_stats,
            },
        )
    }
}

/// Room for the counts of one more turn.
proof fn bumped3_bound(cache: StateCache, ids: Seq<u32>)
    requires
        cache.wf(),
        room_for_turn(cache, ids.len()),
    ensures
        registry::sums_fit(cache.tf_base@, intake::bumped3(cache.ingestor.spec_bit_tf(), turn_sets(ids))),
{
    let a = cache.tf_base@;
    let b = cache.ingestor.spec_bit_tf();
    let sets = turn_sets(ids);
    let b1 = registry::bumped(b, sets[0]);
    let b2 = registry::bumped(b1, sets[1]);
    let b3 = registry::bumped(b2, sets[2]);
    assert forall|i: int| 0 <= i < a.len() implies #[trigger] a[i] + b3[i] <= u64::MAX by {
        assert(a[i] + b[i] + 3 <= u64::MAX);
        assert(b1[i] <= b[i] + 1);
        assert(b2[i] <= b1[i] + 1);
        assert(b3[i] <= b2[i] + 1);
    }
}

/// The tokens of ids are read back as the ids: an image that restores a turn's
/// tokens in order restores its ids.
pub proof fn restored_ids_law(ids: Seq<u32>)
    ensures
        ids_of_tokens(state::id_tokens(ids)) == ids,
    decreases ids.len(),
{
    let tokens = state::id_tokens(ids);
    if ids.len() > 0 {
        assert(tokens.drop_last() =~= state::id_tokens(ids.drop_last()));
        restored_ids_law(ids.drop_last());
        token::encoding_round_trip(TokenEncoding::Tid, ids.last());
        assert(ids.drop_last().push(ids.last()) =~= ids);
    } else {
        assert(ids =~= Seq::empty());
    }
}

/// The channels only grow.
pub proof fn channels_grow(cache: StateCache, ids: Seq<u32>, g: int)
    requires
        0 <= g < 3,
    ensures
        repo::set_views(cache.working@)[g].subset_of(turn_channels(cache, ids)[g]),
        turn_sets(ids)[g].subset_of(turn_channels(cache, ids)[g]),
{
}

/// The same turn again, while the window still has room, brings no fresh bits and
/// changes no basis: it is not committed.
pub proof fn repeated_turn<S: ObjectStore>(
    before: Repository<S>,
    after: Repository<S>,
    cache: StateCache,
    next: StateCache,
    ids: Seq<u32>,
    stats: RingStats,
)
    requires
        cache.wf(),
        before.tops().len() == 3,
        stored(before, after, cache, ids),
        taken_in(cache, next, ids, stats),
        cache.ring.window().len() + 1 < RING_CAPACITY,
    ensures
        !turn_counts_as_change(after, next, ids),
{
    same_channels(cache, next, ids, stats);
    known_sketch(cache.ring, next.ring, ids, stats);
    if turn_counts_as_change(before, cache, ids) {
        let channels = turn_channels(cache, ids);
        assert(channels[0].difference(after.tops()[0]) =~= Set::empty());
        assert(channels[1].difference(after.tops()[1]) =~= Set::empty());
        assert(channels[2].difference(after.tops()[2]) =~= Set::empty());
    }
}

/// Joining a turn once more leaves the channels as they are.
proof fn same_channels(cache: StateCache, next: StateCache, ids: Seq<u32>, stats: RingStats)
    requires
        taken_in(cache, next, ids, stats),
    ensures
        turn_channels(next, ids) == turn_channels(cache, ids),
{
    let a = repo::set_views(cache.working@);
    let b = turn_sets(ids);
    assert(a[0].union(b[0]).union(b[0]) =~= a[0].union(b[0]));
    assert(a[1].union(b[1]).union(b[1]) =~= a[1].union(b[1]));
    assert(a[2].union(b[2]).union(b[2]) =~= a[2].union(b[2]));
}

/// A sketch that the window took in lies in its span.
proof fn known_sketch(ring: BoolWindow, next: BoolWindow, ids: Seq<u32>, stats: RingStats)
    requires
        boolring::pushed(ring, next, state::turn_sketch(ids), stats),
        ring.window().len() + 1 < ring.capacity(),
    ensures
        !shifts(next, ids),
{
    let window = next.window();
    let last = window.len() - 1;
    assert(window[last] == state::turn_sketch(ids));
    boolring::row_in_span(window, last);
}

/// A log's turns are the same where its commits are.
proof fn turns_kept(m: Map<Seq<char>, ObjectModel>, after: Map<Seq<char>, ObjectModel>, log: Seq<Seq<char>>)
    requires
        m.submap_of(after),
        forall|i: int| 0 <= i < log.len() ==> m.dom().contains(#[trigger] log[i]),
    ensures
        state::turns_in(after, log) == state::turns_in(m, log),
    decreases log.len(),
{
    if log.len() > 0 {
        assert(m.dom().contains(log[log.len() - 1]));
        turns_kept(m, after, log.drop_last());
    }
}

/// What a committed turn leaves behind tells of the turn: the turns that the log
/// gives back are those of before and this one. It holds where no object took the
/// place of another, and the commit is a new one.
pub proof fn recovery_law<S: ObjectStore>(before: Repository<S>, after: Repository<S>, cache: StateCache, ids: Seq<u32>)
    requires
        before.contents().dom().finite(),
        after.contents().dom().finite(),
        turn_counts_as_change(before, cache, ids),
        stored(before, after, cache, ids),
        ids.len() > 0,
        repo::optional_id(cache.tip) == before.spec_head(),
        repo::log_of(before.contents(), before.spec_head()) is Found,
        before.contents().submap_of(after.contents()),
        !before.contents().dom().contains(turn_id(before, cache, ids)->0),
    ensures
        state::turns_at(after.contents(), after.spec_head()) == state::turns_at(before.contents(), before.spec_head()).push(
            TurnModel { ids, g1: state::turn_sketch(ids), commit: turn_id(before, cache, ids) },
        ),
{
    let m = before.contents();
    let n = after.contents();
    let id = turn_id(before, cache, ids)->0;
    let log = repo::log_of(m, before.spec_head())->Found_0;
    let c = turn_commit(cache, ids, turn_fresh(before, cache, ids));
    assert(repo::read_commit_of(n, id) == Read::Found(c));
    repo::log_grows(m, n, before.spec_head(), id);
    assert forall|i: int| 0 <= i < log.len() implies m.dom().contains(#[trigger] log[i]) by {
        repo::log_law(m, before.spec_head()->0);
    }
    turns_kept(m, n, log);
    assert(log.push(id).drop_last() =~= log);
    state::message_round_trip(ids);
}

/// What a turn adds: in channel `g` the bit under seed `g` of the token of each of its
/// ids, and no other bit, to what the cache already has there.
pub proof fn turn_bits(cache: StateCache, ids: Seq<u32>, g: int, x: u32)
    requires
        0 <= g < 3,
    ensures
        turn_channels(cache, ids).len() == 3,
        turn_channels(cache, ids)[g].contains(x) <==> cache.working@[g]@.contains(x) || exists|i: int|
            0 <= i < ids.len() && x == crate::hashing::token_bit(
                text::utf8("tid"@ + text::decimal(#[trigger] ids[i] as nat)),
                g as u64,
            ),
{
    let t = state::id_tokens(ids);
    let bits = hllset::token_bits(t, g as u64);
    assert(turn_sets(ids)[g] == bits);
    if bits.contains(x) {
        let i = choose|i: int| 0 <= i < t.len() && crate::hashing::token_bit(#[trigger] t[i], g as u64) == x;
        assert(t[i] == token::tid_bytes(ids[i]));
    }
    if exists|i: int|
        0 <= i < ids.len() && x == crate::hashing::token_bit(
            text::utf8("tid"@ + text::decimal(#[trigger] ids[i] as nat)),
            g as u64,
        ) {
        let i = choose|i: int|
            0 <= i < ids.len() && x == crate::hashing::token_bit(
                text::utf8("tid"@ + text::decimal(#[trigger] ids[i] as nat)),
                g as u64,
            );
        assert(t[i] == token::tid_bytes(ids[i]));
        assert(crate::hashing::token_bit(t[i], g as u64) == x);
    }
}

/// How a turn counts a bit: what was counted at the tip, what the cache counted since,
/// and one for each of the three channels in which the turn has the bit.
pub proof fn turn_count_law(cache: StateCache, ids: Seq<u32>, i: int)
    requires
        cache.wf(),
        0 <= i < crate::hashing::PLANE,
        cache.tf_base@[i] + cache.ingestor.spec_bit_tf()[i] + 3 <= u64::MAX,
    ensures
        turn_counts(cache, ids)[i] == cache.tf_base@[i] + cache.ingestor.spec_bit_tf()[i] + (if turn_sets(ids)[0].contains(
            i as u32,
        ) {
            1int
        } else {
            0
        }) + (if turn_sets(ids)[1].contains(i as u32) {
            1int
        } else {
            0
        }) + (if turn_sets(ids)[2].contains(i as u32) {
            1int
        } else {
            0
        }),
{
}

/// When a turn is committed: it brings a bit that some top lacks, or its sketch is no
/// sum of sketches in the ring, or the ring is full. Its message names its ids, and
/// says so where it brought no fresh bit; its only parent is the tip.
pub proof fn turn_commit_law<S: ObjectStore>(repo: Repository<S>, cache: StateCache, ids: Seq<u32>)
    requires
        cache.wf(),
        repo.tops().len() == 3,
        forall|g: int| 0 <= g < 3 ==> hllset::on_plane(#[trigger] turn_channels(cache, ids)[g]),
    ensures
        turn_counts_as_change(repo, cache, ids) <==> (exists|g: int, x: u32|
            0 <= g < 3 && #[trigger] turn_channels(cache, ids)[g].contains(x) && !repo.tops()[g].contains(x))
            || !boolring::in_span(cache.ring.window(), state::turn_sketch(ids)) || cache.ring.window().len() == RING_CAPACITY,
        ({
            let fresh = turn_fresh(repo, cache, ids);
            let c = turn_commit(cache, ids, fresh);
            &&& ids.len() > 0 ==> state::ids_in(c.message) == Some(ids)
            &&& fresh > 0 ==> c.message == state::ids_text(ids)
            &&& fresh == 0 ==> c.message == state::ids_text(ids) + ";basis-change"@
            &&& cache.tip is None ==> c.parents.len() == 0
            &&& cache.tip matches Some(t) ==> c.parents == seq![t@]
        }),
{
    let channels = turn_channels(cache, ids);
    let tops = repo.tops();
    repo::tops_law(tops, channels);
    state::message_round_trip(ids);
    if turn_fresh(repo, cache, ids) == 0 {
        assert forall|g: int, x: u32| 0 <= g < 3 && #[trigger] channels[g].contains(x) implies tops[g].contains(x) by {
            assert(channels[g].subset_of(tops[g]));
        }
    } else if forall|g: int, x: u32| 0 <= g < 3 && #[trigger] channels[g].contains(x) ==> tops[g].contains(x) {
        assert forall|g: int| 0 <= g < 3 implies (#[trigger] channels[g]).subset_of(tops[g]) by {
            assert forall|x: u32| channels[g].contains(x) implies tops[g].contains(x) by {}
        }
    }
}

/// A turn that is recorded stands behind the earlier ones, which stay as they are; the
/// tree gains its key and no other.
pub proof fn recorded_law(before: StateCache, after: StateCache, ids: Seq<u32>, commit: Option<Seq<char>>, h: Seq<char>)
    requires
        recorded(before, after, ids, commit),
    ensures
        after.turns@.len() == before.turns@.len() + 1,
        state::turn_views(after.turns@).last().ids == ids,
        state::turn_views(after.turns@).last().commit == commit,
        state::turn_views(after.turns@).last().g1 == state::turn_sketch(ids),
        forall|i: int|
            0 <= i < before.turns@.len() ==> #[trigger] state::turn_views(after.turns@)[i] == state::turn_views(before.turns@)[i],
        after.tree@.dom().contains(h) <==> before.tree@.dom().contains(h) || h == hllset::key_of(state::turn_sketch(ids)),
{
    assert(state::turn_views(after.turns@).len() == after.turns@.len());
}

} // verus!
