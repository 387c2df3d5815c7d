//! The cache of the state machine: what it holds between two turns, and how it
//! comes back from a repository.

use vstd::multiset::Multiset;
use vstd::prelude::*;

use crate::boolring::BoolWindow;
use crate::context_tree::ContextTree;
use crate::context_tree::Leaf;
use crate::git::intake::Ingestor;
use crate::git::object::ObjectId;
use crate::git::object::ObjectModel;
use crate::git::registry::BitTf;
use crate::git::repo::Read;
use crate::git::repo::Repository;
use crate::git::store::ObjectStore;
use crate::hashing::PLANE;
use crate::hllset::HLLSet;
use crate::machine::token::TokenId;
use crate::tf::TFVec;
use crate::text;
use crate::git::repo;
use crate::context_tree;
use crate::git::object;
use crate::git::registry;
use crate::hllset;
use crate::machine::token;

verus! {

/// The number of turns that the ring looks back on.
pub const RING_CAPACITY: usize = 64;

/// One turn: its ids, their sketch, and the commit, where one was made.
#[derive(Clone, Debug, PartialEq, Eq)]
pub struct TurnRecord {
    pub ids: Vec<TokenId>,
    pub g1: HLLSet,
    pub commit: Option<ObjectId>,
}

/// What a turn's record says.
#[verifier::ext_equal]
pub struct TurnModel {
    pub ids: Seq<u32>,
    pub g1: Set<u32>,
    pub commit: Option<Seq<char>>,
}

impl View for TurnRecord {
    type V = TurnModel;

    open spec fn view(&self) -> TurnModel {
        TurnModel { ids: self.ids@, g1: self.g1@, commit: repo::optional_id(self.commit) }
    }
}

/// The views of a list of turns.
pub open spec fn turn_views(turns: Seq<TurnRecord>) -> Seq<TurnModel> {
    turns.map_values(|t: TurnRecord| t@)
}

/// The numbers of a list of ids.
pub open spec fn id_numbers(ids: Seq<u32>) -> Seq<Seq<char>> {
    ids.map_values(|n: u32| text::decimal(n as nat))
}

/// The commit message of a turn: its ids.
pub open spec fn ids_text(ids: Seq<u32>) -> Seq<char> {
    "ids="@ + text::joined(id_numbers(ids), ","@)
}

/// The commit message of a turn that changed the basis alone.
pub open spec fn structural_text(ids: Seq<u32>) -> Seq<char> {
    ids_text(ids) + ";basis-change"@
}

/// The ids in a list of parts; empty parts are passed over.
pub open spec fn ids_among(parts: Seq<Seq<char>>) -> Option<Seq<u32>>
    decreases parts.len(),
{
    if parts.len() == 0 {
        Some(Seq::empty())
    } else {
        let part = text::trimmed(parts.last());
        match ids_among(parts.drop_last()) {
            None => None,
            Some(ids) => if part.len() == 0 {
                Some(ids)
            } else {
                match text::parsed(part, u32::MAX as nat) {
                    Some(n) => Some(ids.push(n as u32)),
                    None => None,
                }
            },
        }
    }
}

/// The ids that a commit message names, where it names any.
pub open spec fn ids_in(message: Seq<char>) -> Option<Seq<u32>> {
    if "ids="@.is_prefix_of(message) {
        match ids_among(text::pieces(text::pieces(message.skip(4), ';')[0], ',')) {
            Some(ids) => if ids.len() > 0 {
                Some(ids)
            } else {
                None
            },
            None => None,
        }
    } else {
        None
    }
}

/// The commit message of a turn.
pub fn ids_message(ids: &[TokenId]) -> (message: String)
    ensures
        message@ == ids_text(ids@),
{
    let mut numbers: Vec<String> = Vec::new();
    let mut i: usize = 0;
    while i < ids.len()
        invariant
            i <= ids@.len(),
            text::texts(numbers@) == id_numbers(ids@.take(i as int)),
        decreases ids.len() - i,
    {
        let number = text::decimal_string(ids[i] as u64);
        proof {
            text::texts_push(numbers@, number);
            assert(ids@.take(i as int + 1) =~= ids@.take(i as int).push(ids@[i as int]));
            assert(id_numbers(ids@.take(i as int + 1)) =~= id_numbers(ids@.take(i as int)).push(number@));
        }
        numbers.push(number);
        i = i + 1;
    }
    proof {
        assert(ids@.take(i as int) =~= ids@);
    }
    let list = text::join_texts(&numbers, ",");
    text::concat2("ids=", list.as_str())
}

/// The commit message of a turn that changed the basis alone.
pub fn ids_message_structural(ids: &[TokenId]) -> (message: String)
    ensures
        message@ == structural_text(ids@),
{
    let plain = ids_message(ids);
    text::concat2(plain.as_str(), ";basis-change")
}

/// The ids that a commit message names, where it names any.
pub fn parse_ids_message(message: &str) -> (ids: Option<Vec<TokenId>>)
    ensures
        ids is Some <==> ids_in(message@) is Some,
        ids is Some ==> ids->0@ == ids_in(message@)->0,
{
    let chars = text::chars_of(message);
    if !text::begins_with(chars.as_slice(), "ids=") {
        return None;
    }
    proof {
        reveal_strlit("ids=");
    }
    let rest = text::tail_from(chars.as_slice(), 4);
    let end = text::find_char(rest, 0, ';');
    let head = vstd::slice::slice_subrange(rest, 0, end);
    proof {
        assert(text::pieces(rest@, ';')[0] =~= head@);
    }
    let parts = text::split_pieces(head, ',');
    match read_ids(&parts) {
        Some(ids) => if ids.len() > 0 {
            Some(ids)
        } else {
            None
        },
        None => None,
    }
}

/// The ids in a list of parts; empty parts are passed over.
pub fn read_ids(parts: &Vec<Vec<char>>) -> (ids: Option<Vec<TokenId>>)
    ensures
        ids is Some <==> ids_among(text::word_views(parts@)) is Some,
        ids is Some ==> ids->0@ == ids_among(text::word_views(parts@))->0,
{
    let mut ids: Vec<TokenId> = Vec::new();
    let mut i: usize = 0;
    let ghost all = text::word_views(parts@);
    while i < parts.len()
        invariant
            i <= parts@.len(),
            text::word_views(parts@) == all,
            ids_among(all.take(i as int)) == Some(ids@),
        decreases parts.len() - i,
    {
        proof {
            assert(all[i as int] == parts@[i as int]@);
            assert(all.take(i as int + 1).drop_last() =~= all.take(i as int));
            assert(all.take(i as int + 1).last() == all[i as int]);
        }
        let part = text::trim(parts[i].as_slice());
        if part.len() > 0 {
            match text::parse_decimal(part, u32::MAX as u64) {
                Some(n) => {
                    ids.push(n as u32);
                },
                None => {
                    proof {
                        none_among(all, i as int + 1);
                    }
                    return None;
                },
            }
        }
        i = i + 1;
    }
    proof {
        assert(all.take(i as int) =~= all);
    }
    Some(ids)
}

/// Where the first parts hold something else than ids, so does the whole.
proof fn none_among(parts: Seq<Seq<char>>, n: int)
    requires
        0 <= n <= parts.len(),
        ids_among(parts.take(n)) is None,
    ensures
        ids_among(parts) is None,
    decreases parts.len() - n,
{
    if n == parts.len() {
        assert(parts.take(n) =~= parts);
    } else {
        assert(parts.take(n + 1).drop_last() =~= parts.take(n));
        none_among(parts, n + 1);
    }
}

/// A number has no space in it, no comma and no semicolon.
proof fn number_is_plain(n: nat)
    ensures
        text::trimmed(text::decimal(n)) == text::decimal(n),
        text::lacks(text::decimal(n), ','),
        text::lacks(text::decimal(n), ';'),
{
    let s = text::decimal(n);
    text::decimal_round_trip(n, n);
    assert forall|i: int| 0 <= i < s.len() implies !text::is_space(#[trigger] s[i]) && s[i] != ',' && s[i] != ';' by {
        assert(text::is_digit(s[i]));
    }
    text::next_space_bounds(s, 0, false);
    assert(s.subrange(0, s.len() as int) =~= s);
}

/// The numbers of ids are read back as the ids.
pub proof fn numbers_among(ids: Seq<u32>)
    ensures
        ids_among(id_numbers(ids)) == Some(ids),
    decreases ids.len(),
{
    let parts = id_numbers(ids);
    if ids.len() > 0 {
        assert(parts.drop_last() =~= id_numbers(ids.drop_last()));
        numbers_among(ids.drop_last());
        number_is_plain(ids.last() as nat);
        text::decimal_round_trip(ids.last() as nat, u32::MAX as nat);
        assert(ids.drop_last().push(ids.last()) =~= ids);
    } else {
        assert(ids =~= Seq::empty());
    }
}

/// A joined list lacks what its parts and the separator lack.
proof fn joined_lacks(parts: Seq<Seq<char>>, sep: char, c: char)
    requires
        sep != c,
        forall|i: int| 0 <= i < parts.len() ==> text::lacks(#[trigger] parts[i], c),
    ensures
        text::lacks(text::joined(parts, seq![sep]), c),
    decreases parts.len(),
{
    if parts.len() == 1 {
        assert(text::lacks(parts[0], c));
    } else if parts.len() > 1 {
        let init = parts.drop_last();
        assert forall|i: int| 0 <= i < init.len() implies text::lacks(#[trigger] init[i], c) by {
            assert(text::lacks(parts[i], c));
        }
        joined_lacks(init, sep, c);
        assert(text::lacks(parts[parts.len() - 1], c));
    }
}

/// A turn's message names the turn's ids, with and without the note on the basis;
/// that of an empty turn names none.
pub proof fn message_round_trip(ids: Seq<u32>)
    ensures
        ids.len() > 0 ==> ids_in(ids_text(ids)) == Some(ids),
        ids.len() > 0 ==> ids_in(structural_text(ids)) == Some(ids),
        ids.len() == 0 ==> ids_in(ids_text(ids)) is None && ids_in(structural_text(ids)) is None,
{
    let numbers = id_numbers(ids);
    let list = text::joined(numbers, ","@);
    let plain = ids_text(ids);
    let marked = structural_text(ids);
    reveal_strlit("ids=");
    reveal_strlit(",");
    reveal_strlit(";basis-change");
    assert(","@ =~= seq![',']);
    assert forall|i: int| 0 <= i < numbers.len() implies text::lacks(#[trigger] numbers[i], ',') && text::lacks(numbers[i], ';') by {
        number_is_plain(ids[i] as nat);
    }
    joined_lacks(numbers, ',', ';');
    assert(plain.skip(4) =~= list);
    assert(marked.skip(4) =~= list + ";basis-change"@);
    assert("ids="@.is_prefix_of(plain));
    assert("ids="@.is_prefix_of(marked));
    text::next_char_bounds(list, 0, ';');
    text::next_char_bounds(marked.skip(4), 0, ';');
    let at = text::next_char(marked.skip(4), 0, ';');
    assert(marked.skip(4)[list.len() as int] == ';');
    assert forall|i: int| 0 <= i < list.len() implies marked.skip(4)[i] != ';' by {
        assert(marked.skip(4)[i] == list[i]);
    }
    assert(at == list.len());
    assert(text::pieces(plain.skip(4), ';')[0] =~= list);
    assert(text::pieces(marked.skip(4), ';')[0] =~= list);
    if ids.len() > 0 {
        text::pieces_of_joined(numbers, ',');
        numbers_among(ids);
    } else {
        assert(list =~= Seq::empty());
        let parts = text::pieces(list, ',');
        assert(parts =~= seq![Seq::<char>::empty()]);
        assert(parts.drop_last() =~= Seq::empty());
        assert(ids_among(parts.drop_last()) == Some(Seq::<u32>::empty()));
        assert(text::trimmed(parts.last()).len() == 0);
    }
}

/// The inscriptions of a list of ids.
pub open spec fn id_tokens(ids: Seq<u32>) -> Seq<Seq<u8>> {
    ids.map_values(|n: u32| token::tid_bytes(n))
}

/// The sketch of a turn.
pub open spec fn turn_sketch(ids: Seq<u32>) -> Set<u32> {
    hllset::token_bits(id_tokens(ids), 0)
}

/// Inscribes a list of ids.
pub fn tokens_of(ids: &[TokenId]) -> (tokens: Vec<Vec<u8>>)
    ensures
        hllset::token_views(tokens@) == id_tokens(ids@),
        tokens@.len() == ids@.len(),
{
    let mut tokens: Vec<Vec<u8>> = Vec::new();
    let mut i: usize = 0;
    while i < ids.len()
        invariant
            i <= ids@.len(),
            tokens@.len() == i,
            forall|j: int| 0 <= j < i ==> (#[trigger] tokens@[j])@ == token::tid_bytes(ids@[j]),
        decreases ids.len() - i,
    {
        tokens.push(token::token_in_bytes(ids[i]));
        i = i + 1;
    }
    proof {
        assert(hllset::token_views(tokens@) =~= id_tokens(ids@));
    }
    tokens
}

/// The turns that the commits of a log tell of.
pub open spec fn turns_in(m: Map<Seq<char>, ObjectModel>, log: Seq<Seq<char>>) -> Seq<TurnModel>
    decreases log.len(),
{
    if log.len() == 0 {
        Seq::empty()
    } else {
        let earlier = turns_in(m, log.drop_last());
        match turn_in(m, log.last()) {
            Some(turn) => earlier.push(turn),
            None => earlier,
        }
    }
}

/// The turn that a commit tells of, where its message names ids.
pub open spec fn turn_in(m: Map<Seq<char>, ObjectModel>, id: Seq<char>) -> Option<TurnModel> {
    match repo::read_commit_of(m, id) {
        Read::Found(c) => match ids_in(c.message) {
            Some(ids) => Some(TurnModel { ids, g1: turn_sketch(ids), commit: Some(id) }),
            None => None,
        },
        _ => None,
    }
}

/// The tree of a list of turns: a leaf for each sketch, without views.
pub open spec fn turn_tree(turns: Seq<TurnModel>) -> Map<Seq<char>, Multiset<(Seq<char>, Seq<char>)>> {
    Map::new(
        |h: Seq<char>| exists|i: int| 0 <= i < turns.len() && hllset::key_of((#[trigger] turns[i]).g1) == h,
        |h: Seq<char>| Multiset::empty(),
    )
}

/// The sketches of the turns that the ring still holds.
pub open spec fn recent(turns: Seq<TurnModel>) -> Seq<Set<u32>> {
    let from = if turns.len() > RING_CAPACITY {
        turns.len() - RING_CAPACITY
    } else {
        0
    };
    turns.skip(from).map_values(|t: TurnModel| t.g1)
}

/// No sketches.
pub open spec fn no_sets() -> Seq<Set<u32>> {
    seq![Set::empty(), Set::empty(), Set::empty()]
}

/// The sketches at a head; none where there is no head or it cannot be read.
pub open spec fn sets_at(m: Map<Seq<char>, ObjectModel>, head: Option<Seq<char>>) -> Seq<Set<u32>> {
    match head {
        Some(id) => match repo::read_states_of(m, id) {
            Read::Found(sets) => sets,
            _ => no_sets(),
        },
        None => no_sets(),
    }
}

/// The bit counts at a head; zeros where there is no head or they cannot be read.
pub open spec fn counts_at(m: Map<Seq<char>, ObjectModel>, head: Option<Seq<char>>) -> Seq<u64> {
    let zeros = Seq::new(PLANE as nat, |i: int| 0u64);
    match head {
        Some(id) => match repo::read_tf_of(m, id) {
            Read::Found(counts) => counts,
            _ => zeros,
        },
        None => zeros,
    }
}

/// The turns of the log at a head; none where it cannot be read.
pub open spec fn turns_at(m: Map<Seq<char>, ObjectModel>, head: Option<Seq<char>>) -> Seq<TurnModel> {
    match repo::log_of(m, head) {
        Read::Found(log) => turns_in(m, log),
        _ => Seq::empty(),
    }
}

/// What the machine holds between two turns.
#[derive(Clone, Debug, PartialEq, Eq)]
pub struct StateCache {
    /// The three channels of all turns.
    pub working: [HLLSet; 3],
    pub ingestor: Ingestor,
    /// The bit counts at the tip from which the cache started.
    pub tf_base: TFVec,
    /// A leaf for each turn.
    pub tree: ContextTree,
    pub turns: Vec<TurnRecord>,
    /// The head after the last turn.
    pub tip: Option<ObjectId>,
    pub turn: u64,
    pub ring: BoolWindow,
}

impl StateCache {
    pub open spec fn wf(&self) -> bool {
        &&& self.ingestor.wf()
        &&& self.tf_base.wf()
        &&& self.tree.wf()
        &&& self.ring.wf()
        &&& self.ring.capacity() == RING_CAPACITY
    }

    /// The tree, the count and the ring tell of the recorded turns.
    pub open spec fn in_step(&self) -> bool {
        &&& self.turn == self.turns@.len()
        &&& self.tree@ == turn_tree(turn_views(self.turns@))
        &&& self.ring.window() == recent(turn_views(self.turns@))
    }

    /// A cache without turns.
    pub fn empty() -> (c: StateCache)
        ensures
            c.wf(),
            c.in_step(),
            repo::set_views(c.working@) == no_sets(),
            c.ingestor.spec_seeds() == seq![0u64, 1u64, 2u64],
            c.ingestor.spec_tokens() == 0,
            c.ingestor.spec_seen() == Set::<Seq<u8>>::empty(),
            forall|t: Seq<u8>| #[trigger] c.ingestor.tally(t) == 0,
            c.ingestor.spec_new_entries() == 0,
            c.ingestor.spec_bit_tf() == Seq::new(PLANE as nat, |i: int| 0u64),
            c.tf_base@ == Seq::new(PLANE as nat, |i: int| 0u64),
            c.turns@.len() == 0,
            c.tip is None,
            c.ring.changes() == 0,
    {
        let c = StateCache {
            working: [HLLSet::new(), HLLSet::new(), HLLSet::new()],
            ingestor: fresh_ingestor(),
            tf_base: TFVec::new(),
            tree: ContextTree::empty(),
            turns: Vec::new(),
            tip: None,
            turn: 0,
            ring: BoolWindow::new(RING_CAPACITY),
        };
        proof {
            assert(repo::set_views(c.working@) =~= no_sets());
            assert(c.tree@ =~= turn_tree(turn_views(c.turns@)));
            assert(c.ring.window() =~= recent(turn_views(c.turns@)));
        }
        c
    }

    /// A cache over what a repository holds: the channels and counts at its head,
    /// and the turns that its log tells of.
    pub fn restore<S: ObjectStore>(repo: &Repository<S>) -> (c: StateCache)
        requires
            repo.wf(),
        ensures
            c.wf(),
            c.in_step(),
            repo::set_views(c.working@) == sets_at(repo.contents(), repo.spec_head()),
            c.tf_base@ == counts_at(repo.contents(), repo.spec_head()),
            turn_views(c.turns@) == turns_at(repo.contents(), repo.spec_head()),
            forall|i: int| 0 <= i < c.turns@.len() ==> told_by(repo.contents(), #[trigger] turn_views(c.turns@)[i]),
            c.ingestor.spec_seeds() == seq![0u64, 1u64, 2u64],
            c.ingestor.spec_tokens() == 0,
            c.ingestor.spec_seen() == Set::<Seq<u8>>::empty(),
            forall|t: Seq<u8>| #[trigger] c.ingestor.tally(t) == 0,
            c.ingestor.spec_new_entries() == 0,
            c.ingestor.spec_bit_tf() == Seq::new(PLANE as nat, |i: int| 0u64),
            repo::optional_id(c.tip) == repo.spec_head(),
            c.ring.changes() <= 2 * RING_CAPACITY,
    {
        let turns = match repo.log() {
            Ok(log) => turns_of_log(repo, &log),
            Err(_) => Vec::new(),
        };
        let mut working = [HLLSet::new(), HLLSet::new(), HLLSet::new()];
        let mut tf_base = TFVec::new();
        let mut tip: Option<ObjectId> = None;
        proof {
            assert(repo::set_views(working@) =~= no_sets());
        }
        match repo.head() {
            Some(head) => {
                match repo.states(head) {
                    Ok(sets) => {
                        working = sets;
                    },
                    Err(_) => {},
                }
                match repo.state_tf(head) {
                    Ok(counts) => {
                        tf_base = counts.inner;
                    },
                    Err(_) => {},
                }
                tip = Some(head.copy());
            },
            None => {},
        }
        let tree = tree_of_turns(&turns);
        let ring = ring_of_turns(&turns);
        let turn = turns.len() as u64;
        StateCache { working, ingestor: fresh_ingestor(), tf_base, tree, turns, tip, turn, ring }
    }

    /// The bit counts: those at the start and those since.
    pub fn current_tf(&self) -> (t: BitTf)
        requires
            self.wf(),
            registry::sums_fit(self.tf_base@, self.ingestor.spec_bit_tf()),
        ensures
            t.wf(),
            t@ == registry::summed(self.tf_base@, self.ingestor.spec_bit_tf()),
    {
        let mut t = BitTf::from_tfvec(self.tf_base.copy());
        let since = BitTf::from_tfvec(self.ingestor.bit_tf().copy());
        t.merge(&since);
        t
    }

    pub fn tree(&self) -> (t: &ContextTree)
        ensures
            *t == self.tree,
    {
        &self.tree
    }

    pub fn turns(&self) -> (t: &Vec<TurnRecord>)
        ensures
            *t == self.turns,
    {
        &self.turns
    }

    pub fn turn_count(&self) -> (n: u64)
        ensures
            n == self.turn,
    {
        self.turn
    }

    /// The first channel of all turns.
    pub fn working_g1(&self) -> (s: &HLLSet)
        ensures
            *s == self.working@[0],
    {
        &self.working[0]
    }
}

/// Whether a turn is one that its commit tells of.
pub open spec fn told_by(m: Map<Seq<char>, ObjectModel>, turn: TurnModel) -> bool {
    turn.commit matches Some(id) && turn_in(m, id) == Some(turn)
}

fn fresh_ingestor() -> (g: Ingestor)
    ensures
        g.wf(),
        g.spec_seeds() == seq![0u64, 1u64, 2u64],
        g.spec_tokens() == 0,
        g.spec_seen() == Set::<Seq<u8>>::empty(),
        forall|t: Seq<u8>| #[trigger] g.tally(t) == 0,
        g.spec_new_entries() == 0,
        g.spec_bit_tf() == Seq::new(PLANE as nat, |i: int| 0u64),
{
    let seeds: [u64; 3] = [0, 1, 2];
    let g = Ingestor::new(vstd::array::array_as_slice(&seeds));
    proof {
        assert(seeds@ =~= seq![0u64, 1u64, 2u64]);
    }
    g
}

/// The turns that the commits of a log tell of.
fn turns_of_log<S: ObjectStore>(repo: &Repository<S>, log: &Vec<ObjectId>) -> (turns: Vec<TurnRecord>)
    requires
        repo.wf(),
    ensures
        turn_views(turns@) == turns_in(repo.contents(), object::id_texts(log@)),
        forall|i: int| 0 <= i < turns@.len() ==> told_by(repo.contents(), #[trigger] turn_views(turns@)[i]),
{
    let ghost m = repo.contents();
    let ghost ids = object::id_texts(log@);
    let mut turns: Vec<TurnRecord> = Vec::new();
    let mut i: usize = 0;
    while i < log.len()
        invariant
            i <= log@.len(),
            repo.wf(),
            m == repo.contents(),
            ids == object::id_texts(log@),
            turn_views(turns@) == turns_in(m, ids.take(i as int)),
            forall|j: int| 0 <= j < turns@.len() ==> told_by(m, #[trigger] turn_views(turns@)[j]),
        decreases log.len() - i,
    {
        let ghost before = turns@;
        proof {
            assert(ids.take(i as int + 1).drop_last() =~= ids.take(i as int));
            assert(ids.take(i as int + 1).last() == log@[i as int]@);
        }
        match repo.read_commit(&log[i]) {
            Ok(commit) => {
                match parse_ids_message(commit.message.as_str()) {
                    Some(found) => {
                        let tokens = tokens_of(found.as_slice());
                        let g1 = HLLSet::from_tokens(&tokens);
                        let turn = TurnRecord { ids: found, g1, commit: Some(log[i].copy()) };
                        turns.push(turn);
                        proof {
                            assert(turn_views(turns@) =~= turn_views(before).push(turn@));
                            assert(turn_in(m, log@[i as int]@) == Some(turn@));
                        }
                    },
                    None => {},
                }
            },
            Err(_) => {},
        }
        i = i + 1;
    }
    proof {
        assert(ids.take(i as int) =~= ids);
    }
    turns
}

/// A leaf without views says nothing of its key but that it is there.
pub proof fn bare_leaf(leaf: Leaf)
    requires
        leaf.views@.len() == 0,
    ensures
        context_tree::view_bag(leaf.views@) == Multiset::<(Seq<char>, Seq<char>)>::empty(),
{
    let v = context_tree::view_list(leaf.views@);
    v.to_multiset_ensures();
    assert(v.to_multiset() =~= Multiset::empty()) by {
        vstd::multiset::lemma_multiset_empty_len(v.to_multiset());
    }
}

fn tree_of_turns(turns: &Vec<TurnRecord>) -> (t: ContextTree)
    ensures
        t.wf(),
        t@ == turn_tree(turn_views(turns@)),
{
    let ghost all = turn_views(turns@);
    let mut leaves: Vec<Leaf> = Vec::new();
    let mut i: usize = 0;
    while i < turns.len()
        invariant
            i <= turns@.len(),
            leaves@.len() == i,
            all == turn_views(turns@),
            forall|j: int|
                0 <= j < i ==> (#[trigger] leaves@[j]).views@.len() == 0 && leaves@[j].h@ == hllset::key_of(all[j].g1),
        decreases turns.len() - i,
    {
        leaves.push(Leaf { h: turns[i].g1.content_key(), views: Vec::new() });
        i = i + 1;
    }
    let ghost list = leaves@;
    proof {
        let made = context_tree::leaf_map(list);
        let wanted = turn_tree(all);
        assert forall|h: Seq<char>| made.dom().contains(h) == #[trigger] wanted.dom().contains(h) by {
            context_tree::leaf_map_facts(list, h, (Seq::empty(), Seq::empty()));
            if made.dom().contains(h) {
                let j = choose|j: int| 0 <= j < list.len() && #[trigger] list[j].h@ == h;
                assert(hllset::key_of(all[j].g1) == h);
            }
            if wanted.dom().contains(h) {
                let j = choose|j: int| 0 <= j < all.len() && hllset::key_of((#[trigger] all[j]).g1) == h;
                assert(list[j].h@ == h);
            }
        }
        assert forall|h: Seq<char>| #[trigger] made.dom().contains(h) implies made[h] == wanted[h] by {
            assert forall|v: (Seq<char>, Seq<char>)| #[trigger] made[h].count(v) == 0 by {
                context_tree::leaf_map_facts(list, h, v);
                let j = choose|j: int|
                    0 <= j < list.len() && (#[trigger] list[j]).h@ == h && context_tree::view_bag(list[j].views@).count(v)
                        == made[h].count(v);
                bare_leaf(list[j]);
            }
            assert(wanted.dom().contains(h));
            assert(wanted[h] == Multiset::<(Seq<char>, Seq<char>)>::empty());
            assert(made[h] =~= Multiset::<(Seq<char>, Seq<char>)>::empty());
        }
        assert(made =~= wanted);
    }
    ContextTree::build(leaves)
}

/// The ring of the turns that it still holds; older ones have left it.
fn ring_of_turns(turns: &Vec<TurnRecord>) -> (ring: BoolWindow)
    ensures
        ring.wf(),
        ring.capacity() == RING_CAPACITY,
        ring.window() == recent(turn_views(turns@)),
        ring.changes() <= 2 * RING_CAPACITY,
{
    let mut ring = BoolWindow::new(RING_CAPACITY);
    let ghost all = turn_views(turns@);
    let from: usize = if turns.len() > RING_CAPACITY {
        turns.len() - RING_CAPACITY
    } else {
        0
    };
    let mut i: usize = from;
    let ghost sets = all.map_values(|t: TurnModel| t.g1);
    proof {
        assert(sets.subrange(from as int, from as int) =~= ring.window());
    }
    while i < turns.len()
        invariant
            from <= i <= turns@.len(),
            turns@.len() - from <= RING_CAPACITY,
            all == turn_views(turns@),
            sets == all.map_values(|t: TurnModel| t.g1),
            ring.wf(),
            ring.capacity() == RING_CAPACITY,
            ring.window() == sets.subrange(from as int, i as int),
            ring.changes() <= 2 * (i - from),
        decreases turns.len() - i,
    {
        ring.push(&turns[i].g1);
        proof {
            assert(sets[i as int] == turns@[i as int].g1@);
            assert(sets.subrange(from as int, i as int + 1) =~= sets.subrange(from as int, i as int).push(sets[i as int]));
        }
        i = i + 1;
    }
    proof {
        assert(sets.subrange(from as int, i as int) =~= recent(all));
    }
    ring
}

/// The turns of a log are those of its commits whose message names ids, in log order;
/// the message's ids are the turn's, and the commit is named with it.
pub proof fn turns_law(m: Map<Seq<char>, ObjectModel>, log: Seq<Seq<char>>, id: Seq<char>)
    ensures
        turns_in(m, Seq::empty()) == Seq::<TurnModel>::empty(),
        turns_in(m, log.push(id)) == (match repo::read_commit_of(m, id) {
            Read::Found(c) => if ids_in(c.message) is Some {
                turns_in(m, log).push(
                    TurnModel {
                        ids: ids_in(c.message)->0,
                        g1: hllset::token_bits(id_tokens(ids_in(c.message)->0), 0),
                        commit: Some(id),
                    },
                )
            } else {
                turns_in(m, log)
            },
            _ => turns_in(m, log),
        }),
{
    assert(log.push(id).drop_last() =~= log);
}

/// The recent turns are the last of all turns, no more than the ring holds, in order.
pub proof fn recent_law(turns: Seq<TurnModel>)
    ensures
        recent(turns).len() <= RING_CAPACITY,
        turns.len() <= RING_CAPACITY ==> recent(turns).len() == turns.len(),
        turns.len() > RING_CAPACITY ==> recent(turns).len() == RING_CAPACITY,
        forall|i: int|
            1 <= i <= recent(turns).len() ==> #[trigger] recent(turns)[recent(turns).len() - i] == turns[turns.len() - i].g1,
{
    let from: int = if turns.len() > RING_CAPACITY {
        turns.len() - RING_CAPACITY
    } else {
        0
    };
    assert(recent(turns).len() == turns.len() - from);
    assert forall|i: int| 1 <= i <= recent(turns).len() implies #[trigger] recent(turns)[recent(turns).len() - i] == turns[turns.len()
        - i].g1 by {
        assert(turns.skip(from)[recent(turns).len() - i] == turns[turns.len() - i]);
    }
}

/// A turn's ids become tokens one by one: `tid` and the number in decimal.
pub proof fn id_tokens_law(ids: Seq<u32>, i: int)
    requires
        0 <= i < ids.len(),
    ensures
        id_tokens(ids).len() == ids.len(),
        id_tokens(ids)[i] == text::utf8("tid"@ + text::decimal(ids[i] as nat)),
        turn_sketch(ids).contains(crate::hashing::token_bit(text::utf8("tid"@ + text::decimal(ids[i] as nat)), 0)),
        forall|b: u32| #[trigger]
            turn_sketch(ids).contains(b) ==> exists|j: int|
                0 <= j < ids.len() && b == crate::hashing::token_bit(
                    text::utf8("tid"@ + text::decimal(#[trigger] ids[j] as nat)),
                    0,
                ),
{
    let t = id_tokens(ids);
    assert(t[i] == token::tid_bytes(ids[i]));
    assert(crate::hashing::token_bit(t[i], 0) == crate::hashing::token_bit(text::utf8("tid"@ + text::decimal(ids[i] as nat)), 0));
    assert forall|b: u32| #[trigger] turn_sketch(ids).contains(b) implies exists|j: int|
        0 <= j < ids.len() && b == crate::hashing::token_bit(text::utf8("tid"@ + text::decimal(#[trigger] ids[j] as nat)), 0) by {
        let j = choose|j: int| 0 <= j < t.len() && crate::hashing::token_bit(#[trigger] t[j], 0) == b;
        assert(t[j] == token::tid_bytes(ids[j]));
    }
}

} // verus!
