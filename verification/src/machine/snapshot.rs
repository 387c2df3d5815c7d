//! A cache in plain values, to look at.

use vstd::prelude::*;

use crate::git::object::ObjectId;
use crate::git::store::ObjectStore;
use crate::machine::state::StateCache;
use crate::machine::state::TurnRecord;
use crate::machine::state::RING_CAPACITY;
use crate::machine::turn::StateMachine;
use crate::text;
use crate::git::object;
use crate::hllset;

verus! {

/// A cache in plain values.
#[derive(Clone, Debug, PartialEq, Eq)]
pub struct StateSnapshot {
    pub layer: String,
    /// The first characters of the tip's id.
    pub tip: Option<String>,
    pub turn_count: u64,
    /// The bits of the three channels.
    pub working_bits: [u64; 3],
    pub tree_root: String,
    pub tree_leaves: usize,
    pub turns: Vec<TurnSnapshot>,
    pub tf_base_entries: usize,
    pub cache: CacheStub,
    pub ring: RingSnapshot,
}

/// The ring in numbers.
#[derive(Clone, Copy, Debug, PartialEq, Eq, Structural)]
pub struct RingSnapshot {
    pub capacity: usize,
    pub window_len: usize,
    pub dimension: usize,
}

/// A turn in plain values.
#[derive(Clone, Debug, PartialEq, Eq)]
pub struct TurnSnapshot {
    pub turn: u64,
    pub ids: Vec<u32>,
    pub g1_key: String,
    /// The first characters of the commit's id.
    pub commit: Option<String>,
}

/// The batches of the extended cache.
#[derive(Clone, Debug, PartialEq, Eq)]
pub struct CacheStub {
    pub status: String,
    pub batches: Vec<String>,
}

/// The names of the batches of the extended cache.
pub open spec fn batch_names() -> Seq<Seq<char>> {
    seq![
        "hllset_lut"@,
        "ng:G1"@,
        "ng:G2"@,
        "ng:G3"@,
        "ns:G1"@,
        "ns:G2"@,
        "ns:G3"@,
        "tf_table"@,
        "tf_vec"@,
        "tree_leaves"@,
        "tree_levels"@,
        "g1"@,
        "g2"@,
        "g3"@,
        "turns"@,
        "MANIFEST"@,
    ]
}

/// An id as it is shown: its first characters.
pub open spec fn shown_id(id: Option<ObjectId>) -> Option<Seq<char>> {
    match id {
        Some(i) => Some(object::cut_to(i@, 8)),
        None => None,
    }
}

/// A text, where there is one.
pub open spec fn optional_text(s: Option<String>) -> Option<Seq<char>> {
    match s {
        Some(t) => Some(t@),
        None => None,
    }
}

/// Whether an id can be cut where it is shown.
pub open spec fn showable(id: Option<ObjectId>) -> bool {
    id is Some ==> object::cuts_at(id->0@, 8)
}

/// Whether all ids of a cache can be cut where they are shown; digests can.
pub open spec fn showable_ids(cache: StateCache) -> bool {
    &&& showable(cache.tip)
    &&& forall|i: int| 0 <= i < cache.turns@.len() ==> showable((#[trigger] cache.turns@[i]).commit)
}

impl TurnSnapshot {
    /// Whether the snapshot shows a record of a turn.
    pub open spec fn shows(&self, turn: int, record: TurnRecord) -> bool {
        &&& self.turn == turn
        &&& self.ids@ == record.ids@
        &&& self.g1_key@ == hllset::key_of(record.g1@)
        &&& optional_text(self.commit) == shown_id(record.commit)
    }

    pub fn from_record(turn: u64, record: &TurnRecord) -> (s: TurnSnapshot)
        requires
            showable(record.commit),
        ensures
            s.shows(turn as int, *record),
    {
        TurnSnapshot {
            turn,
            ids: vstd::slice::slice_to_vec(record.ids.as_slice()),
            g1_key: record.g1.content_key(),
            commit: match &record.commit {
                Some(id) => Some(id.short()),
                None => None,
            },
        }
    }
}

impl CacheStub {
    fn designed() -> (c: CacheStub)
        ensures
            c.status@ == "designed (Arrow) — not implemented"@,
            text::texts(c.batches@) == batch_names(),
    {
        let mut batches: Vec<String> = Vec::new();
        batches.push(text::copy_str("hllset_lut"));
        batches.push(text::copy_str("ng:G1"));
        batches.push(text::copy_str("ng:G2"));
        batches.push(text::copy_str("ng:G3"));
        batches.push(text::copy_str("ns:G1"));
        batches.push(text::copy_str("ns:G2"));
        batches.push(text::copy_str("ns:G3"));
        batches.push(text::copy_str("tf_table"));
        batches.push(text::copy_str("tf_vec"));
        batches.push(text::copy_str("tree_leaves"));
        batches.push(text::copy_str("tree_levels"));
        batches.push(text::copy_str("g1"));
        batches.push(text::copy_str("g2"));
        batches.push(text::copy_str("g3"));
        batches.push(text::copy_str("turns"));
        batches.push(text::copy_str("MANIFEST"));
        proof {
            assert(text::texts(batches@) =~= batch_names());
        }
        CacheStub { status: text::copy_str("designed (Arrow) — not implemented"), batches }
    }
}

impl StateSnapshot {
    /// Whether the snapshot shows a cache.
    pub open spec fn shows(&self, cache: StateCache) -> bool {
        &&& self.layer@ == "S(t) run-time"@
        &&& optional_text(self.tip) == shown_id(cache.tip)
        &&& self.turn_count == cache.turn
        &&& forall|g: int| 0 <= g < 3 ==> #[trigger] self.working_bits@[g] == cache.working@[g]@.len()
        &&& self.tree_root@ == cache.tree.spec_root()
        &&& self.tree_leaves == cache.tree.spec_leaves().len()
        &&& self.turns@.len() == cache.turns@.len()
        &&& forall|i: int| 0 <= i < cache.turns@.len() ==> (#[trigger] self.turns@[i]).shows(i, cache.turns@[i])
        &&& self.tf_base_entries == cache.tf_base@.len()
        &&& self.cache.status@ == "designed (Arrow) — not implemented"@
        &&& text::texts(self.cache.batches@) == batch_names()
        &&& self.ring.capacity == RING_CAPACITY
        &&& self.ring.window_len == cache.ring.window().len()
        &&& self.ring.dimension == cache.ring.spec_basis().rows().len()
    }
}

impl<S: ObjectStore> StateMachine<S> {
    /// The cache in plain values.
    pub fn snapshot(&self, cache: &StateCache) -> (s: StateSnapshot)
        requires
            showable_ids(*cache),
        ensures
            s.shows(*cache),
    {
        let mut turns: Vec<TurnSnapshot> = Vec::new();
        let mut i: usize = 0;
        while i < cache.turns.len()
            invariant
                i <= cache.turns@.len(),
                showable_ids(*cache),
                turns@.len() == i,
                forall|j: int| 0 <= j < i ==> (#[trigger] turns@[j]).shows(j, cache.turns@[j]),
            decreases cache.turns.len() - i,
        {
            turns.push(TurnSnapshot::from_record(i as u64, &cache.turns[i]));
            i = i + 1;
        }
        let working_bits = [cache.working[0].popcount(), cache.working[1].popcount(), cache.working[2].popcount()];
        StateSnapshot {
            layer: text::copy_str("S(t) run-time"),
            tip: match &cache.tip {
                Some(id) => Some(id.short()),
                None => None,
            },
            turn_count: cache.turn,
            working_bits,
            tree_root: text::copy_str(cache.tree.root()),
            tree_leaves: cache.tree.leaves().len(),
            turns,
            tf_base_entries: cache.tf_base.len(),
            cache: CacheStub::designed(),
            ring: RingSnapshot {
                capacity: RING_CAPACITY,
                window_len: cache.ring.window_len(),
                dimension: cache.ring.dimension(),
            },
        }
    }
}

/// A snapshot has the turns of its cache in order, each under its number from zero, and
/// the bits of the three working channels in order.
pub proof fn snapshot_law(s: StateSnapshot, cache: StateCache, i: int, g: int)
    requires
        s.shows(cache),
        0 <= i < cache.turns@.len(),
        0 <= g < 3,
    ensures
        s.turns@.len() == cache.turns@.len(),
        s.turns@[i].turn == i,
        s.turns@[i].ids@ == cache.turns@[i].ids@,
        s.turns@[i].g1_key@ == hllset::key_of(cache.turns@[i].g1@),
        s.turns@[i].commit is Some <==> cache.turns@[i].commit is Some,
        s.working_bits@[g] == cache.working@[g]@.len(),
        s.ring.window_len == cache.ring.window().len(),
        s.ring.dimension == cache.ring.spec_basis().rows().len(),
{
    assert(s.turns@[i].shows(i, cache.turns@[i]));
}

} // verus!
