//! A commit read through the codebook of a user.

use vstd::prelude::*;

use crate::git::object::ObjectId;
use crate::git::repo::Read;
use crate::git::repo::Repository;
use crate::git::store::ObjectStore;
use crate::git::store::StoreError;
use crate::lut::TokenSet;
use crate::morphisms::ingest::Ingest;
use crate::text;
use crate::git::intake;
use crate::git::repo;
use crate::hashing;
use crate::hllset;
use crate::lut;
use crate::morphisms::api;
use crate::morphisms::ingest;
use crate::scene::frames;
use crate::scene::restore;
use crate::search;

verus! {

/// A commit read through a codebook.
#[derive(Clone, Debug, PartialEq, Eq)]
pub struct ProjectedUser {
    pub user: String,
    pub commit: String,
    /// The bits of the commit's channels together.
    pub commit_pop: u64,
    pub commit_key: String,
    /// The bits of the codebook.
    pub gate_pop: u64,
    pub gate_key: String,
    /// The bits of both.
    pub gated_pop: u64,
    pub gated_key: String,
    /// The words of the codebook that the commit knows, in order.
    pub restored_tokens: Vec<String>,
}

/// A commit's channels together.
pub open spec fn together(sets: Seq<Set<u32>>) -> Set<u32> {
    sets[0].union(sets[1]).union(sets[2])
}

/// The tokens that a set knows: one of their three bits is in it.
pub open spec fn known_tokens(tokens: Seq<Seq<u8>>, set: Set<u32>) -> Set<Seq<u8>> {
    Set::new(
        |t: Seq<u8>|
            tokens.contains(t) && (set.contains(hashing::token_bit(t, 0)) || set.contains(hashing::token_bit(t, 1)) || set.contains(
                hashing::token_bit(t, 2),
            )),
    )
}

impl ProjectedUser {
    /// Whether this is how a commit reads through a codebook.
    pub open spec fn tells(&self, user: Seq<char>, id: Seq<char>, sets: Seq<Set<u32>>, codebook: Seq<String>) -> bool {
        let tokens = frames::text_tokens(codebook);
        let shared = together(sets);
        let gate = frames::sketch_of(tokens);
        &&& self.user@ == user
        &&& self.commit@ == id
        &&& self.commit_pop == shared.len()
        &&& self.commit_key@ == hllset::key_of(shared)
        &&& self.gate_pop == gate.len()
        &&& self.gate_key@ == hllset::combined_key_of(gate)
        &&& self.gated_pop == gate.intersect(shared).len()
        &&& self.gated_key@ == hllset::combined_key_of(gate.intersect(shared))
        &&& frames::text_tokens(self.restored_tokens@) == api::listing(known_tokens(tokens, shared))
    }
}

/// The set of a list of texts.
fn token_set(codebook: &Vec<String>) -> (set: TokenSet)
    ensures
        set.wf(),
        set@ == frames::text_tokens(codebook@).to_set(),
{
    let ghost all = frames::text_tokens(codebook@);
    let mut set = TokenSet::new();
    let mut i: usize = 0;
    proof {
        assert(set@ =~= all.take(0).to_set());
    }
    while i < codebook.len()
        invariant
            i <= codebook@.len(),
            all == frames::text_tokens(codebook@),
            set.wf(),
            set@ == all.take(i as int).to_set(),
        decreases codebook.len() - i,
    {
        set.insert(vstd::slice::slice_to_vec(codebook[i].as_str().as_bytes()));
        proof {
            let t = all[i as int];
            let shorter = all.take(i as int);
            let longer = all.take(i as int + 1);
            assert(longer =~= shorter.push(t));
            assert forall|x: Seq<u8>| longer.to_set().contains(x) == shorter.to_set().insert(t).contains(x) by {
                search::pushed_members(shorter, t, x);
            }
            assert(longer.to_set() =~= shorter.to_set().insert(t));
        }
        i = i + 1;
    }
    proof {
        assert(all.take(i as int) =~= all);
    }
    set
}

/// What passes a codebook of a commit are the words that the commit knows.
proof fn gate_keeps_known(g: Ingest, tokens: Seq<Seq<u8>>, shared: Set<u32>)
    requires
        g.holds(tokens),
    ensures
        ingest::gated_tokens(g, frames::sketch_of(tokens).intersect(shared), Some(tokens.to_set())) == known_tokens(tokens, shared),
{
    let gated = frames::sketch_of(tokens).intersect(shared);
    let found = ingest::gated_tokens(g, gated, Some(tokens.to_set()));
    let known = known_tokens(tokens, shared);
    assert(g.hllsets@[0]@ == hllset::token_bits(tokens, 0));
    assert(g.spec_lut(0) == ingest::token_rows(tokens, 0));
    assert(g.hllsets@[1]@ == hllset::token_bits(tokens, 1));
    assert(g.spec_lut(1) == ingest::token_rows(tokens, 1));
    assert(g.hllsets@[2]@ == hllset::token_bits(tokens, 2));
    assert(g.spec_lut(2) == ingest::token_rows(tokens, 2));
    assert forall|t: Seq<u8>| found.contains(t) == known.contains(t) by {
        if found.contains(t) {
            let i = choose|i: int| 0 <= i < 3 && #[trigger] lut::selected(gated, g.spec_lut(i)).contains(t);
            let b = choose|b: u32| #[trigger] gated.contains(b) && g.spec_lut(i).contains((b, t));
            assert(b == hashing::token_bit(t, i as u64));
        }
        if known.contains(t) {
            let j = choose|j: int| 0 <= j < tokens.len() && tokens[j] == t;
            if shared.contains(hashing::token_bit(t, 0)) {
                known_through(g, tokens, shared, t, 0);
            } else if shared.contains(hashing::token_bit(t, 1)) {
                known_through(g, tokens, shared, t, 1);
            } else {
                known_through(g, tokens, shared, t, 2);
            }
        }
    }
    assert(found =~= known);
}

proof fn known_through(g: Ingest, tokens: Seq<Seq<u8>>, shared: Set<u32>, t: Seq<u8>, i: int)
    requires
        0 <= i < 3,
        g.spec_lut(i) == ingest::token_rows(tokens, i as u64),
        tokens.contains(t),
        shared.contains(hashing::token_bit(t, i as u64)),
    ensures
        lut::selected(frames::sketch_of(tokens).intersect(shared), g.spec_lut(i)).contains(t),
{
    let gated = frames::sketch_of(tokens).intersect(shared);
    let b = hashing::token_bit(t, i as u64);
    assert(hllset::token_bits(tokens, i as u64).contains(b));
    assert(gated.contains(b));
    assert(g.spec_lut(i).contains((b, t)));
}

/// Reads a commit through the codebook of a user.
pub fn project_user<S: ObjectStore>(repo: &Repository<S>, user: &str, cid: &ObjectId, codebook: &Vec<String>) -> (r: Result<
    ProjectedUser,
    StoreError,
>)
    requires
        repo.wf(),
    ensures
        match r {
            Ok(p) => repo::read_states_of(repo.contents(), cid@) matches Read::Found(sets) && p.tells(
                user@,
                cid@,
                sets,
                codebook@,
            ),
            Err(StoreError::NotFound(x)) => repo::read_states_of(repo.contents(), cid@) == Read::<Seq<Set<u32>>>::Missing(x@),
            Err(StoreError::Io(w)) => repo::read_states_of(repo.contents(), cid@) == Read::<Seq<Set<u32>>>::Wrong(w@),
        },
{
    let gate_ing = frames::ingest_texts(codebook);
    let gate_hll = gate_ing.projection();
    let allowed = token_set(codebook);
    let states = match repo.states(cid) {
        Ok(s) => s,
        Err(e) => {
            return Err(e);
        },
    };
    let shared = states[0].union(&states[1]).union(&states[2]);
    let gated = api::gate(&gate_hll, &shared);
    let known = ingest::ingest_gated_set(&gate_ing, &gated, Some(&allowed));
    let list = known.to_vec();
    let ghost tokens = frames::text_tokens(codebook@);
    let ghost sets = repo::set_views(states@);
    proof {
        assert(shared@ =~= together(sets));
        gate_keeps_known(gate_ing, tokens, shared@);
        api::listing_is(&known);
        restore::texts_are_texts(codebook@);
        assert forall|t: Seq<u8>| #[trigger] hllset::token_views(list@).contains(t) implies tokens.contains(t) by {
            assert(api::listing(known@).to_set().contains(t));
        }
        restore::texts_among(hllset::token_views(list@), tokens);
    }
    let p = ProjectedUser {
        user: text::copy_str(user),
        commit: text::copy_str(cid.as_str()),
        commit_pop: shared.popcount(),
        commit_key: shared.content_key(),
        gate_pop: gate_hll.popcount(),
        gate_key: gate_ing.key(),
        gated_pop: gated.popcount(),
        gated_key: gated.content_key_c(),
        restored_tokens: restore::texts_of_tokens(&list),
    };
    proof {
        assert(p.tells(user@, cid@, sets, codebook@));
    }
    Ok(p)
}

/// What was committed comes back: a word whose bits are in the commit is known.
pub proof fn committed_words_known(tokens: Seq<Seq<u8>>, codebook: Seq<Seq<u8>>, t: Seq<u8>)
    requires
        tokens.contains(t),
        codebook.contains(t),
    ensures
        known_tokens(codebook, together(intake::sketches(tokens))).contains(t),
{
    let j = choose|j: int| 0 <= j < tokens.len() && tokens[j] == t;
    assert(hllset::token_bits(tokens, 0).contains(hashing::token_bit(t, 0)));
}

/// What a user is told of a commit: the three channels of the commit together, the bits
/// of the user's words under the three seeds, and the bits common to both; and of the
/// user's words those of which some bit is in the commit.
pub proof fn told_law(p: ProjectedUser, user: Seq<char>, id: Seq<char>, sets: Seq<Set<u32>>, codebook: Seq<String>, t: Seq<u8>)
    requires
        p.tells(user, id, sets, codebook),
        sets.len() == 3,
        forall|g: int| 0 <= g < 3 ==> hllset::on_plane(#[trigger] sets[g]),
    ensures
        p.commit_pop == sets[0].union(sets[1]).union(sets[2]).len(),
        p.gated_pop == frames::sketch_of(frames::text_tokens(codebook)).filter(
            |b: u32| sets[0].contains(b) || sets[1].contains(b) || sets[2].contains(b),
        ).len(),
        frames::text_tokens(p.restored_tokens@).contains(t) <==> frames::text_tokens(codebook).contains(t) && exists|g: int, seed: u64|
            0 <= g < 3 && seed < 3 && #[trigger] sets[g].contains(hashing::token_bit(t, seed)),
{
    let tokens = frames::text_tokens(codebook);
    let shared = together(sets);
    let gate = frames::sketch_of(tokens);
    assert(gate.intersect(shared) =~= gate.filter(|b: u32| sets[0].contains(b) || sets[1].contains(b) || sets[2].contains(b)));
    let known = known_tokens(tokens, shared);
    vstd::seq_lib::seq_to_set_is_finite(tokens);
    assert(known.subset_of(tokens.to_set())) by {
        assert forall|x: Seq<u8>| known.contains(x) implies tokens.to_set().contains(x) by {}
    }
    vstd::set_lib::lemma_len_subset(known, tokens.to_set());
    api::listing_exists(known);
    let l = api::listing(known);
    assert(l.to_set().contains(t) == known.contains(t));
    if known.contains(t) {
        let seed: u64 = if shared.contains(hashing::token_bit(t, 0)) {
            0
        } else if shared.contains(hashing::token_bit(t, 1)) {
            1
        } else {
            2
        };
        let b = hashing::token_bit(t, seed);
        assert(shared.contains(b));
        let g: int = if sets[0].contains(b) {
            0
        } else if sets[1].contains(b) {
            1
        } else {
            2
        };
        assert(sets[g].contains(hashing::token_bit(t, seed)));
    }
    if tokens.contains(t) && exists|g: int, seed: u64|
        0 <= g < 3 && seed < 3 && #[trigger] sets[g].contains(hashing::token_bit(t, seed)) {
        let (g, seed) = choose|g: int, seed: u64|
            0 <= g < 3 && seed < 3 && #[trigger] sets[g].contains(hashing::token_bit(t, seed));
        assert(shared.contains(hashing::token_bit(t, seed)));
        assert(seed == 0 || seed == 1 || seed == 2);
    }
}

} // verus!
