//! The n-seed scheme: every token hashed under three seeds.

use vstd::prelude::*;

use crate::hashing::BitAddress;
use crate::hllset::HLLSet;
use crate::lut::LutIndex;
use crate::lut::TokenSet;
use crate::hashing;
use crate::hllset;
use crate::lut;
use crate::morphisms::hllset_lut;

verus! {

/// The pairs of a list of tokens with their bits under a seed.
pub open spec fn token_rows(tokens: Seq<Seq<u8>>, seed: u64) -> Set<(u32, Seq<u8>)> {
    Set::new(|r: (u32, Seq<u8>)| tokens.contains(r.1) && hashing::token_bit(r.1, seed) == r.0)
}

/// Three sketches and three indexes over one stream of tokens.
#[derive(Clone, Debug, PartialEq, Eq)]
pub struct Ingest {
    pub hllsets: [HLLSet; 3],
    pub luts: [LutIndex; 3],
}

impl Ingest {
    pub open spec fn spec_lut(&self, i: int) -> Set<(u32, Seq<u8>)> {
        self.luts@[i]@
    }

    /// The state after the given tokens.
    pub open spec fn holds(&self, tokens: Seq<Seq<u8>>) -> bool {
        forall|i: int|
            0 <= i < 3 ==> (#[trigger] self.hllsets@[i])@ == hllset::token_bits(tokens, i as u64) && self.spec_lut(i) == token_rows(
                tokens,
                i as u64,
            )
    }

    pub fn new() -> (g: Ingest)
        ensures
            g.holds(Seq::empty()),
    {
        let g = Ingest {
            hllsets: [HLLSet::new(), HLLSet::new(), HLLSet::new()],
            luts: [LutIndex::new(), LutIndex::new(), LutIndex::new()],
        };
        proof {
            assert forall|i: int| 0 <= i < 3 implies (#[trigger] g.hllsets@[i])@ == hllset::token_bits(Seq::empty(), i as u64)
                && g.spec_lut(i) == token_rows(Seq::empty(), i as u64) by {
                assert(g.hllsets@[i]@ =~= hllset::token_bits(Seq::empty(), i as u64));
                assert(g.spec_lut(i) =~= token_rows(Seq::empty(), i as u64));
            }
        }
        g
    }

    /// Ingests one token under every seed.
    pub fn ingest_token(&mut self, token: &[u8])
        ensures
            forall|tokens: Seq<Seq<u8>>| #[trigger] old(self).holds(tokens) ==> final(self).holds(tokens.push(token@)),
    {
        let ghost before = *self;
        let b0 = BitAddress::of_token_seeded(token, 0).bit();
        let b1 = BitAddress::of_token_seeded(token, 1).bit();
        let b2 = BitAddress::of_token_seeded(token, 2).bit();
        self.hllsets[0].add_bit(b0);
        self.hllsets[1].add_bit(b1);
        self.hllsets[2].add_bit(b2);
        self.luts[0].insert_token_at(lut::copy_bytes(token), b0);
        self.luts[1].insert_token_at(lut::copy_bytes(token), b1);
        self.luts[2].insert_token_at(lut::copy_bytes(token), b2);
        proof {
            assert forall|tokens: Seq<Seq<u8>>| #[trigger] before.holds(tokens) implies self.holds(
                tokens.push(token@),
            ) by {
                let more = tokens.push(token@);
                assert(more.take(tokens.len() as int) =~= tokens);
                assert(more.take(tokens.len() as int + 1) =~= more);
                assert forall|i: int| 0 <= i < 3 implies (#[trigger] self.hllsets@[i])@ == hllset::token_bits(more, i as u64)
                    && self.spec_lut(i) == token_rows(more, i as u64) by {
                    assert(before.hllsets@[i]@ == hllset::token_bits(tokens, i as u64));
                    hllset::token_bits_push(more, tokens.len() as int, i as u64);
                    rows_push(tokens, token@, i as u64);
                    assert(self.spec_lut(i) =~= before.spec_lut(i).insert((hashing::token_bit(token@, i as u64), token@)));
                }
            }
        }
    }

    /// Ingests a list of tokens.
    pub fn ingest_tokens(&mut self, tokens: &Vec<Vec<u8>>)
        ensures
            forall|seen: Seq<Seq<u8>>|
                #[trigger] old(self).holds(seen) ==> final(self).holds(seen + hllset::token_views(tokens@)),
    {
        let ghost before = *self;
        let ghost all = hllset::token_views(tokens@);
        let mut i: usize = 0;
        proof {
            assert forall|seen: Seq<Seq<u8>>| #[trigger] before.holds(seen) implies self.holds(seen + all.take(0)) by {
                assert(seen + all.take(0) =~= seen);
            }
        }
        while i < tokens.len()
            invariant
                i <= tokens.len(),
                all == hllset::token_views(tokens@),
                forall|seen: Seq<Seq<u8>>| #[trigger] before.holds(seen) ==> self.holds(seen + all.take(i as int)),
            decreases tokens.len() - i,
        {
            let ghost mid = *self;
            self.ingest_token(tokens[i].as_slice());
            proof {
                assert forall|seen: Seq<Seq<u8>>| #[trigger] before.holds(seen) implies self.holds(
                    seen + all.take(i as int + 1),
                ) by {
                    assert(mid.holds(seen + all.take(i as int)));
                    assert((seen + all.take(i as int)).push(tokens@[i as int]@) =~= seen + all.take(i as int + 1));
                }
            }
            i = i + 1;
        }
        proof {
            assert(all.take(i as int) =~= all);
        }
    }

    /// The ingest of a list of tokens.
    pub fn of_tokens(tokens: &Vec<Vec<u8>>) -> (g: Ingest)
        ensures
            g.holds(hllset::token_views(tokens@)),
    {
        let mut g = Ingest::new();
        g.ingest_tokens(tokens);
        proof {
            assert(Seq::<Seq<u8>>::empty() + hllset::token_views(tokens@) =~= hllset::token_views(tokens@));
        }
        g
    }

    /// The sketch of a seed.
    pub fn hllset(&self, i: usize) -> (s: &HLLSet)
        requires
            i < 3,
        ensures
            *s == self.hllsets@[i as int],
    {
        &self.hllsets[i]
    }

    /// The index of a seed.
    pub fn lut(&self, i: usize) -> (l: &LutIndex)
        requires
            i < 3,
        ensures
            l@ == self.spec_lut(i as int),
    {
        &self.luts[i]
    }

    pub open spec fn spec_projection(&self) -> Set<u32> {
        self.hllsets@[0]@.union(self.hllsets@[1]@).union(self.hllsets@[2]@)
    }

    /// The union of the three sketches.
    pub fn projection(&self) -> (s: HLLSet)
        ensures
            s@ == self.spec_projection(),
    {
        self.hllsets[0].union(&self.hllsets[1]).union(&self.hllsets[2])
    }

    /// The key of the projection.
    pub fn key(&self) -> (key: String)
        ensures
            key@ == hllset::combined_key_of(self.spec_projection()),
    {
        self.projection().content_key_c()
    }
}

/// One more token pairs its bit with it.
proof fn rows_push(tokens: Seq<Seq<u8>>, t: Seq<u8>, seed: u64)
    ensures
        token_rows(tokens.push(t), seed) == token_rows(tokens, seed).insert((hashing::token_bit(t, seed), t)),
{
    let more = tokens.push(t);
    assert forall|r: (u32, Seq<u8>)| token_rows(more, seed).contains(r) == token_rows(tokens, seed).insert(
        (hashing::token_bit(t, seed), t),
    ).contains(r) by {
        if more.contains(r.1) {
            let i = choose|i: int| 0 <= i < more.len() && more[i] == r.1;
            if i < tokens.len() {
                assert(tokens[i] == r.1);
            }
        }
        if tokens.contains(r.1) {
            let i = choose|i: int| 0 <= i < tokens.len() && tokens[i] == r.1;
            assert(more[i] == r.1);
        }
        assert(more[tokens.len() as int] == t);
    }
    assert(token_rows(more, seed) =~= token_rows(tokens, seed).insert((hashing::token_bit(t, seed), t)));
}

/// The tokens that a gated set selects from the three indexes of an ingest, of
/// those allowed.
pub open spec fn gated_tokens(
    g: Ingest,
    gated: Set<u32>,
    allowed: Option<Set<Seq<u8>>>,
) -> Set<Seq<u8>> {
    Set::new(
        |t: Seq<u8>|
            (exists|i: int| 0 <= i < 3 && #[trigger] lut::selected(gated, g.spec_lut(i)).contains(t)) && (allowed is Some
                ==> allowed->0.contains(t)),
    )
}

/// The tokens behind a gated set, of those allowed.
pub fn ingest_gated_set(g: &Ingest, gated: &HLLSet, allowed: Option<&TokenSet>) -> (tokens: TokenSet)
    requires
        allowed is Some ==> allowed->0.wf(),
    ensures
        tokens.wf(),
        tokens@ == gated_tokens(*g, gated@, match allowed { Some(a) => Some(a@), None => None }),
{
    let mut all = TokenSet::new();
    lut::select_into(&mut all, gated, &g.luts[0]);
    lut::select_into(&mut all, gated, &g.luts[1]);
    lut::select_into(&mut all, gated, &g.luts[2]);
    proof {
        assert forall|t: Seq<u8>| all@.contains(t) == (exists|i: int|
            0 <= i < 3 && #[trigger] lut::selected(gated@, g.spec_lut(i)).contains(t)) by {
            assert(lut::selected(gated@, g.spec_lut(0)) == lut::selected(gated@, g.luts@[0]@));
            assert(lut::selected(gated@, g.spec_lut(1)) == lut::selected(gated@, g.luts@[1]@));
            assert(lut::selected(gated@, g.spec_lut(2)) == lut::selected(gated@, g.luts@[2]@));
        }
    }
    match allowed {
        None => {
            proof {
                assert(all@ =~= gated_tokens(*g, gated@, None));
            }
            all
        },
        Some(set) => {
            let list = all.to_vec();
            let ghost names = hllset::token_views(list@);
            let mut out = TokenSet::new();
            let mut i: usize = 0;
            proof {
                all.list_facts();
                assert(names.take(0) =~= Seq::<Seq<u8>>::empty());
            }
            while i < list.len()
                invariant
                    i <= list.len(),
                    out.wf(),
                    set.wf(),
                    names == hllset::token_views(list@),
                    forall|t: Seq<u8>|
                        #[trigger] out@.contains(t) == (names.take(i as int).contains(t) && set@.contains(t)),
                decreases list.len() - i,
            {
                let ghost before = out@;
                if set.contains(list[i].as_slice()) {
                    out.insert(lut::copy_bytes(list[i].as_slice()));
                }
                proof {
                    let a = names.take(i as int);
                    let b = names.take(i as int + 1);
                    assert(b =~= a.push(names[i as int]));
                    hllset_lut::set_of_push(a, names[i as int]);
                    assert forall|t: Seq<u8>| #[trigger] out@.contains(t) == (b.contains(t) && set@.contains(t)) by {
                        assert(b.to_set().contains(t) == a.to_set().insert(names[i as int]).contains(t));
                        assert(before.contains(t) == (a.contains(t) && set@.contains(t)));
                    }
                }
                i = i + 1;
            }
            proof {
                assert(names.take(i as int) =~= names);
                assert forall|t: Seq<u8>| out@.contains(t) == gated_tokens(*g, gated@, Some(set@)).contains(t) by {
                    assert(names.to_set().contains(t) == all@.contains(t));
                }
                assert(out@ =~= gated_tokens(*g, gated@, Some(set@)));
            }
            out
        },
    }
}

/// The tokens behind a gated set are those that some of the three indexes has under a
/// bit of the set; where only some are allowed, those of them.
pub proof fn gated_law(g: Ingest, gated: Set<u32>, allowed: Set<Seq<u8>>, t: Seq<u8>)
    ensures
        gated_tokens(g, gated, None).contains(t) <==> exists|i: int, b: u32|
            0 <= i < 3 && gated.contains(b) && #[trigger] g.luts@[i]@.contains((b, t)),
        gated_tokens(g, gated, Some(allowed)).contains(t) <==> gated_tokens(g, gated, None).contains(t) && allowed.contains(t),
{
    if gated_tokens(g, gated, None).contains(t) {
        let i = choose|i: int| 0 <= i < 3 && #[trigger] lut::selected(gated, g.spec_lut(i)).contains(t);
        lut::selection_law(gated, g.spec_lut(i), 0, t);
        let b = choose|c: u32| #[trigger] gated.contains(c) && g.spec_lut(i).contains((c, t));
        assert(g.luts@[i]@.contains((b, t)));
    }
    if exists|i: int, b: u32| 0 <= i < 3 && gated.contains(b) && #[trigger] g.luts@[i]@.contains((b, t)) {
        let (i, b) = choose|i: int, b: u32| 0 <= i < 3 && gated.contains(b) && #[trigger] g.luts@[i]@.contains((b, t));
        lut::selection_law(gated, g.spec_lut(i), b, t);
        assert(lut::selected(gated, g.spec_lut(i)).contains(t));
    }
}

/// An ingest of tokens marks, in each of its three sets, the bit of every token under
/// the seed of that set, and no other; its index has every token under that bit.
pub proof fn holding_law(g: Ingest, tokens: Seq<Seq<u8>>, i: int, x: u32, t: Seq<u8>)
    requires
        g.holds(tokens),
        0 <= i < 3,
    ensures
        g.hllsets@[i]@.contains(x) <==> exists|j: int| 0 <= j < tokens.len() && x == hashing::token_bit(#[trigger] tokens[j], i as u64),
        g.luts@[i]@.contains((x, t)) <==> tokens.contains(t) && x == hashing::token_bit(t, i as u64),
        g.spec_projection().contains(x) <==> g.hllsets@[0]@.contains(x) || g.hllsets@[1]@.contains(x) || g.hllsets@[2]@.contains(x),
{
    assert(g.hllsets@[i]@ == hllset::token_bits(tokens, i as u64));
    assert(g.spec_lut(i) == token_rows(tokens, i as u64));
}

} // verus!
