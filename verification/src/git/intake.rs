//! Ingestion of token streams into the three channels, with running counts.

use vstd::prelude::*;

use crate::hllset::HLLSet;
use crate::lut::TokenSet;
use crate::morphisms::ingest::Ingest;
use crate::tf::TFVec;
use crate::tf::TfTable;
use crate::digest;
use crate::git::registry;
use crate::hllset;
use crate::lut;
use crate::morphisms::hllset_lut;
use crate::tf;

verus! {

/// What wants to see the sketches of an ingestion.
pub trait IngestSink {
    /// The sketches shown so far, with their digests.
    spec fn shown(&self) -> Seq<(Set<u32>, Seq<char>)>;

    fn on_original(&mut self, hllset: &HLLSet, sha1: String)
        ensures
            final(self).shown() == old(self).shown().push((hllset@, sha1@)),
    ;
}

/// A sink that keeps what it is shown.
#[derive(Clone, Debug, PartialEq, Eq)]
pub struct OriginalList {
    pub items: Vec<(HLLSet, String)>,
}

impl IngestSink for OriginalList {
    open spec fn shown(&self) -> Seq<(Set<u32>, Seq<char>)> {
        self.items@.map_values(|p: (HLLSet, String)| (p.0@, p.1@))
    }

    fn on_original(&mut self, hllset: &HLLSet, sha1: String) {
        let ghost before = self.shown();
        self.items.push((*hllset, sha1));
        proof {
            assert(self.shown() =~= before.push((hllset@, sha1@)));
        }
    }
}

/// The numbers of one pass.
#[derive(Clone, Copy, Debug, PartialEq, Eq, Structural)]
pub struct IngestStats {
    pub tokens: u64,
    pub new_lut_entries: u64,
    pub channels: usize,
    pub active_bits: u64,
}

/// What one pass gives.
#[derive(Clone, Debug, PartialEq, Eq)]
pub struct IngestOutput {
    pub stats: IngestStats,
    pub channels: Vec<HLLSet>,
}

/// An ingestion over many passes.
#[derive(Clone, Debug, PartialEq, Eq)]
pub struct Ingestor {
    seeds: Vec<u64>,
    seen: TokenSet,
    token_tf: TfTable,
    bit_tf: TFVec,
    total_tokens: u64,
    total_new_entries: u64,
}

/// The sketches of a list of tokens.
pub open spec fn sketches(tokens: Seq<Seq<u8>>) -> Seq<Set<u32>> {
    seq![hllset::token_bits(tokens, 0), hllset::token_bits(tokens, 1), hllset::token_bits(tokens, 2)]
}

/// The digest of a sketch.
pub open spec fn sketch_digest(s: Set<u32>) -> Seq<char> {
    digest::sha1_text(hllset::set_bytes(s))
}

/// The larger of two counts.
pub open spec fn larger(a: nat, b: nat) -> nat {
    if a >= b {
        a
    } else {
        b
    }
}

/// Bit counts after one more touch of three sets.
pub open spec fn bumped3(counts: Seq<u64>, sets: Seq<Set<u32>>) -> Seq<u64> {
    registry::bumped(registry::bumped(registry::bumped(counts, sets[0]), sets[1]), sets[2])
}

impl Ingestor {
    pub closed spec fn spec_seeds(&self) -> Seq<u64> {
        self.seeds@
    }

    /// The tokens of all passes.
    pub closed spec fn spec_seen(&self) -> Set<Seq<u8>> {
        self.seen@
    }

    /// The count of a token over all passes.
    pub closed spec fn tally(&self, t: Seq<u8>) -> nat {
        self.token_tf.tally(t)
    }

    /// The bit counts.
    pub closed spec fn spec_bit_tf(&self) -> Seq<u64> {
        self.bit_tf@
    }

    pub closed spec fn spec_tokens(&self) -> nat {
        self.total_tokens as nat
    }

    pub closed spec fn spec_new_entries(&self) -> nat {
        self.total_new_entries as nat
    }

    pub closed spec fn parts_wf(&self) -> bool {
        self.seen.wf() && self.token_tf.wf() && self.bit_tf.wf()
    }

    /// No token was counted more often than there were tokens, and every token
    /// seen was new once.
    pub open spec fn wf(&self) -> bool {
        &&& self.parts_wf()
        &&& self.spec_seeds().len() >= 2
        &&& self.spec_bit_tf().len() == crate::hashing::PLANE
        &&& forall|t: Seq<u8>| #[trigger] self.tally(t) <= self.spec_tokens()
        &&& self.spec_tokens() <= u64::MAX
        &&& self.spec_seen().finite()
        &&& self.spec_new_entries() == self.spec_seen().len()
        &&& self.spec_new_entries() <= self.spec_tokens()
    }

    /// A fresh ingestor with at least two seeds.
    pub fn new(seeds: &[u64]) -> (g: Ingestor)
        requires
            seeds@.len() >= 2,
        ensures
            g.wf(),
            g.spec_seeds() == seeds@,
            g.spec_seen() == Set::<Seq<u8>>::empty(),
            forall|t: Seq<u8>| #[trigger] g.tally(t) == 0,
            g.spec_bit_tf() == Seq::new(crate::hashing::PLANE as nat, |i: int| 0u64),
            g.spec_tokens() == 0,
            g.spec_new_entries() == 0,
    {
        Ingestor {
            seeds: vstd::slice::slice_to_vec(seeds),
            seen: TokenSet::new(),
            token_tf: TfTable::new(),
            bit_tf: TFVec::new(),
            total_tokens: 0,
            total_new_entries: 0,
        }
    }

    /// The count of a token over all passes.
    pub fn token_tf(&self, token: &[u8]) -> (n: u64)
        requires
            self.wf(),
        ensures
            n == self.tally(token@),
    {
        self.token_tf.count(token)
    }

    /// The bit counts.
    pub fn bit_tf(&self) -> (t: &TFVec)
        requires
            self.wf(),
        ensures
            t.wf(),
            t@ == self.spec_bit_tf(),
    {
        &self.bit_tf
    }

    /// The number of tokens of all passes.
    pub fn total_tokens(&self) -> (n: u64)
        ensures
            n == self.spec_tokens(),
    {
        self.total_tokens
    }

    /// The number of distinct tokens of all passes.
    pub fn total_new_entries(&self) -> (n: u64)
        ensures
            n == self.spec_new_entries(),
    {
        self.total_new_entries
    }

    /// Counts the tokens of one pass.
    fn count_tokens(&mut self, tokens: &Vec<Vec<u8>>)
        requires
            old(self).wf(),
            old(self).spec_tokens() + tokens@.len() <= u64::MAX,
        ensures
            final(self).wf(),
            final(self).spec_seeds() == old(self).spec_seeds(),
            final(self).spec_bit_tf() == old(self).spec_bit_tf(),
            final(self).spec_seen() == old(self).spec_seen().union(hllset::token_views(tokens@).to_set()),
            forall|t: Seq<u8>|
                #[trigger] final(self).tally(t) == old(self).tally(t) + tf::occurrences(hllset::token_views(tokens@), t),
            final(self).spec_tokens() == old(self).spec_tokens() + tokens@.len(),
    {
        let ghost all = hllset::token_views(tokens@);
        let ghost before = *self;
        let mut i: usize = 0;
        proof {
            assert(all.take(0) =~= Seq::<Seq<u8>>::empty());
            assert(self.spec_seen() =~= before.spec_seen().union(all.take(0).to_set()));
        }
        while i < tokens.len()
            invariant
                i <= tokens.len(),
                all == hllset::token_views(tokens@),
                self.wf(),
                before.spec_tokens() + tokens@.len() <= u64::MAX,
                self.spec_seeds() == before.spec_seeds(),
                self.spec_bit_tf() == before.spec_bit_tf(),
                self.spec_seen() == before.spec_seen().union(all.take(i as int).to_set()),
                forall|t: Seq<u8>| #[trigger] self.tally(t) == before.tally(t) + tf::occurrences(all.take(i as int), t),
                self.spec_tokens() == before.spec_tokens() + i,
            decreases tokens.len() - i,
        {
            let ghost mid = *self;
            let ghost x = tokens@[i as int]@;
            proof {
                assert(self.tally(x) <= self.spec_tokens());
                assert(all.take(i as int + 1).drop_last() =~= all.take(i as int));
                assert(all.take(i as int + 1) =~= all.take(i as int).push(x));
                hllset_lut::set_of_push(all.take(i as int), x);
            }
            if !self.seen.contains(tokens[i].as_slice()) {
                self.total_new_entries = self.total_new_entries + 1;
                self.seen.insert(lut::copy_bytes(tokens[i].as_slice()));
            }
            self.token_tf.increment(tokens[i].as_slice());
            self.total_tokens = self.total_tokens + 1;
            proof {
                assert(self.spec_seen() =~= mid.spec_seen().insert(x));
                assert(self.spec_seen() =~= before.spec_seen().union(all.take(i as int + 1).to_set()));
                assert forall|t: Seq<u8>| #[trigger] self.tally(t) == before.tally(t) + tf::occurrences(
                    all.take(i as int + 1),
                    t,
                ) && self.tally(t) <= self.spec_tokens() by {
                    assert(mid.tally(t) == before.tally(t) + tf::occurrences(all.take(i as int), t));
                    assert(mid.tally(t) <= mid.spec_tokens());
                }
            }
            i = i + 1;
        }
        proof {
            assert(all.take(i as int) =~= all);
        }
    }

    /// Counts one more touch of the members of three sets.
    fn bump_bits(&mut self, h0: &HLLSet, h1: &HLLSet, h2: &HLLSet)
        requires
            old(self).wf(),
            forall|i: int| 0 <= i < old(self).spec_bit_tf().len() ==> #[trigger] old(self).spec_bit_tf()[i] <= u64::MAX - 3,
        ensures
            final(self).wf(),
            final(self).spec_seeds() == old(self).spec_seeds(),
            final(self).spec_seen() == old(self).spec_seen(),
            forall|t: Seq<u8>| #[trigger] final(self).tally(t) == old(self).tally(t),
            final(self).spec_tokens() == old(self).spec_tokens(),
            final(self).spec_bit_tf() == bumped3(old(self).spec_bit_tf(), seq![h0@, h1@, h2@]),
            final(self).total_tokens == old(self).total_tokens,
            final(self).total_new_entries == old(self).total_new_entries,
    {
        let ghost before = *self;
        let ghost bits = self.spec_bit_tf();
        proof {
            assert forall|i: int| 0 <= i < self.bit_tf.values@.len() implies #[trigger] self.bit_tf.values@[i] <= u64::MAX
                - 1 by {
                assert(bits[i] <= u64::MAX - 3);
            }
        }
        self.bit_tf.increment_from_hllset(h0, 1);
        let ghost b0 = self.bit_tf@;
        proof {
            assert(b0 =~= registry::bumped(bits, h0@));
            assert forall|i: int| 0 <= i < b0.len() implies #[trigger] b0[i] <= u64::MAX - 2 by {
                assert(bits[i] <= u64::MAX - 3);
            }
        }
        self.bit_tf.increment_from_hllset(h1, 1);
        let ghost b1 = self.bit_tf@;
        proof {
            assert(b1 =~= registry::bumped(b0, h1@));
            assert forall|i: int| 0 <= i < b1.len() implies #[trigger] b1[i] <= u64::MAX - 1 by {
                assert(b0[i] <= u64::MAX - 2);
            }
        }
        self.bit_tf.increment_from_hllset(h2, 1);
        proof {
            assert(self.bit_tf@ =~= registry::bumped(b1, h2@));
            assert forall|t: Seq<u8>| #[trigger] self.tally(t) == before.tally(t) by {}
            assert forall|t: Seq<u8>| #[trigger] self.tally(t) <= self.spec_tokens() by {
                assert(before.tally(t) <= before.spec_tokens());
            }
        }
    }

    /// Ingests one pass: counts its tokens, sketches them in three channels, and
    /// shows the sketches to the sink.
    pub fn ingest_stream<K: IngestSink>(&mut self, tokens: &Vec<Vec<u8>>, sink: &mut K) -> (out: IngestOutput)
        requires
            old(self).wf(),
            old(self).spec_tokens() + tokens@.len() <= u64::MAX,
            forall|i: int| 0 <= i < old(self).spec_bit_tf().len() ==> #[trigger] old(self).spec_bit_tf()[i] <= u64::MAX - 3,
        ensures
            final(self).wf(),
            final(self).spec_seeds() == old(self).spec_seeds(),
            final(self).spec_seen() == old(self).spec_seen().union(hllset::token_views(tokens@).to_set()),
            forall|t: Seq<u8>|
                #[trigger] final(self).tally(t) == old(self).tally(t) + tf::occurrences(hllset::token_views(tokens@), t),
            final(self).spec_bit_tf() == bumped3(old(self).spec_bit_tf(), sketches(hllset::token_views(tokens@))),
            final(self).spec_tokens() == old(self).spec_tokens() + tokens@.len(),
            out.channels@.len() == 3,
            forall|i: int| 0 <= i < 3 ==> (#[trigger] out.channels@[i])@ == sketches(hllset::token_views(tokens@))[i],
            out.stats.tokens == tokens@.len(),
            out.stats.new_lut_entries == final(self).spec_seen().len() - old(self).spec_seen().len(),
            out.stats.channels == old(self).spec_seeds().len(),
            out.stats.active_bits == larger(
                larger(sketches(hllset::token_views(tokens@))[0].len(), sketches(hllset::token_views(tokens@))[1].len()),
                sketches(hllset::token_views(tokens@))[2].len(),
            ),
            final(sink).shown() == old(sink).shown() + sketches(hllset::token_views(tokens@)).map_values(
                |s: Set<u32>| (s, sketch_digest(s)),
            ),
    {
        let ghost all = hllset::token_views(tokens@);
        let ghost shown = sink.shown();
        let entries_before = self.total_new_entries;
        let tokens_before = self.total_tokens;
        let ghost bits = self.spec_bit_tf();
        let ghost seen_before = self.spec_seen();
        self.count_tokens(tokens);
        let foundation = Ingest::of_tokens(tokens);
        let h0 = foundation.hllsets[0];
        let h1 = foundation.hllsets[1];
        let h2 = foundation.hllsets[2];
        proof {
            assert(foundation.hllsets@[0]@ == hllset::token_bits(all, 0));
            assert(foundation.hllsets@[1]@ == hllset::token_bits(all, 1));
            assert(foundation.hllsets@[2]@ == hllset::token_bits(all, 2));
        }
        self.bump_bits(&h0, &h1, &h2);
        proof {
            assert(sketches(all) =~= seq![h0@, h1@, h2@]);
            assert(self.spec_seen() == seen_before.union(all.to_set()));
        }
        sink.on_original(&h0, digest::sha1_hex(h0.to_bytes().as_slice()));
        sink.on_original(&h1, digest::sha1_hex(h1.to_bytes().as_slice()));
        sink.on_original(&h2, digest::sha1_hex(h2.to_bytes().as_slice()));
        proof {
            assert(sink.shown() =~= shown + sketches(all).map_values(|s: Set<u32>| (s, sketch_digest(s))));
            vstd::set_lib::lemma_len_subset(seen_before, self.spec_seen());
        }
        let mut most = h0.popcount();
        if h1.popcount() > most {
            most = h1.popcount();
        }
        if h2.popcount() > most {
            most = h2.popcount();
        }
        let stats = IngestStats {
            tokens: self.total_tokens - tokens_before,
            new_lut_entries: self.total_new_entries - entries_before,
            channels: self.seeds.len(),
            active_bits: most,
        };
        let mut channels: Vec<HLLSet> = Vec::new();
        channels.push(h0);
        channels.push(h1);
        channels.push(h2);
        IngestOutput { stats, channels }
    }
}

/// A pass repeated brings no new tokens.
pub proof fn repeated_pass(before: Set<Seq<u8>>, tokens: Seq<Seq<u8>>)
    requires
        before.finite(),
    ensures
        before.union(tokens.to_set()).finite(),
        before.union(tokens.to_set()).union(tokens.to_set()) == before.union(tokens.to_set()),
{
    vstd::seq_lib::seq_to_set_is_finite(tokens);
    assert(before.union(tokens.to_set()).union(tokens.to_set()) =~= before.union(tokens.to_set()));
}

/// The three sketches of a pass hold the bit of every token under their seed, and no
/// other; each bit is counted once for every sketch that holds it.
pub proof fn pass_law(tokens: Seq<Seq<u8>>, counts: Seq<u64>, i: int, g: int, x: u32)
    requires
        0 <= g < 3,
        0 <= i < counts.len() <= u32::MAX,
        counts[i] <= u64::MAX - 3,
    ensures
        sketches(tokens).len() == 3,
        sketches(tokens)[g].contains(x) <==> exists|j: int|
            0 <= j < tokens.len() && x == crate::hashing::token_bit(#[trigger] tokens[j], g as u64),
        bumped3(counts, sketches(tokens)).len() == counts.len(),
        bumped3(counts, sketches(tokens))[i] == counts[i] + Set::new(
            |k: int| 0 <= k < 3 && sketches(tokens)[k].contains(i as u32),
        ).len(),
{
    let s = sketches(tokens);
    let all = Set::new(|k: int| 0 <= k < 3 && s[k].contains(i as u32));
    let b = i as u32;
    registry::bumped_law(counts, s[0], i);
    registry::bumped_law(registry::bumped(counts, s[0]), s[1], i);
    registry::bumped_law(registry::bumped(registry::bumped(counts, s[0]), s[1]), s[2], i);
    let a = if s[0].contains(b) {
        set![0int]
    } else {
        Set::empty()
    };
    let c = if s[1].contains(b) {
        a.insert(1)
    } else {
        a
    };
    let d = if s[2].contains(b) {
        c.insert(2)
    } else {
        c
    };
    assert(all =~= d);
}

} // verus!
