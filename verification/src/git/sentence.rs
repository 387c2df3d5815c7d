//! Sentences as lattice states: one line a sentence, one word a token.

use vstd::prelude::*;

use crate::git::registry::BitTf;
use crate::git::repo::LatticeState;
use crate::hllset::HLLSet;
use crate::text;
use crate::git::intake;
use crate::git::registry;
use crate::hllset;

verus! {

/// The tokens of the words of a line.
pub open spec fn line_tokens(line: Seq<char>) -> Seq<Seq<u8>> {
    text::words(line).map_values(|w: Seq<char>| text::utf8(w))
}

/// The sentences among a list of lines; lines without words are passed over.
pub open spec fn sentences_among(lines: Seq<Seq<char>>) -> Seq<Seq<Seq<u8>>>
    decreases lines.len(),
{
    if lines.len() == 0 {
        Seq::empty()
    } else {
        let earlier = sentences_among(lines.drop_last());
        if line_tokens(lines.last()).len() > 0 {
            earlier.push(line_tokens(lines.last()))
        } else {
            earlier
        }
    }
}

/// The views of a list of sentences.
pub open spec fn sentence_views(sentences: Seq<Vec<Vec<u8>>>) -> Seq<Seq<Seq<u8>>> {
    sentences.map_values(|s: Vec<Vec<u8>>| hllset::token_views(s@))
}

/// The sketch of a list of tokens with one seed.
pub fn hllset_seeded(tokens: &Vec<Vec<u8>>, seed: u64) -> (s: HLLSet)
    ensures
        s@ == hllset::token_bits(hllset::token_views(tokens@), seed),
{
    HLLSet::from_tokens_seeded(tokens, seed)
}

/// The state of a list of tokens: a channel for each seed, and the counts of the
/// first.
pub fn lattice_state(tokens: &Vec<Vec<u8>>) -> (s: LatticeState)
    ensures
        s.tf.wf(),
        s.sets() == intake::sketches(hllset::token_views(tokens@)),
        s.tf@ == registry::bumped(Seq::new(crate::hashing::PLANE as nat, |i: int| 0u64), hllset::token_bits(hllset::token_views(tokens@), 0)),
{
    let g1 = hllset_seeded(tokens, 0);
    let g2 = hllset_seeded(tokens, 1);
    let g3 = hllset_seeded(tokens, 2);
    let mut tf = BitTf::new();
    tf.touch(&g1);
    LatticeState { g1, g2, g3, tf }
}

/// The words of a line as tokens.
fn tokens_of_line(line: &[char]) -> (tokens: Vec<Vec<u8>>)
    ensures
        hllset::token_views(tokens@) == line_tokens(line@),
{
    let words = text::split_words(line);
    let mut tokens: Vec<Vec<u8>> = Vec::new();
    let mut i: usize = 0;
    while i < words.len()
        invariant
            i <= words@.len(),
            tokens@.len() == i,
            forall|j: int| 0 <= j < i ==> (#[trigger] tokens@[j])@ == text::utf8(words@[j]@),
        decreases words.len() - i,
    {
        let word = text::string_of(words[i].as_slice());
        tokens.push(vstd::slice::slice_to_vec(word.as_str().as_bytes()));
        i = i + 1;
    }
    proof {
        assert(text::word_views(words@) == text::words(line@));
        assert forall|j: int| 0 <= j < words@.len() implies words@[j]@ == text::words(line@)[j] by {}
        assert(hllset::token_views(tokens@) =~= line_tokens(line@));
    }
    tokens
}

/// The sentences of a text: the words of each line that has any.
pub fn sentence_tokens(text: &str) -> (sentences: Vec<Vec<Vec<u8>>>)
    ensures
        sentence_views(sentences@) == sentences_among(text::pieces(text@, '\n')),
{
    let chars = text::chars_of(text);
    let lines = text::split_pieces(chars.as_slice(), '\n');
    let ghost all = text::pieces(text@, '\n');
    let mut sentences: Vec<Vec<Vec<u8>>> = Vec::new();
    let mut i: usize = 0;
    while i < lines.len()
        invariant
            i <= lines@.len(),
            text::word_views(lines@) == all,
            sentence_views(sentences@) == sentences_among(all.take(i as int)),
        decreases lines.len() - i,
    {
        let ghost before = sentences@;
        let tokens = tokens_of_line(lines[i].as_slice());
        proof {
            assert(all[i as int] == lines@[i as int]@);
            assert(all.take(i as int + 1).drop_last() =~= all.take(i as int));
            assert(all.take(i as int + 1).last() == all[i as int]);
            assert(hllset::token_views(tokens@).len() == tokens@.len());
        }
        if tokens.len() > 0 {
            sentences.push(tokens);
            proof {
                assert(sentence_views(sentences@) =~= sentence_views(before).push(hllset::token_views(tokens@)));
            }
        }
        i = i + 1;
    }
    proof {
        assert(all.take(i as int) =~= all);
    }
    sentences
}

/// The sentences of a text are its lines that have words, in order, each as its words.
pub proof fn sentences_law(lines: Seq<Seq<char>>, line: Seq<char>)
    ensures
        sentences_among(Seq::empty()) == Seq::<Seq<Seq<u8>>>::empty(),
        text::words(line).len() == 0 ==> sentences_among(lines.push(line)) == sentences_among(lines),
        text::words(line).len() > 0 ==> sentences_among(lines.push(line)).len() == sentences_among(lines).len() + 1
            && sentences_among(lines.push(line)).drop_last() == sentences_among(lines) && sentences_among(
            lines.push(line),
        ).last().len() == text::words(line).len() && forall|i: int|
            0 <= i < text::words(line).len() ==> sentences_among(lines.push(line)).last()[i] == text::utf8(
                #[trigger] text::words(line)[i],
            ),
{
    assert(lines.push(line).drop_last() =~= lines);
    assert(sentences_among(lines).push(line_tokens(line)).drop_last() =~= sentences_among(lines));
}

} // verus!
