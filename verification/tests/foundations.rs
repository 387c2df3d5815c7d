use ewm_state_machine::digest::sha1_hex;
use ewm_state_machine::git::loose::{parse_head, LooseStore};
use ewm_state_machine::git::object::ObjectId;
use ewm_state_machine::git::repo::ContextWarning;
use ewm_state_machine::git::sentence::{lattice_state, sentence_tokens};
use ewm_state_machine::git::store::StoreError;
use ewm_state_machine::hashing::{murmur3_hash_seeded, BitAddress};
use ewm_state_machine::hllset::HLLSet;
use ewm_state_machine::machine::token::TokenEncoding;
use ewm_state_machine::machine::turn::AppError;
use ewm_state_machine::ops::expr::EvalError;
use ewm_state_machine::random::next_u64;
use ewm_state_machine::text::{decimal_string, parse_decimal, split_pieces, split_words, string_of, trim};

fn set(bits: impl Iterator<Item = u32>) -> HLLSet {
    let mut h = HLLSet::new();
    for b in bits {
        h.add_bit(b);
    }
    h
}

fn chars(s: &str) -> Vec<char> {
    s.chars().collect()
}

#[test]
fn digests_are_sha1_in_hex() {
    assert_eq!(sha1_hex(b"abc"), "a9993e364706816aba3e25717850c26c9cd0d89d");
    assert_eq!(sha1_hex(b""), "da39a3ee5e6b4b0d3255bfef95601890afd80709");
}

#[test]
fn the_empty_set_has_eight_bytes() {
    let empty = HLLSet::new();
    assert_eq!(empty.to_bytes(), vec![58, 48, 0, 0, 0, 0, 0, 0]);
    assert_eq!(empty.content_key(), "h:7c28072cc1cad49b6cd5e5a0ba5c8398871231e5");
    assert!(empty.is_empty());
}

#[test]
fn small_sets_are_listed() {
    let s = set([3, 300].into_iter());
    assert_eq!(
        s.to_bytes(),
        vec![58, 48, 0, 0, 1, 0, 0, 0, 0, 0, 1, 0, 16, 0, 0, 0, 3, 0, 44, 1]
    );
    assert_eq!(HLLSet::from_bytes(&s.to_bytes()), Some(s));
}

#[test]
fn large_sets_are_bitmaps() {
    let listed = set(0..4096);
    assert_eq!(listed.to_bytes().len(), 16 + 2 * 4096);
    let mapped = set(0..4097);
    let bytes = mapped.to_bytes();
    assert_eq!(bytes.len(), 16 + 8192);
    assert_eq!(bytes[16], 255);
    assert_eq!(bytes[16 + 512], 1);
    assert_eq!(bytes[16 + 513], 0);
    let back = HLLSet::from_bytes(&bytes).expect("a set's own bytes");
    assert_eq!(back.popcount(), 4097);
    assert_eq!(back, mapped);
    assert_eq!(HLLSet::from_bytes(&listed.to_bytes()), Some(listed));
}

#[test]
fn other_bytes_hold_no_set() {
    assert_eq!(HLLSet::from_bytes(&[]), None);
    assert_eq!(HLLSet::from_bytes(&[58, 48, 0, 0]), None);
    let mut bytes = set([3, 300].into_iter()).to_bytes();
    bytes.push(0);
    assert_eq!(HLLSet::from_bytes(&bytes), None);
}

#[test]
fn the_stream_of_numbers_is_fixed() {
    let mut state = 1u64;
    assert_eq!(next_u64(&mut state), 1082269761);
    assert_eq!(next_u64(&mut state), 1152992998833853505);
    let mut other = 42u64;
    assert_eq!(next_u64(&mut other), 45454805674);
    assert_eq!(other, 45454805674);
    let mut zero = 0u64;
    assert_eq!(next_u64(&mut zero), 0);
}

#[test]
fn addresses_lie_on_the_plane() {
    for (token, seed) in [("", 0u64), ("tid1", 1), ("a longer token", 7)] {
        let a = BitAddress::of_token_seeded(token.as_bytes(), seed);
        assert_eq!(a, BitAddress::of_hash(murmur3_hash_seeded(token.as_bytes(), seed)));
        assert_eq!(a.bit(), a.reg() * 32 + a.tz());
        assert!(a.bit() < 32768);
    }
}

#[test]
fn loose_files_stand_under_the_first_two_characters() {
    let store = LooseStore::new("/tmp/repo");
    let a = ObjectId("ab12".to_string());
    let b = ObjectId("ab13".to_string());
    assert_eq!(store.objects_dir(), "/tmp/repo/objects");
    assert_eq!(store.path_for(&a), "/tmp/repo/objects/ab/12");
    assert_ne!(store.path_for(&a), store.path_for(&b));
    assert_eq!(store.head_path(), "/tmp/repo/HEAD");
}

#[test]
fn heads_are_read_from_their_text() {
    let digest = "a9993e364706816aba3e25717850c26c9cd0d89d";
    assert_eq!(parse_head(&format!("  {digest}\n")), Some(ObjectId(digest.to_string())));
    assert_eq!(parse_head(""), None);
    assert_eq!(parse_head("not a digest"), None);
}

#[test]
fn errors_are_told_in_words() {
    let id = ObjectId("a9993e364706816aba3e25717850c26c9cd0d89d".to_string());
    assert_eq!(StoreError::NotFound(id.clone()).message(), "object not found: a9993e36");
    assert_eq!(StoreError::Io("full".to_string()).message(), "io error: full");
    assert_eq!(AppError::from(StoreError::Io("full".to_string())).message(), "store error: io error: full");
    assert_eq!(AppError::Other("no turn".to_string()).message(), "no turn");
    assert_eq!(
        ContextWarning { bits: 12, warn_above: 10 }.message(),
        "context at 12 bits (warn_above 10): consider compression"
    );
}

#[test]
fn faults_of_programs_are_told_in_words() {
    let op = "p:1".to_string();
    assert_eq!(EvalError::Parse("x".to_string()).message(), "parse error: x");
    assert_eq!(EvalError::UnknownWord("x".to_string()).message(), "unknown word: x");
    assert_eq!(EvalError::StackUnderflow.message(), "stack underflow");
    assert_eq!(
        EvalError::ArityMismatch { op: op.clone(), expected: 2, got: 1 }.message(),
        "arity mismatch for p:1: expected 2, got 1"
    );
    assert_eq!(
        EvalError::OutputMismatch { op: op.clone(), expected: 1, got: 3 }.message(),
        "output mismatch for p:1: expected 1, got 3"
    );
    assert_eq!(EvalError::MissingValue("h:1".to_string()).message(), "missing value: h:1");
    assert_eq!(EvalError::MissingOp(op.clone()).message(), "missing op: p:1");
    assert_eq!(EvalError::InputNotFilled { op, port: 4 }.message(), "input port not filled: p:1[4]");
    assert_eq!(EvalError::CallDepthExceeded(129).message(), "call depth exceeded at 129");
}

#[test]
fn encodings_are_apart() {
    assert_eq!(TokenEncoding::Tid.encode(7), b"tid7".to_vec());
    assert_eq!(TokenEncoding::Le.encode(7), vec![7, 0, 0, 0]);
    assert_eq!(TokenEncoding::Tid.parse(b"tid4294967295"), Some(u32::MAX));
    assert_eq!(TokenEncoding::Tid.parse(b"tid4294967296"), None);
    assert_eq!(TokenEncoding::Tid.parse(b"7"), None);
    assert_eq!(TokenEncoding::Le.parse(&[1, 2, 3]), None);
}

#[test]
fn texts_are_cut_and_read() {
    assert_eq!(decimal_string(0), "0");
    assert_eq!(decimal_string(u64::MAX), "18446744073709551615");
    assert_eq!(parse_decimal(&chars("18446744073709551615"), u64::MAX), Some(u64::MAX));
    assert_eq!(parse_decimal(&chars("18446744073709551616"), u64::MAX), None);
    assert_eq!(parse_decimal(&chars(""), 9), None);
    let words: Vec<String> = split_words(&chars("  a\tbc  ")).iter().map(|w| string_of(w)).collect();
    assert_eq!(words, vec!["a", "bc"]);
    let pieces: Vec<String> = split_pieces(&chars("a;;b"), ';').iter().map(|w| string_of(w)).collect();
    assert_eq!(pieces, vec!["a", "", "b"]);
    assert_eq!(string_of(trim(&chars(" \n x y \t"))), "x y");
}

#[test]
fn sentences_are_lines_with_words() {
    let sentences = sentence_tokens("one two\n\n   \n three one\n");
    assert_eq!(
        sentences,
        vec![vec![b"one".to_vec(), b"two".to_vec()], vec![b"three".to_vec(), b"one".to_vec()]]
    );
    let state = lattice_state(&sentences[0]);
    assert_eq!(state.g1, HLLSet::from_tokens_seeded(&sentences[0], 0));
    assert_eq!(state.g2, HLLSet::from_tokens_seeded(&sentences[0], 1));
    assert_eq!(state.g3, HLLSet::from_tokens_seeded(&sentences[0], 2));
    assert_eq!(state.tf.active_bits() as u64, state.g1.popcount());
    assert!(sentence_tokens(" \n").is_empty());
}
