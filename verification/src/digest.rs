//! Content digests: SHA-1 and its lowercase hexadecimal form.

use sha1::{Digest, Sha1};
use vstd::prelude::*;

verus! {

/// The SHA-1 digest of a byte string, as the `sha1` crate computes it.
pub uninterp spec fn sha1_of(data: Seq<u8>) -> Seq<u8>;

/// The lowercase hexadecimal digit of a value below sixteen.
pub open spec fn hex_digit(d: int) -> char {
    if d < 10 {
        (48 + d) as char
    } else {
        (87 + d) as char
    }
}

/// Two lowercase hexadecimal digits per byte, high half first.
pub open spec fn hex_of(data: Seq<u8>) -> Seq<char> {
    Seq::new(
        2 * data.len(),
        |i: int| hex_digit(if i % 2 == 0 { data[i / 2] as int / 16 } else { data[i / 2] as int % 16 }),
    )
}

/// The hexadecimal SHA-1 of a byte string.
pub open spec fn sha1_text(data: Seq<u8>) -> Seq<char> {
    hex_of(sha1_of(data))
}

/// Calls `Sha1::digest` of the `sha1` crate. Claimed of it: the result depends
/// on the bytes alone and is twenty bytes long.
#[verifier::external_body]
fn sha1_digest(data: &[u8]) -> (digest: Vec<u8>)
    ensures
        digest@ == sha1_of(data@),
        digest@.len() == 20,
{
    Sha1::digest(data).to_vec()
}

/// Calls `hex::encode` of the `hex` crate. Claimed of it: two lowercase digits
/// for each byte, the high half first.
#[verifier::external_body]
fn hex_encode(data: &[u8]) -> (text: String)
    ensures
        text@ == hex_of(data@),
{
    hex::encode(data)
}

/// The hexadecimal SHA-1 of a byte string: forty lowercase digits.
pub fn sha1_hex(data: &[u8]) -> (text: String)
    ensures
        text@ == sha1_text(data@),
        text@.len() == 40,
        forall|i: int| 0 <= i < 40 ==> is_hex_char(#[trigger] text@[i]),
{
    let digest = sha1_digest(data);
    let text = hex_encode(digest.as_slice());
    proof {
        assert forall|i: int| 0 <= i < 40 implies is_hex_char(#[trigger] text@[i]) by {
            let b = sha1_of(data@)[i / 2] as int;
            assert(0 <= b / 16 < 16 && 0 <= b % 16 < 16);
        }
    }
    text
}

/// A hexadecimal text has as many bytes as digits.
pub proof fn hex_bytes(s: Seq<char>)
    requires
        forall|i: int| 0 <= i < s.len() ==> is_hex_char(#[trigger] s[i]),
    ensures
        vstd::utf8::encode_utf8(s).len() == s.len(),
{
    assert(vstd::utf8::is_ascii_chars(s));
    vstd::utf8::is_ascii_chars_encode_utf8(s);
}

/// An ASCII hexadecimal digit of either case.
pub open spec fn is_hex_char(c: char) -> bool {
    ('0' <= c && c <= '9') || ('a' <= c && c <= 'f') || ('A' <= c && c <= 'F')
}

/// Whether a character is an ASCII hexadecimal digit.
pub fn hex_char(c: char) -> (yes: bool)
    ensures
        yes == is_hex_char(c),
{
    ('0' <= c && c <= '9') || ('a' <= c && c <= 'f') || ('A' <= c && c <= 'F')
}

} // verus!
