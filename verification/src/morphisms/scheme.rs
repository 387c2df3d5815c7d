//! Scheme prefixes: content keys and table names of the two bootstrap schemes.

use vstd::prelude::*;
use vstd::string::*;
use crate::digest;
use crate::text;

verus! {

/// The n-gram scheme.
pub const NG: &'static str = "ng";

/// The n-seed scheme.
pub const NS: &'static str = "ns";

/// A content key with its scheme: `h:<prefix>:<sha1>`.
pub fn scheme_key(prefix: &str, sha1: &str) -> (key: String)
    ensures
        key@ == "h:"@ + prefix@ + ":"@ + sha1@,
{
    let head = text::concat3("h:", prefix, ":");
    text::concat2(head.as_str(), sha1)
}

/// Forty hexadecimal digits.
pub open spec fn is_sha1(s: Seq<char>) -> bool {
    s.len() == 40 && forall|i: int| 0 <= i < s.len() ==> digest::is_hex_char(#[trigger] s[i])
}

/// Where the text behind `h:` is split: at its first colon.
pub open spec fn split_at_colon(key: Seq<char>) -> int {
    text::next_char(key, 2, ':')
}

/// Whether a key has the form `h:<prefix>:<sha1>`.
pub open spec fn prefixed(key: Seq<char>) -> bool {
    &&& key.len() >= 2
    &&& key[0] == 'h'
    &&& key[1] == ':'
    &&& split_at_colon(key) < key.len()
    &&& is_sha1(key.skip(split_at_colon(key) + 1))
}

/// The prefix of a prefixed key.
pub open spec fn prefix_of(key: Seq<char>) -> Seq<char> {
    key.subrange(2, split_at_colon(key))
}

/// The digest of a prefixed key.
pub open spec fn sha1_of_key(key: Seq<char>) -> Seq<char> {
    key.skip(split_at_colon(key) + 1)
}

/// Whether a slice holds forty hexadecimal digits.
pub fn sha1_digits(s: &[char]) -> (yes: bool)
    ensures
        yes == is_sha1(s@),
{
    if s.len() != 40 {
        return false;
    }
    let mut i: usize = 0;
    while i < 40
        invariant
            i <= 40,
            s@.len() == 40,
            forall|j: int| 0 <= j < i ==> digest::is_hex_char(#[trigger] s@[j]),
        decreases 40 - i,
    {
        if !digest::hex_char(s[i]) {
            return false;
        }
        i = i + 1;
    }
    true
}

fn colon_of(chars: &[char]) -> (at: Option<usize>)
    ensures
        at is Some <==> prefixed(chars@),
        at is Some ==> at->0 as int == split_at_colon(chars@) && 2 <= at->0 < chars@.len(),
{
    if chars.len() < 2 || chars[0] != 'h' || chars[1] != ':' {
        return None;
    }
    let at = text::find_char(chars, 2, ':');
    if at >= chars.len() {
        return None;
    }
    if sha1_digits(text::tail_from(chars, at + 1)) {
        Some(at)
    } else {
        None
    }
}

/// The scheme prefix of a key; `None` for keys that are not prefixed.
pub fn key_scheme(key: &str) -> (prefix: Option<&str>)
    ensures
        prefix is Some <==> prefixed(key@),
        prefix is Some ==> prefix->0@ == prefix_of(key@),
{
    let chars = text::chars_of(key);
    match colon_of(chars.as_slice()) {
        Some(at) => Some(key.substring_char(2, at)),
        None => None,
    }
}

/// The digest of a key of one of the two schemes.
pub fn key_sha1(key: &str) -> (sha1: Option<&str>)
    ensures
        sha1 is Some <==> prefixed(key@) && (prefix_of(key@) == "ng"@ || prefix_of(key@) == "ns"@),
        sha1 is Some ==> sha1->0@ == sha1_of_key(key@),
{
    let chars = text::chars_of(key);
    match colon_of(chars.as_slice()) {
        Some(at) => {
            let prefix = key.substring_char(2, at);
            if text::same_text(prefix, "ng") || text::same_text(prefix, "ns") {
                let tail = key.substring_char(at + 1, chars.len());
                proof {
                    assert(tail@ =~= sha1_of_key(key@));
                }
                Some(tail)
            } else {
                None
            }
        },
        None => None,
    }
}

/// A scheme key is read back: its prefix, where that holds no colon, and its digest.
pub proof fn scheme_key_round_trip(prefix: Seq<char>, sha1: Seq<char>)
    requires
        forall|i: int| 0 <= i < prefix.len() ==> #[trigger] prefix[i] != ':',
        is_sha1(sha1),
    ensures
        prefixed("h:"@ + prefix + ":"@ + sha1),
        prefix_of("h:"@ + prefix + ":"@ + sha1) == prefix,
        sha1_of_key("h:"@ + prefix + ":"@ + sha1) == sha1,
{
    reveal_strlit("h:");
    reveal_strlit(":");
    let key = "h:"@ + prefix + ":"@ + sha1;
    let n = 2 + prefix.len() as int;
    text::next_char_bounds(key, 2, ':');
    assert(key[n] == ':');
    assert forall|i: int| 2 <= i < n implies #[trigger] key[i] != ':' by {
        assert(key[i] == prefix[i - 2]);
    }
    assert(split_at_colon(key) == n);
    assert(key.skip(n + 1) =~= sha1);
    assert(key.subrange(2, n) =~= prefix);
}

/// The name of a channel below four.
pub open spec fn channel_label(channel: int) -> Seq<char> {
    if channel == 0 {
        "G1"@
    } else if channel == 1 {
        "G2"@
    } else {
        "G3"@
    }
}

pub fn channel_text(channel: usize) -> (name: &'static str)
    requires
        channel < 3,
    ensures
        name@ == channel_label(channel as int),
{
    if channel == 0 {
        "G1"
    } else if channel == 1 {
        "G2"
    } else {
        "G3"
    }
}

/// The name of a lookup table: `<scheme>:<channel>`.
pub fn lut_name(scheme: &str, channel: usize) -> (name: String)
    requires
        channel < 3,
    ensures
        name@ == scheme@ + ":"@ + channel_label(channel as int),
{
    text::concat3(scheme, ":", channel_text(channel))
}

} // verus!
