//! Token ids and their two inscriptions: `tid` with the decimal number, and four
//! little-endian bytes.

use vstd::prelude::*;
use vstd::utf8::*;

use crate::text;

verus! {

/// The number of a token in the host's vocabulary.
pub type TokenId = u32;

/// The two inscriptions of a token id.
#[derive(Clone, Copy, Debug, PartialEq, Eq, Structural)]
pub enum TokenEncoding {
    /// `tid` and the decimal number.
    Tid,
    /// Four bytes, the lowest first.
    Le,
}

/// The `tid` inscription of an id.
pub open spec fn tid_bytes(id: u32) -> Seq<u8> {
    text::utf8("tid"@ + text::decimal(id as nat))
}

/// The id that a `tid` inscription stands for.
pub open spec fn tid_of(bytes: Seq<u8>) -> Option<u32> {
    let s = decode_utf8(bytes);
    if valid_utf8(bytes) && "tid"@.is_prefix_of(s) {
        match text::parsed(s.skip(3), u32::MAX as nat) {
            Some(n) => Some(n as u32),
            None => None,
        }
    } else {
        None
    }
}

/// The little-endian inscription of an id.
pub open spec fn le_bytes(id: u32) -> Seq<u8> {
    vstd::bytes::spec_u32_to_le_bytes(id)
}

/// The id that a little-endian inscription stands for.
pub open spec fn le_of(bytes: Seq<u8>) -> Option<u32> {
    if bytes.len() == 4 {
        Some(vstd::bytes::spec_u32_from_le_bytes(bytes))
    } else {
        None
    }
}

/// Inscribes an id as `tid` and its number.
pub fn token_in_bytes(id: TokenId) -> (bytes: Vec<u8>)
    ensures
        bytes@ == tid_bytes(id),
{
    let number = text::decimal_string(id as u64);
    let word = text::concat2("tid", number.as_str());
    vstd::slice::slice_to_vec(word.as_str().as_bytes())
}

/// Reads a `tid` inscription.
pub fn parse_token_id(bytes: &[u8]) -> (id: Option<TokenId>)
    ensures
        id == tid_of(bytes@),
{
    match text::from_utf8(vstd::slice::slice_to_vec(bytes)) {
        None => None,
        Some(word) => {
            proof {
                encode_utf8_decode_utf8(word@);
                reveal_strlit("tid");
            }
            let chars = text::chars_of(word.as_str());
            if !text::begins_with(chars.as_slice(), "tid") {
                return None;
            }
            match text::parse_decimal(text::tail_from(chars.as_slice(), 3), u32::MAX as u64) {
                Some(n) => Some(n as u32),
                None => None,
            }
        },
    }
}

/// Inscribes an id as four little-endian bytes.
pub fn token_in_bytes_le(id: TokenId) -> (bytes: Vec<u8>)
    ensures
        bytes@ == le_bytes(id),
        bytes@.len() == 4,
{
    proof {
        vstd::bytes::lemma_auto_spec_u32_to_from_le_bytes();
    }
    vstd::bytes::u32_to_le_bytes(id)
}

/// Reads four little-endian bytes.
pub fn parse_token_id_le(bytes: &[u8]) -> (id: Option<TokenId>)
    ensures
        id == le_of(bytes@),
{
    if bytes.len() == 4 {
        Some(vstd::bytes::u32_from_le_bytes(bytes))
    } else {
        None
    }
}

impl TokenEncoding {
    /// The inscription of an id.
    pub open spec fn inscribed(self, id: u32) -> Seq<u8> {
        match self {
            TokenEncoding::Tid => tid_bytes(id),
            TokenEncoding::Le => le_bytes(id),
        }
    }

    /// The id of an inscription.
    pub open spec fn read(self, bytes: Seq<u8>) -> Option<u32> {
        match self {
            TokenEncoding::Tid => tid_of(bytes),
            TokenEncoding::Le => le_of(bytes),
        }
    }

    pub fn name(self) -> (name: &'static str)
        ensures
            name@ == (match self {
                TokenEncoding::Tid => "tid"@,
                TokenEncoding::Le => "le"@,
            }),
    {
        match self {
            TokenEncoding::Tid => "tid",
            TokenEncoding::Le => "le",
        }
    }

    /// Inscribes an id.
    pub fn encode(self, id: TokenId) -> (bytes: Vec<u8>)
        ensures
            bytes@ == self.inscribed(id),
    {
        match self {
            TokenEncoding::Tid => token_in_bytes(id),
            TokenEncoding::Le => token_in_bytes_le(id),
        }
    }

    /// Reads an inscription.
    pub fn parse(self, bytes: &[u8]) -> (id: Option<TokenId>)
        ensures
            id == self.read(bytes@),
    {
        match self {
            TokenEncoding::Tid => parse_token_id(bytes),
            TokenEncoding::Le => parse_token_id_le(bytes),
        }
    }
}

/// Both encodings give back the id that they inscribed.
pub proof fn encoding_round_trip(encoding: TokenEncoding, id: u32)
    ensures
        encoding.read(encoding.inscribed(id)) == Some(id),
{
    match encoding {
        TokenEncoding::Tid => {
            let s = "tid"@ + text::decimal(id as nat);
            encode_utf8_valid_utf8(s);
            encode_utf8_decode_utf8(s);
            reveal_strlit("tid");
            text::decimal_round_trip(id as nat, u32::MAX as nat);
            assert(s.skip(3) =~= text::decimal(id as nat));
        },
        TokenEncoding::Le => {
            vstd::bytes::lemma_auto_spec_u32_to_from_le_bytes();
        },
    }
}

/// Every character takes a byte or more; plain ones take one.
proof fn utf8_width(s: Seq<char>)
    ensures
        text::utf8(s).len() >= s.len(),
        (forall|i: int| 0 <= i < s.len() ==> (#[trigger] s[i] as u32) < 128) ==> text::utf8(s).len() == s.len(),
    decreases s.len(),
{
    if s.len() > 0 {
        utf8_width(s.drop_first());
        assert((forall|i: int| 0 <= i < s.len() ==> (#[trigger] s[i] as u32) < 128) ==> (forall|i: int|
            0 <= i < s.drop_first().len() ==> (#[trigger] s.drop_first()[i] as u32) < 128));
    }
}

/// The width of a `tid` inscription: three bytes, and one for each digit.
proof fn tid_width(id: u32)
    ensures
        tid_bytes(id).len() == 4 <==> id < 10,
{
    let s = "tid"@ + text::decimal(id as nat);
    reveal_strlit("tid");
    text::decimal_round_trip(id as nat, u32::MAX as nat);
    assert forall|i: int| 0 <= i < s.len() implies (#[trigger] s[i] as u32) < 128 by {
        if i >= 3 {
            assert(s[i] == text::decimal(id as nat)[i - 3]);
            assert(text::is_digit(text::decimal(id as nat)[i - 3]));
        }
    }
    utf8_width(s);
    if id >= 10 {
        text::decimal_round_trip((id / 10) as nat, u32::MAX as nat);
    }
}

/// Neither encoding reads the other's inscriptions, but for the `tid`
/// inscriptions of one digit, which are four bytes long.
pub proof fn encodings_apart(id: u32)
    ensures
        le_of(tid_bytes(id)) is None <==> id >= 10,
        tid_of(le_bytes(id)) is Some <==> exists|d: u32| d < 10 && le_bytes(id) == #[trigger] tid_bytes(d),
{
    tid_width(id);
    vstd::bytes::lemma_auto_spec_u32_to_from_le_bytes();
    let bytes = le_bytes(id);
    if tid_of(bytes) is Some {
        let s = decode_utf8(bytes);
        decode_utf8_encode_utf8(bytes);
        utf8_width(s);
        reveal_strlit("tid");
        let rest = s.skip(3);
        assert(s =~= "tid"@ + rest);
        let digits = text::unsigned_part(rest);
        assert(rest.len() == 1 && digits == rest);
        let d = (rest[0] as u32 - 48) as u32;
        assert(text::is_digit(rest[0]));
        assert(rest =~= seq![text::digit(d as int)]);
        assert(bytes == tid_bytes(d));
    }
    if exists|d: u32| d < 10 && bytes == #[trigger] tid_bytes(d) {
        let d = choose|d: u32| d < 10 && bytes == #[trigger] tid_bytes(d);
        encoding_round_trip(TokenEncoding::Tid, d);
    }
}

} // verus!
