//! Text: character sequences, decimal numbers, and the splitting of lines into
//! words.

use vstd::prelude::*;
use vstd::string::*;
use vstd::utf8::*;

verus! {

/// The UTF-8 bytes of a text.
pub open spec fn utf8(s: Seq<char>) -> Seq<u8> {
    encode_utf8(s)
}

/// Texts with the same bytes are the same.
pub proof fn utf8_injective(a: Seq<char>, b: Seq<char>)
    requires
        utf8(a) == utf8(b),
    ensures
        a == b,
{
    encode_utf8_decode_utf8(a);
    encode_utf8_decode_utf8(b);
}

/// The bytes of a text are never `0xff`.
pub proof fn utf8_without_ff(s: Seq<char>)
    ensures
        forall|i: int| 0 <= i < utf8(s).len() ==> #[trigger] utf8(s)[i] != 0xff,
    decreases s.len(),
{
    if s.len() > 0 {
        utf8_without_ff(s.drop_first());
        let c = s[0] as u32;
        assert(leading_byte_width_1(c) != 0xff && leading_byte_width_2(c) != 0xff && leading_byte_width_3(c) != 0xff
            && leading_byte_width_4(c) != 0xff && last_continuation_byte(c) != 0xff && second_last_continuation_byte(c)
            != 0xff && third_last_continuation_byte(c) != 0xff) by (bit_vector);
        assert(utf8(s) == encode_scalar(c) + utf8(s.drop_first()));
    }
}

/// Appends one character, as `String::push` documents.
pub assume_specification[ String::push ](s: &mut String, c: char)
    ensures
        final(s)@ == old(s)@.push(c),
;

/// The text that `String::from_utf8_lossy` makes of a byte string.
pub uninterp spec fn lossy(bytes: Seq<u8>) -> Seq<char>;

/// Calls `String::from_utf8`. Claimed of it: it succeeds on valid UTF-8 alone
/// and then keeps the bytes.
#[verifier::external_body]
pub(crate) fn from_utf8(bytes: Vec<u8>) -> (text: Option<String>)
    ensures
        text is Some <==> valid_utf8(bytes@),
        text is Some ==> utf8(text->0@) == bytes@,
{
    String::from_utf8(bytes).ok()
}

/// Calls `String::from_utf8_lossy`. Claimed of it: the text depends on the bytes
/// alone, and valid UTF-8 is kept as it is. What stands for an invalid byte is
/// not said.
#[verifier::external_body]
pub(crate) fn from_utf8_lossy(bytes: &[u8]) -> (text: String)
    ensures
        text@ == lossy(bytes@),
        valid_utf8(bytes@) ==> utf8(text@) == bytes@,
{
    String::from_utf8_lossy(bytes).into_owned()
}

/// The views of a list of strings.
pub open spec fn texts(v: Seq<String>) -> Seq<Seq<char>> {
    v.map_values(|s: String| s@)
}

/// One more string shows one more text.
pub proof fn texts_push(v: Seq<String>, s: String)
    ensures
        texts(v.push(s)) == texts(v).push(s@),
{
    assert(texts(v.push(s)) =~= texts(v).push(s@));
}

/// Copies a list of strings.
pub fn copy_texts(list: &Vec<String>) -> (copy: Vec<String>)
    ensures
        texts(copy@) == texts(list@),
        copy@.len() == list@.len(),
{
    let mut copy: Vec<String> = Vec::new();
    let mut i: usize = 0;
    while i < list.len()
        invariant
            i <= list.len(),
            texts(copy@) == texts(list@).take(i as int),
        decreases list.len() - i,
    {
        let ghost before = copy@;
        copy.push(list[i].clone());
        proof {
            texts_push(before, list@[i as int]);
            assert(texts(list@)[i as int] == list@[i as int]@);
            assert(texts(list@).take(i as int + 1) =~= texts(list@).take(i as int).push(list@[i as int]@));
        }
        i = i + 1;
    }
    proof {
        assert(texts(list@).take(i as int) =~= texts(list@));
        assert(texts(copy@).len() == copy@.len());
        assert(texts(list@).len() == list@.len());
    }
    copy
}

/// Copies a string.
pub fn copy_str(s: &str) -> (copy: String)
    ensures
        copy@ == s@,
{
    String::from_str(s)
}

/// The characters of a string.
pub fn chars_of(s: &str) -> (chars: Vec<char>)
    ensures
        chars@ == s@,
{
    let mut out: Vec<char> = Vec::new();
    for c in it: s.chars()
        invariant
            out@.len() == it.index(),
            it.seq() == s@,
            forall|i: int| 0 <= i < out@.len() ==> out@[i] == s@[i],
    {
        out.push(c);
    }
    proof {
        assert(out@ =~= s@);
    }
    out
}

/// The string of a character slice.
pub fn string_of(chars: &[char]) -> (s: String)
    ensures
        s@ == chars@,
{
    let mut s = String::new();
    let mut i: usize = 0;
    while i < chars.len()
        invariant
            i <= chars.len(),
            s@ == chars@.take(i as int),
        decreases chars.len() - i,
    {
        s.push(chars[i]);
        i = i + 1;
        proof {
            assert(chars@.take(i as int) =~= chars@.take(i - 1).push(chars@[i - 1]));
        }
    }
    proof {
        assert(chars@.take(i as int) =~= chars@);
    }
    s
}

/// Whether two character slices are equal.
pub fn same_chars(a: &[char], b: &[char]) -> (same: bool)
    ensures
        same == (a@ == b@),
{
    if a.len() != b.len() {
        return false;
    }
    let mut i: usize = 0;
    while i < a.len()
        invariant
            i <= a.len(),
            a.len() == b.len(),
            forall|j: int| 0 <= j < i ==> a@[j] == b@[j],
        decreases a.len() - i,
    {
        if a[i] != b[i] {
            return false;
        }
        i = i + 1;
    }
    proof {
        assert(a@ =~= b@);
    }
    true
}

/// Whether a character slice spells the given text.
pub fn spells(chars: &[char], s: &str) -> (same: bool)
    ensures
        same == (chars@ == s@),
{
    let other = chars_of(s);
    same_chars(chars, other.as_slice())
}

/// Whether two strings are equal.
pub fn same_text(a: &str, b: &str) -> (same: bool)
    ensures
        same == (a@ == b@),
{
    let x = chars_of(a);
    spells(x.as_slice(), b)
}

/// Whether a character slice begins with the given text.
pub fn begins_with(chars: &[char], s: &str) -> (yes: bool)
    ensures
        yes == s@.is_prefix_of(chars@),
{
    let prefix = chars_of(s);
    if chars.len() < prefix.len() {
        return false;
    }
    let head = vstd::slice::slice_subrange(chars, 0, prefix.len());
    let same = same_chars(head, prefix.as_slice());
    proof {
        assert(head@ =~= chars@.subrange(0, s@.len() as int));
    }
    same
}

/// The tail of a character slice.
pub fn tail_from(chars: &[char], at: usize) -> (tail: &[char])
    requires
        at <= chars@.len(),
    ensures
        tail@ == chars@.skip(at as int),
{
    let tail = vstd::slice::slice_subrange(chars, at, chars.len());
    proof {
        assert(tail@ =~= chars@.skip(at as int));
    }
    tail
}

/// The concatenation of two strings.
pub fn concat2(a: &str, b: &str) -> (s: String)
    ensures
        s@ == a@ + b@,
{
    let mut s = String::from_str(a);
    s.append(b);
    s
}

/// The concatenation of three strings.
pub fn concat3(a: &str, b: &str, c: &str) -> (s: String)
    ensures
        s@ == a@ + b@ + c@,
{
    let mut s = String::from_str(a);
    s.append(b);
    s.append(c);
    s
}

/// The texts joined with a separator between neighbours.
pub open spec fn joined(parts: Seq<Seq<char>>, sep: Seq<char>) -> Seq<char>
    decreases parts.len(),
{
    if parts.len() == 0 {
        Seq::empty()
    } else if parts.len() == 1 {
        parts[0]
    } else {
        joined(parts.drop_last(), sep) + sep + parts.last()
    }
}

/// Joins strings with a separator.
pub fn join_texts(parts: &Vec<String>, sep: &str) -> (s: String)
    ensures
        s@ == joined(texts(parts@), sep@),
{
    let mut s = String::new();
    let mut i: usize = 0;
    proof {
        assert(texts(parts@).take(0) =~= Seq::<Seq<char>>::empty());
    }
    while i < parts.len()
        invariant
            i <= parts.len(),
            s@ == joined(texts(parts@).take(i as int), sep@),
        decreases parts.len() - i,
    {
        if i > 0 {
            s.append(sep);
        }
        s.append(parts[i].as_str());
        proof {
            let t = texts(parts@).take(i as int + 1);
            assert(t.drop_last() =~= texts(parts@).take(i as int));
            assert(t.last() == parts@[i as int]@);
            if i == 0 {
                assert(s@ =~= parts@[0]@);
            }
        }
        i = i + 1;
    }
    proof {
        assert(texts(parts@).take(i as int) =~= texts(parts@));
    }
    s
}

/// The decimal digit of a value below ten.
pub open spec fn digit(d: int) -> char {
    (48 + d) as char
}

/// The decimal numeral of a natural number, without leading zeros.
pub open spec fn decimal(n: nat) -> Seq<char>
    decreases n,
{
    if n < 10 {
        seq![digit(n as int)]
    } else {
        decimal(n / 10).push(digit(n as int % 10))
    }
}

/// Writes a number in decimal.
pub fn decimal_string(n: u64) -> (s: String)
    ensures
        s@ == decimal(n as nat),
    decreases n,
{
    if n < 10 {
        let mut s = String::new();
        s.push((48u8 + n as u8) as char);
        proof {
            assert(s@ =~= seq![digit(n as int)]);
        }
        s
    } else {
        let mut s = decimal_string(n / 10);
        s.push((48u8 + (n % 10) as u8) as char);
        s
    }
}

pub open spec fn is_digit(c: char) -> bool {
    '0' <= c && c <= '9'
}

pub open spec fn all_digits(s: Seq<char>) -> bool {
    forall|i: int| 0 <= i < s.len() ==> is_digit(#[trigger] s[i])
}

/// The value of a decimal numeral.
pub open spec fn value(s: Seq<char>) -> nat
    decreases s.len(),
{
    if s.len() == 0 {
        0
    } else {
        value(s.drop_last()) * 10 + (s.last() as int - 48) as nat
    }
}

/// The numeral behind an optional plus sign.
pub open spec fn unsigned_part(s: Seq<char>) -> Seq<char> {
    if s.len() > 0 && s[0] == '+' {
        s.skip(1)
    } else {
        s
    }
}

/// What a text denotes as an unsigned number no larger than `max`: digits,
/// at least one, with an optional plus sign before them.
pub open spec fn parsed(s: Seq<char>, max: nat) -> Option<nat> {
    let d = unsigned_part(s);
    if d.len() > 0 && all_digits(d) && value(d) <= max {
        Some(value(d))
    } else {
        None
    }
}

/// Digits behind a numeral do not make its value smaller.
proof fn value_monotone(s: Seq<char>, i: int)
    requires
        0 <= i <= s.len(),
        all_digits(s),
    ensures
        value(s.take(i)) <= value(s),
    decreases s.len() - i,
{
    if i == s.len() {
        assert(s.take(i) =~= s);
    } else {
        value_monotone(s, i + 1);
        assert(s.take(i + 1).drop_last() =~= s.take(i));
        assert(is_digit(s[i]));
    }
}

/// Reads an unsigned decimal number no larger than `max`.
pub fn parse_decimal(chars: &[char], max: u64) -> (n: Option<u64>)
    ensures
        n is Some <==> parsed(chars@, max as nat) is Some,
        n is Some ==> n->0 as nat == parsed(chars@, max as nat)->0,
{
    let mut start: usize = 0;
    if chars.len() > 0 && chars[0] == '+' {
        start = 1;
    }
    let digits = tail_from(chars, start);
    proof {
        assert(digits@ =~= unsigned_part(chars@));
    }
    if digits.len() == 0 {
        return None;
    }
    let mut acc: u64 = 0;
    let mut i: usize = 0;
    let mut over: bool = false;
    while i < digits.len()
        invariant
            i <= digits.len(),
            forall|j: int| 0 <= j < i ==> is_digit(#[trigger] digits@[j]),
            digits@ == unsigned_part(chars@),
            acc <= max,
            over ==> value(digits@.take(i as int)) > max,
            !over ==> acc as nat == value(digits@.take(i as int)),
        decreases digits.len() - i,
    {
        let c = digits[i];
        if !('0' <= c && c <= '9') {
            proof {
                assert(!is_digit(digits@[i as int]));
            }
            return None;
        }
        proof {
            assert(digits@.take(i as int + 1).drop_last() =~= digits@.take(i as int));
            assert(digits@.take(i as int + 1).last() == c);
        }
        let d: u64 = (c as u32 - 48) as u64;
        if !over {
            if d > max || acc > (max - d) / 10 {
                over = true;
            } else {
                acc = acc * 10 + d;
            }
        }
        i = i + 1;
    }
    proof {
        assert(digits@.take(i as int) =~= digits@);
    }
    if over {
        None
    } else {
        Some(acc)
    }
}

/// A decimal numeral is read back as the number it was written from.
pub proof fn decimal_round_trip(n: nat, max: nat)
    requires
        n <= max,
    ensures
        parsed(decimal(n), max) == Some(n),
        all_digits(decimal(n)),
        decimal(n).len() > 0,
        value(decimal(n)) == n,
    decreases n,
{
    let s = decimal(n);
    if n < 10 {
        assert(s.drop_last() =~= Seq::<char>::empty());
        assert(value(s.drop_last()) == 0);
    } else {
        decimal_round_trip(n / 10, max);
        assert(s.drop_last() =~= decimal(n / 10));
        assert(s.last() == digit(n as int % 10));
        assert forall|i: int| 0 <= i < s.len() implies is_digit(#[trigger] s[i]) by {
            if i < s.len() - 1 {
                assert(s[i] == decimal(n / 10)[i]);
            }
        }
    }
    assert(is_digit(s[0]));
    assert(unsigned_part(s) == s);
}

/// The characters with the Unicode property White_Space.
pub open spec fn is_space(c: char) -> bool {
    let u = c as u32;
    (9 <= u <= 13) || u == 32 || u == 0x85 || u == 0xA0 || u == 0x1680 || (0x2000 <= u <= 0x200A) || u == 0x2028
        || u == 0x2029 || u == 0x202F || u == 0x205F || u == 0x3000
}

/// Whether a character is white space.
pub fn space(c: char) -> (yes: bool)
    ensures
        yes == is_space(c),
{
    let u: u32 = c as u32;
    (9 <= u && u <= 13) || u == 32 || u == 0x85 || u == 0xA0 || u == 0x1680 || (0x2000 <= u && u <= 0x200A)
        || u == 0x2028 || u == 0x2029 || u == 0x202F || u == 0x205F || u == 0x3000
}

/// The first index at or behind `from` whose character is white space (`want`)
/// or is not; the length where there is none.
pub open spec fn next_space(s: Seq<char>, from: int, want: bool) -> int
    decreases s.len() - from,
{
    if from >= s.len() {
        s.len() as int
    } else if is_space(s[from]) == want {
        from
    } else {
        next_space(s, from + 1, want)
    }
}

fn find_space(s: &[char], from: usize, want: bool) -> (at: usize)
    requires
        from <= s@.len(),
    ensures
        at as int == next_space(s@, from as int, want),
        from <= at <= s@.len(),
        at < s@.len() ==> is_space(s@[at as int]) == want,
{
    let mut i: usize = from;
    while i < s.len()
        invariant
            from <= i <= s.len(),
            next_space(s@, from as int, want) == next_space(s@, i as int, want),
        decreases s.len() - i,
    {
        if space(s[i]) == want {
            return i;
        }
        i = i + 1;
    }
    i
}

pub proof fn next_space_bounds(s: Seq<char>, from: int, want: bool)
    requires
        0 <= from <= s.len(),
    ensures
        from <= next_space(s, from, want) <= s.len(),
        next_space(s, from, want) < s.len() ==> is_space(s[next_space(s, from, want)]) == want,
        forall|i: int| from <= i < next_space(s, from, want) ==> is_space(#[trigger] s[i]) != want,
    decreases s.len() - from,
{
    if from < s.len() && is_space(s[from]) != want {
        next_space_bounds(s, from + 1, want);
    }
}

/// The maximal runs of characters that are not white space, behind index `from`.
pub open spec fn words_from(s: Seq<char>, from: int) -> Seq<Seq<char>>
    decreases s.len() - from,
    when 0 <= from <= s.len()
{
    let a = next_space(s, from, false);
    let b = next_space(s, a, true);
    if from <= a < s.len() && a < b <= s.len() {
        seq![s.subrange(a, b)] + words_from(s, b)
    } else {
        Seq::empty()
    }
}

/// The words of a text, as `str::split_whitespace` gives them.
pub open spec fn words(s: Seq<char>) -> Seq<Seq<char>> {
    words_from(s, 0)
}

/// The views of a list of words.
pub open spec fn word_views(v: Seq<Vec<char>>) -> Seq<Seq<char>> {
    v.map_values(|w: Vec<char>| w@)
}

/// Splits a text into words.
pub fn split_words(s: &[char]) -> (out: Vec<Vec<char>>)
    ensures
        word_views(out@) == words(s@),
        forall|i: int| 0 <= i < out@.len() ==> #[trigger] out@[i]@ == words(s@)[i],
{
    let mut out: Vec<Vec<char>> = Vec::new();
    let mut from: usize = 0;
    proof {
        assert(word_views(out@) + words_from(s@, 0) =~= words(s@));
    }
    while from < s.len()
        invariant
            from <= s.len(),
            word_views(out@) + words_from(s@, from as int) == words(s@),
        decreases s.len() - from,
    {
        let a = find_space(s, from, false);
        let b = find_space(s, a, true);
        proof {
            next_space_bounds(s@, a as int, true);
        }
        if a < s.len() {
            let w = vstd::slice::slice_subrange(s, a, b);
            let ghost before = out@;
            out.push(vstd::slice::slice_to_vec(w));
            proof {
                assert(word_views(out@) =~= word_views(before).push(s@.subrange(a as int, b as int)));
                assert(words_from(s@, from as int) =~= seq![s@.subrange(a as int, b as int)] + words_from(s@, b as int));
                assert(word_views(out@) + words_from(s@, b as int) =~= word_views(before) + words_from(
                    s@,
                    from as int,
                ));
            }
            from = b;
        } else {
            proof {
                assert(words_from(s@, from as int) =~= Seq::<Seq<char>>::empty());
                assert(words_from(s@, s@.len() as int) =~= Seq::<Seq<char>>::empty());
            }
            from = s.len();
        }
    }
    proof {
        assert(words_from(s@, from as int) =~= Seq::<Seq<char>>::empty());
        assert(word_views(out@) =~= words(s@));
        assert forall|i: int| 0 <= i < out@.len() implies #[trigger] out@[i]@ == words(s@)[i] by {
            assert(word_views(out@)[i] == out@[i]@);
        }
    }
    out
}

/// The first index at or behind `from` that holds `c`; the length where there
/// is none.
pub open spec fn next_char(s: Seq<char>, from: int, c: char) -> int
    decreases s.len() - from,
{
    if from >= s.len() {
        s.len() as int
    } else if s[from] == c {
        from
    } else {
        next_char(s, from + 1, c)
    }
}

pub proof fn next_char_bounds(s: Seq<char>, from: int, c: char)
    requires
        0 <= from <= s.len(),
    ensures
        from <= next_char(s, from, c) <= s.len(),
        next_char(s, from, c) < s.len() ==> s[next_char(s, from, c)] == c,
        forall|i: int| from <= i < next_char(s, from, c) ==> #[trigger] s[i] != c,
    decreases s.len() - from,
{
    if from < s.len() && s[from] != c {
        next_char_bounds(s, from + 1, c);
    }
}

/// Finds a character.
pub fn find_char(s: &[char], from: usize, c: char) -> (at: usize)
    requires
        from <= s@.len(),
    ensures
        at as int == next_char(s@, from as int, c),
        from <= at <= s@.len(),
{
    let mut i: usize = from;
    while i < s.len()
        invariant
            from <= i <= s.len(),
            next_char(s@, from as int, c) == next_char(s@, i as int, c),
        decreases s.len() - i,
    {
        if s[i] == c {
            return i;
        }
        i = i + 1;
    }
    i
}

/// The pieces of a text between the occurrences of a separator, as
/// `str::split` gives them: one more than there are separators.
pub open spec fn pieces_from(s: Seq<char>, from: int, sep: char) -> Seq<Seq<char>>
    decreases s.len() - from,
    when 0 <= from <= s.len()
{
    let a = next_char(s, from, sep);
    if from <= a < s.len() {
        seq![s.subrange(from, a)] + pieces_from(s, a + 1, sep)
    } else {
        seq![s.subrange(from, s.len() as int)]
    }
}

pub open spec fn pieces(s: Seq<char>, sep: char) -> Seq<Seq<char>> {
    pieces_from(s, 0, sep)
}

/// Splits a text at a separator.
pub fn split_pieces(s: &[char], sep: char) -> (out: Vec<Vec<char>>)
    ensures
        word_views(out@) == pieces(s@, sep),
        forall|i: int| 0 <= i < out@.len() ==> #[trigger] out@[i]@ == pieces(s@, sep)[i],
        out@.len() > 0,
{
    let mut out: Vec<Vec<char>> = Vec::new();
    let mut from: usize = 0;
    let mut at: usize = find_char(s, 0, sep);
    proof {
        assert(word_views(out@) + pieces_from(s@, 0, sep) =~= pieces(s@, sep));
    }
    while at < s.len()
        invariant
            from <= at <= s.len(),
            at as int == next_char(s@, from as int, sep),
            word_views(out@) + pieces_from(s@, from as int, sep) == pieces(s@, sep),
        decreases s.len() - at,
    {
        let w = vstd::slice::slice_subrange(s, from, at);
        let ghost before = out@;
        out.push(vstd::slice::slice_to_vec(w));
        proof {
            assert(word_views(out@) =~= word_views(before).push(s@.subrange(from as int, at as int)));
            assert(word_views(out@) + pieces_from(s@, at + 1, sep) =~= word_views(before) + pieces_from(
                s@,
                from as int,
                sep,
            ));
        }
        from = at + 1;
        at = find_char(s, from, sep);
    }
    let w = vstd::slice::slice_subrange(s, from, s.len());
    let ghost before = out@;
    out.push(vstd::slice::slice_to_vec(w));
    proof {
        assert(word_views(out@) =~= word_views(before).push(s@.subrange(from as int, s@.len() as int)));
        assert(word_views(out@) =~= pieces(s@, sep));
        assert forall|i: int| 0 <= i < out@.len() implies #[trigger] out@[i]@ == pieces(s@, sep)[i] by {
            assert(word_views(out@)[i] == out@[i]@);
        }
    }
    out
}

/// The last index below `to` behind which the text is white space only.
pub open spec fn trim_end(s: Seq<char>, to: int) -> int
    decreases to,
{
    if to <= 0 {
        0
    } else if is_space(s[to - 1]) {
        trim_end(s, to - 1)
    } else {
        to
    }
}

/// A text without the white space at both ends.
pub open spec fn trimmed(s: Seq<char>) -> Seq<char> {
    let b = trim_end(s, s.len() as int);
    let a = next_space(s, 0, false);
    if a < b {
        s.subrange(a, b)
    } else {
        Seq::empty()
    }
}

/// Trims a text.
pub fn trim(s: &[char]) -> (out: &[char])
    ensures
        out@ == trimmed(s@),
{
    let mut to: usize = s.len();
    while to > 0 && space(s[to - 1])
        invariant
            to <= s.len(),
            trim_end(s@, s@.len() as int) == trim_end(s@, to as int),
        decreases to,
    {
        to = to - 1;
    }
    let a = find_space(s, 0, false);
    if a < to {
        vstd::slice::slice_subrange(s, a, to)
    } else {
        let empty = vstd::slice::slice_subrange(s, 0, 0);
        proof {
            assert(empty@ =~= Seq::<char>::empty());
        }
        empty
    }
}

/// Texts without a character.
pub open spec fn lacks(s: Seq<char>, c: char) -> bool {
    forall|i: int| 0 <= i < s.len() ==> #[trigger] s[i] != c
}

/// Where nothing is found there is nothing to find.
proof fn next_char_none(s: Seq<char>, from: int, c: char)
    requires
        0 <= from <= s.len(),
        forall|i: int| from <= i < s.len() ==> #[trigger] s[i] != c,
    ensures
        next_char(s, from, c) == s.len(),
    decreases s.len() - from,
{
    if from < s.len() {
        next_char_none(s, from + 1, c);
    }
}

/// A first occurrence stays the first when more follows.
proof fn next_char_prefix(s: Seq<char>, t: Seq<char>, from: int, c: char)
    requires
        0 <= from <= s.len(),
    ensures
        next_char(s, from, c) < s.len() ==> next_char(s + t, from, c) == next_char(s, from, c),
        next_char(s, from, c) == s.len() && t.len() > 0 && t[0] == c ==> next_char(s + t, from, c) == s.len(),
    decreases s.len() - from,
{
    let u = s + t;
    if from < s.len() {
        assert(u[from] == s[from]);
        if s[from] != c {
            next_char_prefix(s, t, from + 1, c);
        }
    } else if t.len() > 0 {
        assert(u[from] == t[0]);
    }
}

/// One more piece behind a separator.
proof fn pieces_append(s: Seq<char>, t: Seq<char>, from: int, sep: char)
    requires
        0 <= from <= s.len(),
        lacks(t, sep),
    ensures
        pieces_from(s + seq![sep] + t, from, sep) == pieces_from(s, from, sep).push(t),
    decreases s.len() - from,
{
    let u = s + seq![sep] + t;
    let tail = seq![sep] + t;
    assert(u =~= s + tail);
    next_char_bounds(s, from, sep);
    next_char_prefix(s, tail, from, sep);
    let a = next_char(s, from, sep);
    if a < s.len() {
        pieces_append(s, t, a + 1, sep);
        assert(u.subrange(from, a) =~= s.subrange(from, a));
        assert(pieces_from(u, from, sep) =~= pieces_from(s, from, sep).push(t));
    } else {
        let at = s.len() as int;
        assert(tail[0] == sep);
        assert forall|i: int| at + 1 <= i < u.len() implies #[trigger] u[i] != sep by {
            assert(u[i] == t[i - at - 1]);
        }
        next_char_none(u, at + 1, sep);
        assert(u.subrange(at + 1, u.len() as int) =~= t);
        assert(u.subrange(from, at) =~= s.subrange(from, at));
        assert(pieces_from(u, at + 1, sep) =~= seq![t]);
        assert(pieces_from(u, from, sep) =~= seq![s.subrange(from, at)] + seq![t]);
        assert(pieces_from(s, from, sep) =~= seq![s.subrange(from, at)]);
        assert(pieces_from(u, from, sep) =~= pieces_from(s, from, sep).push(t));
    }
}

/// Texts joined with a separator that none of them holds are the pieces between
/// the separators.
pub proof fn pieces_of_joined(parts: Seq<Seq<char>>, sep: char)
    requires
        parts.len() > 0,
        forall|i: int| 0 <= i < parts.len() ==> lacks(#[trigger] parts[i], sep),
    ensures
        pieces(joined(parts, seq![sep]), sep) == parts,
    decreases parts.len(),
{
    if parts.len() == 1 {
        assert(lacks(parts[0], sep));
        next_char_none(parts[0], 0, sep);
        assert(parts[0].subrange(0, parts[0].len() as int) =~= parts[0]);
        assert(pieces(parts[0], sep) =~= parts);
    } else {
        let p = parts.drop_last();
        assert forall|i: int| 0 <= i < p.len() implies lacks(#[trigger] p[i], sep) by {
            assert(p[i] == parts[i]);
        }
        pieces_of_joined(p, sep);
        assert(lacks(parts[parts.len() - 1], sep));
        pieces_append(joined(p, seq![sep]), parts.last(), 0, sep);
        assert(p.push(parts.last()) =~= parts);
    }
}

/// A text without spaces that is not empty.
pub open spec fn solid(s: Seq<char>) -> bool {
    s.len() > 0 && forall|i: int| 0 <= i < s.len() ==> !is_space(#[trigger] s[i])
}

proof fn next_space_behind(s: Seq<char>, b: Seq<char>, off: int, k: int, want: bool)
    requires
        0 <= off,
        0 <= k <= b.len(),
        s.len() == off + b.len(),
        s.skip(off) == b,
    ensures
        next_space(s, off + k, want) == off + next_space(b, k, want),
    decreases b.len() - k,
{
    if k < b.len() {
        assert(s.skip(off)[k] == s[off + k]);
        if is_space(b[k]) != want {
            next_space_behind(s, b, off, k + 1, want);
        }
    }
}

proof fn words_behind(s: Seq<char>, b: Seq<char>, off: int, k: int)
    requires
        0 <= off,
        0 <= k <= b.len(),
        s.len() == off + b.len(),
        s.skip(off) == b,
    ensures
        words_from(s, off + k) == words_from(b, k),
    decreases b.len() - k,
{
    let x = next_space(b, k, false);
    let y = next_space(b, x, true);
    next_space_bounds(b, k, false);
    next_space_bounds(b, x, true);
    next_space_behind(s, b, off, k, false);
    next_space_behind(s, b, off, x, true);
    if x < b.len() {
        assert(y > x);
        assert(s.subrange(off + x, off + y) =~= b.subrange(x, y)) by {
            assert forall|i: int| x <= i < y implies s[off + i] == b[i] by {
                assert(s.skip(off)[i] == s[off + i]);
            }
        }
        words_behind(s, b, off, y);
    }
}

proof fn next_space_before(s: Seq<char>, a: Seq<char>, k: int, want: bool)
    requires
        0 <= k <= a.len() <= s.len(),
        s.take(a.len() as int) == a,
    ensures
        next_space(a, k, want) < a.len() ==> next_space(s, k, want) == next_space(a, k, want),
        next_space(a, k, want) >= a.len() ==> next_space(s, k, want) == next_space(s, a.len() as int, want),
    decreases a.len() - k,
{
    if k < a.len() {
        assert(s.take(a.len() as int)[k] == s[k]);
        if is_space(a[k]) != want {
            next_space_before(s, a, k + 1, want);
        }
    }
}

proof fn words_before(a: Seq<char>, c: char, b: Seq<char>, k: int)
    requires
        is_space(c),
        0 <= k <= a.len(),
    ensures
        words_from(a.push(c) + b, k) == words_from(a, k) + words(b),
    decreases a.len() - k,
{
    let s = a.push(c) + b;
    let n = a.len() as int;
    assert(s.take(n) =~= a);
    assert(s.skip(n + 1) =~= b);
    assert(s[n] == c);
    let x = next_space(a, k, false);
    next_space_bounds(a, k, false);
    next_space_before(s, a, k, false);
    if x >= n {
        words_behind(s, b, n + 1, 0);
        next_space_bounds(s, n + 1, false);
        assert(words_from(s, k) =~= words_from(s, n + 1));
        assert(words_from(a, k) =~= Seq::<Seq<char>>::empty());
        assert(words_from(a, k) + words(b) =~= words(b));
    } else {
        let y = next_space(a, x, true);
        next_space_bounds(a, x, true);
        next_space_before(s, a, x, true);
        assert(next_space(s, x, true) == y);
        assert(s.subrange(x, y) =~= a.subrange(x, y));
        words_before(a, c, b, y);
        assert(words_from(s, k) =~= words_from(a, k) + words(b));
    }
}

/// The words of a text: none of nothing; a text without spaces is one word; and
/// wherever a space stands, the words before it are followed by the words behind it.
pub proof fn words_law(a: Seq<char>, c: char, b: Seq<char>)
    ensures
        words(Seq::empty()) == Seq::<Seq<char>>::empty(),
        solid(a) ==> words(a) == seq![a],
        is_space(c) ==> words(a.push(c) + b) == words(a) + words(b),
{
    let n = a.len() as int;
    if solid(a) {
        next_space_bounds(a, 0, false);
        next_space_bounds(a, 0, true);
        let y = next_space(a, 0, true);
        assert(y == n);
        assert(next_space(a, n, false) == n);
        assert(a.subrange(0, n) =~= a);
        assert(words_from(a, n) =~= Seq::<Seq<char>>::empty());
        assert(words(a) =~= seq![a]);
    }
    if is_space(c) {
        words_before(a, c, b, 0);
    }
}

/// Words joined with a space between neighbours are read back as they were.
pub proof fn words_of_joined(parts: Seq<Seq<char>>)
    requires
        forall|i: int| 0 <= i < parts.len() ==> solid(#[trigger] parts[i]),
    ensures
        words(joined(parts, seq![' '])) == parts,
    decreases parts.len(),
{
    if parts.len() == 0 {
        words_law(Seq::empty(), ' ', Seq::empty());
        assert(parts =~= Seq::empty());
    } else if parts.len() == 1 {
        words_law(parts[0], ' ', Seq::empty());
        assert(parts =~= seq![parts[0]]);
    } else {
        let front = parts.drop_last();
        assert forall|i: int| 0 <= i < front.len() implies solid(#[trigger] front[i]) by {
            assert(front[i] == parts[i]);
        }
        words_of_joined(front);
        let a = joined(front, seq![' ']);
        let b = parts.last();
        assert(solid(parts[parts.len() - 1]));
        words_law(a, ' ', b);
        words_law(b, ' ', Seq::empty());
        assert(joined(parts, seq![' ']) =~= a.push(' ') + b);
        assert(parts =~= front + seq![b]);
    }
}

/// Every word of a text is solid.
pub proof fn words_are_solid(s: Seq<char>, from: int)
    requires
        0 <= from <= s.len(),
    ensures
        forall|i: int| 0 <= i < words_from(s, from).len() ==> solid(#[trigger] words_from(s, from)[i]),
    decreases s.len() - from,
{
    let a = next_space(s, from, false);
    next_space_bounds(s, from, false);
    let b = next_space(s, a, true);
    next_space_bounds(s, a, true);
    if a < s.len() {
        assert(a < b);
        words_are_solid(s, b);
        let rest = words_from(s, b);
        let all = words_from(s, from);
        let w = s.subrange(a, b);
        assert(all == seq![w] + rest);
        assert(solid(w)) by {
            assert forall|i: int| 0 <= i < w.len() implies !is_space(#[trigger] w[i]) by {
                assert(w[i] == s[a + i]);
            }
        }
        assert forall|i: int| 0 <= i < all.len() implies solid(#[trigger] all[i]) by {
            if i > 0 {
                assert(all[i] == rest[i - 1]);
            }
        }
    }
}

/// A trimmed text is the text without the spaces at both ends: what was taken away is
/// spaces only, and what is left neither starts nor ends with one.
pub proof fn trimmed_law(s: Seq<char>)
    ensures
        exists|a: int, b: int|
            0 <= a <= b <= s.len() && trimmed(s) == #[trigger] s.subrange(a, b) && (forall|i: int|
                0 <= i < a ==> is_space(#[trigger] s[i])) && (forall|i: int| b <= i < s.len() ==> is_space(#[trigger] s[i])),
        trimmed(s).len() > 0 ==> !is_space(trimmed(s)[0]) && !is_space(trimmed(s).last()),
{
    let a = next_space(s, 0, false);
    next_space_bounds(s, 0, false);
    let b = trim_end(s, s.len() as int);
    trim_end_facts(s, s.len() as int);
    if a < b {
        assert(trimmed(s) == s.subrange(a, b));
        assert(trimmed(s)[0] == s[a]);
        assert(trimmed(s).last() == s[b - 1]);
        assert forall|i: int| 0 <= i < a implies is_space(#[trigger] s[i]) by {}
    } else {
        assert(trimmed(s) =~= s.subrange(0, 0));
        assert forall|i: int| 0 <= i < s.len() implies is_space(#[trigger] s[i]) by {}
    }
}

proof fn trim_end_facts(s: Seq<char>, to: int)
    requires
        0 <= to <= s.len(),
    ensures
        0 <= trim_end(s, to) <= to,
        forall|i: int| trim_end(s, to) <= i < to ==> is_space(#[trigger] s[i]),
        trim_end(s, to) > 0 ==> !is_space(s[trim_end(s, to) - 1]),
    decreases to,
{
    if to > 0 && is_space(s[to - 1]) {
        trim_end_facts(s, to - 1);
    }
}

} // verus!
