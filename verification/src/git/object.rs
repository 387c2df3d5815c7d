//! Objects of the repository: blobs and commits, with their byte forms and ids.

use vstd::prelude::*;
use vstd::utf8::*;

use crate::sorted::Key;
use crate::digest;
use crate::morphisms::scheme;
use crate::order;
use crate::text;

verus! {

/// The bytes `commit`.
pub const COMMIT_TAG: [u8; 6] = [99, 111, 109, 109, 105, 116];

/// The bytes `blob`.
pub const BLOB_TAG: [u8; 4] = [98, 108, 111, 98];

/// The id of an object: the hexadecimal SHA-1 of its bytes.
#[derive(Clone, Debug, PartialEq, Eq, PartialOrd, Ord, Hash)]
pub struct ObjectId(pub String);

impl View for ObjectId {
    type V = Seq<char>;

    open spec fn view(&self) -> Seq<char> {
        self.0@
    }
}

impl Key for ObjectId {
    open spec fn key(&self) -> Seq<u8> {
        text::utf8(self@)
    }

    fn key_bytes(&self) -> (bytes: &[u8]) {
        self.0.as_str().as_bytes()
    }

    fn duplicate(&self) -> (copy: Self) {
        self.copy()
    }
}

/// The texts of a list of ids.
pub open spec fn id_texts(v: Seq<ObjectId>) -> Seq<Seq<char>> {
    v.map_values(|i: ObjectId| i@)
}

impl ObjectId {
    /// Copies the id.
    pub fn copy(&self) -> (copy: ObjectId)
        ensures
            copy@ == self@,
    {
        ObjectId(self.0.clone())
    }

    /// The id of a byte string.
    pub fn of_bytes(data: &[u8]) -> (id: ObjectId)
        ensures
            id@ == digest::sha1_text(data@),
            scheme::is_sha1(id@),
    {
        ObjectId(digest::sha1_hex(data))
    }

    /// An id, where the text is one: forty hexadecimal digits.
    pub fn validated(s: String) -> (id: Option<ObjectId>)
        ensures
            id is Some <==> scheme::is_sha1(s@),
            id is Some ==> id->0@ == s@,
    {
        let chars = text::chars_of(s.as_str());
        if scheme::sha1_digits(chars.as_slice()) {
            Some(ObjectId(s))
        } else {
            None
        }
    }

    pub fn as_str(&self) -> (s: &str)
        ensures
            s@ == self@,
    {
        self.0.as_str()
    }

    /// The first eight bytes of the id, all of a shorter one.
    pub fn short(&self) -> (s: String)
        requires
            cuts_at(self@, 8),
        ensures
            s@ == cut_to(self@, 8),
    {
        leading_bytes(self.0.as_str(), 8)
    }

    /// Whether two ids are the same.
    pub fn same(&self, other: &ObjectId) -> (yes: bool)
        ensures
            yes == (self@ == other@),
    {
        text::same_text(self.as_str(), other.as_str())
    }
}

/// Whether a character of a text starts behind its first `n` bytes, or it has no
/// more bytes.
pub open spec fn cuts_at(s: Seq<char>, n: int) -> bool {
    text::utf8(s).len() > n ==> is_char_boundary(text::utf8(s), n)
}

/// The first `n` bytes of a text, all of a shorter one.
pub open spec fn cut_to(s: Seq<char>, n: int) -> Seq<char> {
    if text::utf8(s).len() > n {
        decode_utf8(text::utf8(s).subrange(0, n))
    } else {
        s
    }
}

/// ASCII texts can be cut anywhere.
pub proof fn cut_ascii(s: Seq<char>, n: int)
    requires
        is_ascii_chars(s),
        0 <= n,
    ensures
        cuts_at(s, n),
        cut_to(s, n) == (if s.len() > n { s.take(n) } else { s }),
{
    is_ascii_chars_encode_utf8(s);
    if s.len() > n {
        let head = s.take(n);
        is_ascii_chars_encode_utf8(head);
        let b = text::utf8(s);
        assert forall|i: int| 0 <= i < n implies text::utf8(head)[i] == b[i] by {
            assert(head[i] == s[i]);
        }
        assert(text::utf8(head) =~= b.subrange(0, n));
        encode_utf8_decode_utf8(head);
        encode_utf8_valid_utf8(s);
        assert(s[n] as u8 == b[n]);
        is_char_boundary_iff_is_leading_byte(b, n);
    }
}

/// The first `n` bytes of a text, all of a shorter one.
pub fn leading_bytes(s: &str, n: usize) -> (out: String)
    requires
        cuts_at(s@, n as int),
    ensures
        out@ == cut_to(s@, n as int),
{
    let bytes = s.as_bytes();
    if bytes.len() <= n {
        return text::copy_str(s);
    }
    let head = vstd::slice::slice_subrange(bytes, 0, n);
    proof {
        encode_utf8_valid_utf8(s@);
        valid_utf8_split(bytes@, n as int);
    }
    match text::from_utf8(vstd::slice::slice_to_vec(head)) {
        Some(text) => {
            proof {
                encode_utf8_decode_utf8(text@);
            }
            text
        },
        None => text::copy_str(s),
    }
}

/// Copies a list of ids.
pub fn copy_ids(list: &[ObjectId]) -> (out: Vec<ObjectId>)
    ensures
        id_texts(out@) == id_texts(list@),
        out@.len() == list@.len(),
{
    let mut out: Vec<ObjectId> = Vec::new();
    let mut i: usize = 0;
    while i < list.len()
        invariant
            i <= list.len(),
            out@.len() == i,
            forall|j: int| 0 <= j < i ==> (#[trigger] out@[j])@ == list@[j]@,
        decreases list.len() - i,
    {
        out.push(list[i].copy());
        i = i + 1;
    }
    proof {
        assert(id_texts(out@) =~= id_texts(list@));
    }
    out
}

/// A channel of the lattice.
#[derive(Clone, Copy, Debug, PartialEq, Eq, Structural)]
pub enum Gx {
    G1,
    G2,
    G3,
}

impl Gx {
    /// The place of the channel.
    pub open spec fn place(self) -> int {
        match self {
            Gx::G1 => 0,
            Gx::G2 => 1,
            Gx::G3 => 2,
        }
    }

    pub fn index(self) -> (i: usize)
        ensures
            i == self.place(),
            i < 3,
    {
        match self {
            Gx::G1 => 0,
            Gx::G2 => 1,
            Gx::G3 => 2,
        }
    }

    /// The channel's name.
    pub open spec fn title(self) -> Seq<char> {
        match self {
            Gx::G1 => "G1"@,
            Gx::G2 => "G2"@,
            Gx::G3 => "G3"@,
        }
    }

    pub fn name(self) -> (s: &'static str)
        ensures
            s@ == self.title(),
    {
        match self {
            Gx::G1 => "G1",
            Gx::G2 => "G2",
            Gx::G3 => "G3",
        }
    }

    /// The channels in order.
    pub fn all() -> (list: [Gx; 3])
        ensures
            list@ == seq![Gx::G1, Gx::G2, Gx::G3],
    {
        [Gx::G1, Gx::G2, Gx::G3]
    }
}

/// A commit: the states of the three channels, the bit frequencies, the parents
/// and a message.
#[derive(Clone, Debug, PartialEq, Eq)]
pub struct Commit {
    pub trees: [ObjectId; 3],
    pub tf: ObjectId,
    pub parents: Vec<ObjectId>,
    pub message: String,
}

/// What a commit says.
#[verifier::ext_equal]
pub struct CommitModel {
    pub trees: Seq<Seq<char>>,
    pub tf: Seq<char>,
    pub parents: Seq<Seq<char>>,
    pub message: Seq<char>,
}

impl View for Commit {
    type V = CommitModel;

    open spec fn view(&self) -> CommitModel {
        CommitModel { trees: id_texts(self.trees@), tf: self.tf@, parents: id_texts(self.parents@), message: self.message@ }
    }
}

/// The bytes of a list of ids.
pub open spec fn id_bytes(list: Seq<Seq<char>>) -> Seq<u8>
    decreases list.len(),
{
    if list.len() == 0 {
        Seq::empty()
    } else {
        id_bytes(list.drop_last()) + text::utf8(list.last())
    }
}

/// Four little-endian bytes of the low half of a length.
pub open spec fn length_bytes(n: nat) -> Seq<u8> {
    vstd::bytes::spec_u32_to_le_bytes(n as u32)
}

/// The byte form of a commit.
pub open spec fn commit_bytes(c: CommitModel) -> Seq<u8> {
    COMMIT_TAG@ + seq![0u8] + id_bytes(c.trees) + text::utf8(c.tf) + seq![0u8] + length_bytes(c.parents.len()) + id_bytes(
        c.parents,
    ) + length_bytes(text::utf8(c.message).len()) + text::utf8(c.message)
}

/// Commits whose byte form can be read back: proper ids, three trees, and lengths
/// of four bytes.
pub open spec fn readable(c: CommitModel) -> bool {
    &&& c.trees.len() == 3
    &&& forall|i: int| 0 <= i < 3 ==> scheme::is_sha1(#[trigger] c.trees[i])
    &&& scheme::is_sha1(c.tf)
    &&& c.parents.len() <= u32::MAX
    &&& forall|i: int| 0 <= i < c.parents.len() ==> scheme::is_sha1(#[trigger] c.parents[i])
    &&& text::utf8(c.message).len() <= u32::MAX
}

/// Commits whose parts have their places in the byte form: three trees, ids of forty
/// bytes, and lengths of four bytes.
pub open spec fn framed(c: CommitModel) -> bool {
    &&& c.trees.len() == 3
    &&& forall|i: int| 0 <= i < 3 ==> text::utf8(#[trigger] c.trees[i]).len() == 40
    &&& text::utf8(c.tf).len() == 40
    &&& c.parents.len() <= u32::MAX
    &&& forall|i: int| 0 <= i < c.parents.len() ==> text::utf8(#[trigger] c.parents[i]).len() == 40
    &&& text::utf8(c.message).len() <= u32::MAX
}

/// Readable commits have their parts at their places.
proof fn readable_framed(c: CommitModel)
    requires
        readable(c),
    ensures
        framed(c),
{
    assert forall|i: int| 0 <= i < 3 implies text::utf8(#[trigger] c.trees[i]).len() == 40 by {
        id_width(c.trees[i]);
    }
    id_width(c.tf);
    assert forall|i: int| 0 <= i < c.parents.len() implies text::utf8(#[trigger] c.parents[i]).len() == 40 by {
        id_width(c.parents[i]);
    }
}

/// Whether a byte string begins with the byte form of a readable commit.
pub open spec fn shows_commit(bytes: Seq<u8>, c: CommitModel) -> bool {
    readable(c) && commit_bytes(c).is_prefix_of(bytes)
}

/// The parts of a commit at their places in a byte string.
spec fn laid_out(bytes: Seq<u8>, c: CommitModel) -> bool {
    let n = c.parents.len() as int;
    let m = text::utf8(c.message).len() as int;
    &&& bytes.len() >= 176 + 40 * n + m
    &&& bytes.subrange(0, 6) == COMMIT_TAG@
    &&& bytes[6] == 0
    &&& forall|i: int| 0 <= i < 3 ==> bytes.subrange(7 + 40 * i, 47 + 40 * i) == text::utf8(#[trigger] c.trees[i])
    &&& bytes.subrange(127, 167) == text::utf8(c.tf)
    &&& bytes[167] == 0
    &&& bytes.subrange(168, 172) == length_bytes(c.parents.len())
    &&& forall|i: int| 0 <= i < n ==> bytes.subrange(172 + 40 * i, 212 + 40 * i) == text::utf8(#[trigger] c.parents[i])
    &&& bytes.subrange(172 + 40 * n, 176 + 40 * n) == length_bytes(text::utf8(c.message).len())
    &&& bytes.subrange(176 + 40 * n, 176 + 40 * n + m) == text::utf8(c.message)
}

/// An id has forty bytes.
pub proof fn id_width(s: Seq<char>)
    requires
        scheme::is_sha1(s),
    ensures
        text::utf8(s).len() == 40,
        is_ascii_chars(s),
{
    assert forall|i: int| 0 <= i < s.len() implies 0 <= #[trigger] s[i] < 128 by {
        assert(digest::is_hex_char(s[i]));
    }
    is_ascii_chars_encode_utf8(s);
}

/// The ids of a list stand one behind the other.
proof fn id_bytes_facts(list: Seq<Seq<char>>)
    requires
        forall|i: int| 0 <= i < list.len() ==> text::utf8(#[trigger] list[i]).len() == 40,
    ensures
        id_bytes(list).len() == 40 * list.len(),
        forall|i: int| 0 <= i < list.len() ==> id_bytes(list).subrange(40 * i, 40 * i + 40) == text::utf8(#[trigger] list[i]),
    decreases list.len(),
{
    if list.len() > 0 {
        let p = list.drop_last();
        id_bytes_facts(p);
        assert(text::utf8(list[list.len() - 1]).len() == 40);
        let b = id_bytes(list);
        assert forall|i: int| 0 <= i < list.len() implies b.subrange(40 * i, 40 * i + 40) == text::utf8(#[trigger] list[i]) by {
            if i < p.len() {
                assert(p[i] == list[i]);
                assert(b.subrange(40 * i, 40 * i + 40) =~= id_bytes(p).subrange(40 * i, 40 * i + 40));
            } else {
                assert(b.subrange(40 * i, 40 * i + 40) =~= text::utf8(list.last()));
            }
        }
    }
}

/// Ids that stand one behind the other make up their list.
proof fn id_bytes_from(list: Seq<Seq<char>>, bytes: Seq<u8>, at: int)
    requires
        0 <= at,
        at + 40 * list.len() <= bytes.len(),
        forall|i: int|
            0 <= i < list.len() ==> bytes.subrange(at + 40 * i, at + 40 * i + 40) == text::utf8(#[trigger] list[i]),
    ensures
        id_bytes(list) == bytes.subrange(at, at + 40 * list.len()),
    decreases list.len(),
{
    if list.len() == 0 {
        assert(bytes.subrange(at, at) =~= Seq::empty());
    } else {
        let p = list.drop_last();
        assert forall|i: int| 0 <= i < p.len() implies bytes.subrange(at + 40 * i, at + 40 * i + 40) == text::utf8(
            #[trigger] p[i],
        ) by {
            assert(p[i] == list[i]);
        }
        id_bytes_from(p, bytes, at);
        let k = list.len() - 1;
        assert(list[k] == list.last());
        assert(bytes.subrange(at, at + 40 * k) + bytes.subrange(at + 40 * k, at + 40 * k + 40) =~= bytes.subrange(
            at,
            at + 40 * list.len(),
        ));
    }
}

/// A byte string begins with the byte form of a commit exactly where its parts
/// stand at their places.
proof fn layout(bytes: Seq<u8>, c: CommitModel)
    requires
        framed(c),
    ensures
        commit_bytes(c).is_prefix_of(bytes) == laid_out(bytes, c),
{
    vstd::bytes::lemma_auto_spec_u32_to_from_le_bytes();
    id_bytes_facts(c.trees);
    id_bytes_facts(c.parents);
    let n = c.parents.len() as int;
    let m = text::utf8(c.message).len() as int;
    let full = commit_bytes(c);
    assert(COMMIT_TAG@.len() == 6);
    assert(full.len() == 176 + 40 * n + m);
    if laid_out(bytes, c) {
        let b = bytes;
        assert forall|i: int| 0 <= i < 3 implies b.subrange(7 + 40 * i, 7 + 40 * i + 40) == text::utf8(#[trigger] c.trees[i]) by {}
        id_bytes_from(c.trees, b, 7);
        assert forall|i: int| 0 <= i < n implies b.subrange(172 + 40 * i, 172 + 40 * i + 40) == text::utf8(
            #[trigger] c.parents[i],
        ) by {}
        id_bytes_from(c.parents, b, 172);
        let q1 = COMMIT_TAG@ + seq![0u8];
        assert(q1 =~= b.subrange(0, 7));
        let q2 = q1 + id_bytes(c.trees);
        assert(q2 =~= b.subrange(0, 127));
        let q3 = q2 + text::utf8(c.tf);
        assert(q3 =~= b.subrange(0, 167));
        let q4 = q3 + seq![0u8];
        assert(q4 =~= b.subrange(0, 168));
        let q5 = q4 + length_bytes(c.parents.len());
        assert(q5 =~= b.subrange(0, 172));
        let q6 = q5 + id_bytes(c.parents);
        assert(q6 =~= b.subrange(0, 172 + 40 * n));
        let q7 = q6 + length_bytes(text::utf8(c.message).len());
        assert(q7 =~= b.subrange(0, 176 + 40 * n));
        assert(q7 + text::utf8(c.message) =~= b.subrange(0, 176 + 40 * n + m));
        assert(full =~= b.subrange(0, full.len() as int));
    }
    if full.is_prefix_of(bytes) {
        layout_of_prefix(bytes, c);
    }
}

proof fn layout_of_prefix(bytes: Seq<u8>, c: CommitModel)
    requires
        framed(c),
        commit_bytes(c).is_prefix_of(bytes),
    ensures
        laid_out(bytes, c),
{
    vstd::bytes::lemma_auto_spec_u32_to_from_le_bytes();
    id_bytes_facts(c.trees);
    id_bytes_facts(c.parents);
    let n = c.parents.len() as int;
    let m = text::utf8(c.message).len() as int;
    let full = commit_bytes(c);
    assert(COMMIT_TAG@.len() == 6);
    let q4 = COMMIT_TAG@ + seq![0u8] + id_bytes(c.trees) + text::utf8(c.tf) + seq![0u8];
    let q6 = q4 + length_bytes(c.parents.len()) + id_bytes(c.parents);
    assert(q4.len() == 168);
    assert(q6.len() == 172 + 40 * n);
    assert(full == q6 + length_bytes(text::utf8(c.message).len()) + text::utf8(c.message));
    assert(full.len() == 176 + 40 * n + m);
    assert forall|i: int| 0 <= i < full.len() implies bytes[i] == full[i] by {
        assert(bytes.subrange(0, full.len() as int)[i] == bytes[i]);
    }
    assert forall|i: int| 0 <= i < 168 implies full[i] == q4[i] by {
        assert(q6[i] == q4[i]);
    }
    assert(bytes.subrange(0, 6) =~= COMMIT_TAG@);
    assert(bytes[6] == 0);
    assert forall|i: int| 0 <= i < 3 implies bytes.subrange(7 + 40 * i, 47 + 40 * i) == text::utf8(#[trigger] c.trees[i]) by {
        let s = id_bytes(c.trees).subrange(40 * i, 40 * i + 40);
        assert forall|k: int| 0 <= k < 40 implies bytes.subrange(7 + 40 * i, 47 + 40 * i)[k] == s[k] by {
            assert(bytes[7 + 40 * i + k] == q4[7 + 40 * i + k]);
        }
        assert(bytes.subrange(7 + 40 * i, 47 + 40 * i) =~= s);
    }
    assert(bytes.subrange(127, 167) =~= text::utf8(c.tf));
    assert(bytes[167] == 0);
    assert(bytes.subrange(168, 172) =~= length_bytes(c.parents.len()));
    assert forall|i: int| 0 <= i < n implies bytes.subrange(172 + 40 * i, 212 + 40 * i) == text::utf8(#[trigger] c.parents[i]) by {
        let s = id_bytes(c.parents).subrange(40 * i, 40 * i + 40);
        assert forall|k: int| 0 <= k < 40 implies bytes.subrange(172 + 40 * i, 212 + 40 * i)[k] == s[k] by {
            assert(bytes[172 + 40 * i + k] == q6[172 + 40 * i + k]);
        }
        assert(bytes.subrange(172 + 40 * i, 212 + 40 * i) =~= s);
    }
    assert(bytes.subrange(172 + 40 * n, 176 + 40 * n) =~= length_bytes(text::utf8(c.message).len()));
    assert(bytes.subrange(176 + 40 * n, 176 + 40 * n + m) =~= text::utf8(c.message));
}

/// The byte form is self-delimiting: no two commits begin the same byte string.
proof fn begun_unique(bytes: Seq<u8>, c: CommitModel, d: CommitModel)
    requires
        framed(c),
        framed(d),
        commit_bytes(c).is_prefix_of(bytes),
        commit_bytes(d).is_prefix_of(bytes),
    ensures
        c == d,
{
    vstd::bytes::lemma_auto_spec_u32_to_from_le_bytes();
    layout(bytes, c);
    layout(bytes, d);
    assert(c.parents.len() as u32 == d.parents.len() as u32);
    assert(text::utf8(c.message).len() as u32 == text::utf8(d.message).len() as u32);
    assert forall|i: int| 0 <= i < 3 implies c.trees[i] == d.trees[i] by {
        text::utf8_injective(c.trees[i], d.trees[i]);
    }
    assert(c.trees =~= d.trees);
    assert forall|i: int| 0 <= i < c.parents.len() implies c.parents[i] == d.parents[i] by {
        text::utf8_injective(c.parents[i], d.parents[i]);
    }
    assert(c.parents =~= d.parents);
    text::utf8_injective(c.tf, d.tf);
    text::utf8_injective(c.message, d.message);
}

/// The byte form of a commit determines it, and has a known length.
pub proof fn commit_bytes_injective(c: CommitModel, d: CommitModel)
    requires
        framed(c),
        framed(d),
    ensures
        commit_bytes(c) == commit_bytes(d) <==> c == d,
        commit_bytes(c).len() == 176 + 40 * c.parents.len() + text::utf8(c.message).len(),
        commit_bytes(c).take(7) == COMMIT_TAG@ + seq![0u8],
{
    let b = commit_bytes(c);
    assert(b =~= b.subrange(0, b.len() as int));
    layout(b, c);
    vstd::bytes::lemma_auto_spec_u32_to_from_le_bytes();
    id_bytes_facts(c.trees);
    id_bytes_facts(c.parents);
    assert(COMMIT_TAG@.len() == 6);
    assert(b.take(7) =~= COMMIT_TAG@ + seq![0u8]) by {
        assert(b.subrange(0, 6) =~= b.take(6));
        assert(b.take(7) =~= b.take(6).push(b[6]));
    }
    if commit_bytes(c) == commit_bytes(d) {
        begun_unique(b, c, d);
    }
}

/// Byte forms of commits are not prefixes of one another: a byte string shows at
/// most one commit.
pub proof fn shown_commit_unique(bytes: Seq<u8>, c: CommitModel, d: CommitModel)
    requires
        shows_commit(bytes, c),
        shows_commit(bytes, d),
    ensures
        c == d,
{
    readable_framed(c);
    readable_framed(d);
    begun_unique(bytes, c, d);
}

/// What a readable commit is written as is read as that commit.
pub proof fn commit_round_trip(c: CommitModel)
    requires
        readable(c),
    ensures
        shows_commit(commit_bytes(c), c),
        forall|d: CommitModel| #[trigger] shows_commit(commit_bytes(c), d) ==> d == c,
{
    let b = commit_bytes(c);
    assert(b =~= b.subrange(0, b.len() as int));
    assert forall|d: CommitModel| #[trigger] shows_commit(b, d) implies d == c by {
        shown_commit_unique(b, c, d);
    }
}

/// Reads an id at a place.
fn read_id(bytes: &[u8], at: usize) -> (id: Option<ObjectId>)
    requires
        at <= bytes@.len(),
    ensures
        id is Some ==> at + 40 <= bytes@.len() && scheme::is_sha1(id->0@) && text::utf8(id->0@) == bytes@.subrange(
            at as int,
            at + 40,
        ),
        id is None ==> forall|s: Seq<char>|
            scheme::is_sha1(s) && at + 40 <= bytes@.len() ==> #[trigger] text::utf8(s) != bytes@.subrange(at as int, at + 40),
{
    if bytes.len() - at < 40 {
        return None;
    }
    let part = vstd::slice::slice_subrange(bytes, at, at + 40);
    match text::from_utf8(vstd::slice::slice_to_vec(part)) {
        None => {
            proof {
                assert forall|s: Seq<char>| scheme::is_sha1(s) implies #[trigger] text::utf8(s) != part@ by {
                    encode_utf8_valid_utf8(s);
                }
            }
            None
        },
        Some(text) => {
            let ghost t = text@;
            let id = ObjectId::validated(text);
            proof {
                assert forall|s: Seq<char>| scheme::is_sha1(s) && #[trigger] text::utf8(s) == part@ implies s == t by {
                    text::utf8_injective(s, t);
                }
            }
            id
        },
    }
}

/// Reads a length at a place.
fn read_length(bytes: &[u8], at: usize) -> (n: Option<u32>)
    requires
        at <= bytes@.len(),
    ensures
        n is Some <==> at + 4 <= bytes@.len(),
        n is Some ==> n->0 == vstd::bytes::spec_u32_from_le_bytes(bytes@.subrange(at as int, at + 4)),
{
    if bytes.len() - at < 4 {
        return None;
    }
    let part = vstd::slice::slice_subrange(bytes, at, at + 4);
    Some(vstd::bytes::u32_from_le_bytes(part))
}

/// Appends the bytes of a text.
fn push_text(out: &mut Vec<u8>, s: &str)
    ensures
        final(out)@ == old(out)@ + text::utf8(s@),
{
    let mut bytes = vstd::slice::slice_to_vec(s.as_bytes());
    out.append(&mut bytes);
}

/// Appends the bytes of a length.
fn push_length(out: &mut Vec<u8>, n: usize)
    ensures
        final(out)@ == old(out)@ + length_bytes(n as nat),
{
    let mut bytes = vstd::bytes::u32_to_le_bytes(n as u32);
    out.append(&mut bytes);
}

/// Appends the bytes of a list of ids.
fn push_ids(out: &mut Vec<u8>, list: &[ObjectId])
    ensures
        final(out)@ == old(out)@ + id_bytes(id_texts(list@)),
{
    let ghost start = out@;
    let ghost all = id_texts(list@);
    let mut i: usize = 0;
    proof {
        assert(all.take(0) =~= Seq::<Seq<char>>::empty());
        assert(out@ =~= start + id_bytes(all.take(0)));
    }
    while i < list.len()
        invariant
            i <= list.len(),
            all == id_texts(list@),
            out@ == start + id_bytes(all.take(i as int)),
        decreases list.len() - i,
    {
        push_text(out, list[i].as_str());
        proof {
            let next = all.take(i as int + 1);
            assert(next.drop_last() =~= all.take(i as int));
            assert(next.last() == list@[i as int]@);
            assert(out@ =~= start + id_bytes(next));
        }
        i = i + 1;
    }
    proof {
        assert(all.take(i as int) =~= all);
    }
}

impl Commit {
    /// Copies the commit.
    pub fn copy(&self) -> (c: Commit)
        ensures
            c@ == self@,
    {
        let c = Commit {
            trees: [self.trees[0].copy(), self.trees[1].copy(), self.trees[2].copy()],
            tf: self.tf.copy(),
            parents: copy_ids(self.parents.as_slice()),
            message: self.message.clone(),
        };
        proof {
            assert(id_texts(c.trees@) =~= id_texts(self.trees@));
        }
        c
    }

    /// The byte form.
    pub fn serialize(&self) -> (out: Vec<u8>)
        ensures
            out@ == commit_bytes(self@),
    {
        let mut out = vstd::slice::slice_to_vec(vstd::array::array_as_slice(&COMMIT_TAG));
        out.push(0);
        push_ids(&mut out, vstd::array::array_as_slice(&self.trees));
        push_text(&mut out, self.tf.as_str());
        out.push(0);
        push_length(&mut out, self.parents.len());
        push_ids(&mut out, self.parents.as_slice());
        push_length(&mut out, self.message.as_str().as_bytes().len());
        push_text(&mut out, self.message.as_str());
        proof {
            assert(out@ =~= commit_bytes(self@));
        }
        out
    }

    /// Reads a commit from its byte form; what follows it is not looked at.
    pub fn deserialize(bytes: &[u8]) -> (c: Option<Commit>)
        ensures
            c is Some ==> shows_commit(bytes@, c->0@),
            c is None ==> forall|d: CommitModel| !#[trigger] shows_commit(bytes@, d),
    {
        proof {
            assert forall|d: CommitModel| #[trigger] shows_commit(bytes@, d) implies laid_out(bytes@, d) by {
                readable_framed(d);
                layout(bytes@, d);
            }
        }
        if bytes.len() < 168 {
            return None;
        }
        if !order::bytes_equal(vstd::slice::slice_subrange(bytes, 0, 6), vstd::array::array_as_slice(&COMMIT_TAG)) || bytes[6]
            != 0 || bytes[167] != 0 {
            return None;
        }
        let t0 = match read_id(bytes, 7) {
            Some(id) => id,
            None => {
                proof {
                    assert forall|d: CommitModel| !#[trigger] shows_commit(bytes@, d) by {
                        if shows_commit(bytes@, d) {
                            assert(text::utf8(d.trees[0]) == bytes@.subrange(7, 47));
                        }
                    }
                }
                return None;
            },
        };
        let t1 = match read_id(bytes, 47) {
            Some(id) => id,
            None => {
                proof {
                    assert forall|d: CommitModel| !#[trigger] shows_commit(bytes@, d) by {
                        if shows_commit(bytes@, d) {
                            assert(text::utf8(d.trees[1]) == bytes@.subrange(47, 87));
                        }
                    }
                }
                return None;
            },
        };
        let t2 = match read_id(bytes, 87) {
            Some(id) => id,
            None => {
                proof {
                    assert forall|d: CommitModel| !#[trigger] shows_commit(bytes@, d) by {
                        if shows_commit(bytes@, d) {
                            assert(text::utf8(d.trees[2]) == bytes@.subrange(87, 127));
                        }
                    }
                }
                return None;
            },
        };
        let tf = match read_id(bytes, 127) {
            Some(id) => id,
            None => {
                return None;
            },
        };
        let count = match read_length(bytes, 168) {
            Some(n) => n,
            None => {
                return None;
            },
        };
        proof {
            vstd::bytes::lemma_auto_spec_u32_to_from_le_bytes();
            assert forall|d: CommitModel| #[trigger] shows_commit(bytes@, d) implies d.parents.len() == count by {
                assert(length_bytes(d.parents.len()) == bytes@.subrange(168, 172));
            }
        }
        let mut parents: Vec<ObjectId> = Vec::new();
        let mut i: u32 = 0;
        let mut at: usize = 172;
        let total = bytes.len();
        while i < count
            invariant
                i <= count,
                total == bytes@.len(),
                at == 172 + 40 * i,
                at <= bytes@.len(),
                parents@.len() == i,
                forall|j: int|
                    0 <= j < i ==> scheme::is_sha1((#[trigger] parents@[j])@) && text::utf8(parents@[j]@) == bytes@.subrange(
                        172 + 40 * j,
                        212 + 40 * j,
                    ),
                forall|d: CommitModel| #[trigger] shows_commit(bytes@, d) ==> d.parents.len() == count,
                forall|d: CommitModel| #[trigger] shows_commit(bytes@, d) ==> laid_out(bytes@, d),
            decreases count - i,
        {
            match read_id(bytes, at) {
                Some(id) => {
                    parents.push(id);
                },
                None => {
                    proof {
                        assert forall|d: CommitModel| !#[trigger] shows_commit(bytes@, d) by {
                            if shows_commit(bytes@, d) {
                                let k = i as int;
                                assert(scheme::is_sha1(d.parents[k]));
                                assert(text::utf8(d.parents[k]) == bytes@.subrange(172 + 40 * k, 212 + 40 * k));
                            }
                        }
                    }
                    return None;
                },
            }
            at = at + 40;
            i = i + 1;
        }
        let size = match read_length(bytes, at) {
            Some(n) => n,
            None => {
                return None;
            },
        };
        at = at + 4;
        proof {
            assert forall|d: CommitModel| #[trigger] shows_commit(bytes@, d) implies text::utf8(d.message).len() == size by {
                assert(length_bytes(text::utf8(d.message).len()) == bytes@.subrange(172 + 40 * count, 176 + 40 * count));
            }
        }
        if bytes.len() - at < size as usize {
            return None;
        }
        let part = vstd::slice::slice_subrange(bytes, at, at + size as usize);
        match text::from_utf8(vstd::slice::slice_to_vec(part)) {
            None => {
                proof {
                    assert forall|d: CommitModel| !#[trigger] shows_commit(bytes@, d) by {
                        if shows_commit(bytes@, d) {
                            encode_utf8_valid_utf8(d.message);
                            assert(text::utf8(d.message) == bytes@.subrange(176 + 40 * count, 176 + 40 * count + size));
                        }
                    }
                }
                None
            },
            Some(message) => {
                let c = Commit { trees: [t0, t1, t2], tf, parents, message };
                proof {
                    let d = c@;
                    assert(d.trees =~= seq![t0@, t1@, t2@]);
                    assert(d.trees[0] == t0@ && d.trees[1] == t1@ && d.trees[2] == t2@);
                    assert(readable(d)) by {
                        assert forall|j: int| 0 <= j < d.parents.len() implies scheme::is_sha1(#[trigger] d.parents[j]) by {
                            assert(d.parents[j] == parents@[j]@);
                        }
                    }
                    assert(laid_out(bytes@, d)) by {
                        assert forall|j: int| 0 <= j < 3 implies bytes@.subrange(7 + 40 * j, 47 + 40 * j) == text::utf8(
                            #[trigger] d.trees[j],
                        ) by {
                            if j == 0 {
                            } else if j == 1 {
                            } else {
                            }
                        }
                        assert forall|j: int| 0 <= j < d.parents.len() implies bytes@.subrange(
                            172 + 40 * j,
                            212 + 40 * j,
                        ) == text::utf8(#[trigger] d.parents[j]) by {
                            assert(d.parents[j] == parents@[j]@);
                        }
                        assert(vstd::bytes::spec_u32_to_le_bytes(count) == bytes@.subrange(168, 172));
                        assert(vstd::bytes::spec_u32_to_le_bytes(size) == bytes@.subrange(
                            172 + 40 * count,
                            176 + 40 * count,
                        ));
                    }
                    readable_framed(d);
                    layout(bytes@, d);
                }
                Some(c)
            },
        }
    }

    /// The id of the byte form.
    pub fn id(&self) -> (id: ObjectId)
        ensures
            id@ == digest::sha1_text(commit_bytes(self@)),
            scheme::is_sha1(id@),
    {
        ObjectId::of_bytes(self.serialize().as_slice())
    }
}

/// An object: raw bytes or a commit.
#[derive(Clone, Debug, PartialEq, Eq)]
pub enum Object {
    Blob(Vec<u8>),
    Commit(Box<Commit>),
}

/// What stands under an id: an object by what it says, or something that cannot be
/// read, by the words of the failure.
pub enum ObjectModel {
    Blob(Seq<u8>),
    Commit(CommitModel),
    Spoiled(Seq<char>),
}

impl View for Object {
    type V = ObjectModel;

    open spec fn view(&self) -> ObjectModel {
        match self {
            Object::Blob(data) => ObjectModel::Blob(data@),
            Object::Commit(c) => ObjectModel::Commit((**c)@),
        }
    }
}

/// The byte form of a blob.
pub open spec fn blob_bytes(data: Seq<u8>) -> Seq<u8> {
    BLOB_TAG@ + seq![0u8] + length_bytes(data.len()) + data
}

/// The byte form of an object; none of what cannot be read.
pub open spec fn object_bytes(o: ObjectModel) -> Seq<u8> {
    match o {
        ObjectModel::Blob(data) => blob_bytes(data),
        ObjectModel::Commit(c) => commit_bytes(c),
        ObjectModel::Spoiled(_) => Seq::empty(),
    }
}

/// The id of an object.
pub open spec fn id_of(o: ObjectModel) -> Seq<char> {
    digest::sha1_text(object_bytes(o))
}

/// Whether a byte string begins with the byte form of an object that can be read
/// back.
pub open spec fn shows(bytes: Seq<u8>, o: ObjectModel) -> bool {
    match o {
        ObjectModel::Blob(data) => data.len() <= u32::MAX && blob_bytes(data).is_prefix_of(bytes),
        ObjectModel::Commit(c) => shows_commit(bytes, c),
        ObjectModel::Spoiled(_) => false,
    }
}

/// The parts of a blob at their places.
proof fn blob_layout(bytes: Seq<u8>, data: Seq<u8>)
    requires
        data.len() <= u32::MAX,
    ensures
        blob_bytes(data).is_prefix_of(bytes) == (bytes.len() >= 9 + data.len() && bytes.subrange(0, 4) == BLOB_TAG@
            && bytes[4] == 0 && bytes.subrange(5, 9) == length_bytes(data.len()) && bytes.subrange(9, 9 + data.len() as int)
            == data),
{
    vstd::bytes::lemma_auto_spec_u32_to_from_le_bytes();
    let full = blob_bytes(data);
    assert(BLOB_TAG@.len() == 4);
    assert(full.len() == 9 + data.len() as int);
    if full.is_prefix_of(bytes) {
        assert forall|i: int| 0 <= i < full.len() implies bytes[i] == full[i] by {
            assert(bytes.subrange(0, full.len() as int)[i] == bytes[i]);
        }
        assert(bytes.subrange(0, 4) =~= BLOB_TAG@);
        assert(bytes.subrange(5, 9) =~= length_bytes(data.len()));
        assert(bytes.subrange(9, 9 + data.len() as int) =~= data);
    } else if bytes.len() >= 9 + data.len() && bytes.subrange(0, 4) == BLOB_TAG@ && bytes[4] == 0 && bytes.subrange(5, 9)
        == length_bytes(data.len()) && bytes.subrange(9, 9 + data.len() as int) == data {
        let q = BLOB_TAG@ + seq![0u8];
        assert(q =~= bytes.subrange(0, 5));
        assert(q + length_bytes(data.len()) =~= bytes.subrange(0, 9));
        assert(full =~= bytes.subrange(0, full.len() as int));
    }
}

/// A byte string shows at most one object.
pub proof fn shown_unique(bytes: Seq<u8>, o: ObjectModel, p: ObjectModel)
    requires
        shows(bytes, o),
        shows(bytes, p),
    ensures
        o == p,
{
    vstd::bytes::lemma_auto_spec_u32_to_from_le_bytes();
    match o {
        ObjectModel::Blob(a) => {
            blob_layout(bytes, a);
            match p {
                ObjectModel::Blob(b) => {
                    blob_layout(bytes, b);
                    assert(a.len() as u32 == b.len() as u32);
                    assert(a =~= b);
                },
                ObjectModel::Commit(c) => {
                    readable_framed(c);
                    layout(bytes, c);
                    assert(bytes.subrange(0, 4)[0] == bytes[0]);
                    assert(bytes.subrange(0, 6)[0] == bytes[0]);
                },
                ObjectModel::Spoiled(_) => {},
            }
        },
        ObjectModel::Commit(c) => {
            readable_framed(c);
            layout(bytes, c);
            match p {
                ObjectModel::Blob(b) => {
                    blob_layout(bytes, b);
                    assert(bytes.subrange(0, 4)[0] == bytes[0]);
                    assert(bytes.subrange(0, 6)[0] == bytes[0]);
                },
                ObjectModel::Commit(d) => {
                    shown_commit_unique(bytes, c, d);
                },
                ObjectModel::Spoiled(_) => {},
            }
        },
        ObjectModel::Spoiled(_) => {},
    }
}

/// What an object is written as is read as that object, where its lengths fit
/// into four bytes and its ids are ids.
pub proof fn object_round_trip(o: ObjectModel)
    requires
        match o {
            ObjectModel::Blob(data) => data.len() <= u32::MAX,
            ObjectModel::Commit(c) => readable(c),
            ObjectModel::Spoiled(_) => false,
        },
    ensures
        shows(object_bytes(o), o),
        forall|p: ObjectModel| #[trigger] shows(object_bytes(o), p) ==> p == o,
{
    let b = object_bytes(o);
    assert(b =~= b.subrange(0, b.len() as int));
    assert forall|p: ObjectModel| #[trigger] shows(b, p) implies p == o by {
        shown_unique(b, o, p);
    }
}

impl Object {
    /// Copies the object.
    pub fn copy(&self) -> (o: Object)
        ensures
            o@ == self@,
    {
        match self {
            Object::Blob(data) => Object::Blob(vstd::slice::slice_to_vec(data.as_slice())),
            Object::Commit(c) => Object::Commit(Box::new(c.copy())),
        }
    }

    /// The byte form.
    pub fn serialize(&self) -> (out: Vec<u8>)
        ensures
            out@ == object_bytes(self@),
    {
        match self {
            Object::Blob(data) => {
                let mut out = vstd::slice::slice_to_vec(vstd::array::array_as_slice(&BLOB_TAG));
                out.push(0);
                push_length(&mut out, data.len());
                let mut rest = vstd::slice::slice_to_vec(data.as_slice());
                out.append(&mut rest);
                proof {
                    assert(out@ =~= blob_bytes(data@));
                }
                out
            },
            Object::Commit(c) => c.serialize(),
        }
    }

    /// Reads an object from its byte form; what follows it is not looked at.
    pub fn deserialize(bytes: &[u8]) -> (o: Option<Object>)
        ensures
            o is Some ==> shows(bytes@, o->0@),
            o is None ==> forall|p: ObjectModel| !#[trigger] shows(bytes@, p),
    {
        proof {
            vstd::bytes::lemma_auto_spec_u32_to_from_le_bytes();
            assert forall|c: CommitModel| #[trigger] shows_commit(bytes@, c) implies laid_out(bytes@, c) by {
                readable_framed(c);
                layout(bytes@, c);
            }
            assert forall|p: ObjectModel| #[trigger] shows(bytes@, p) implies (match p {
                ObjectModel::Blob(data) => bytes@.len() >= 9 + data.len() && bytes@.subrange(0, 4) == BLOB_TAG@
                    && bytes@[4] == 0 && length_bytes(data.len()) == bytes@.subrange(5, 9) && bytes@.subrange(
                    9,
                    9 + data.len() as int,
                ) == data,
                ObjectModel::Commit(c) => laid_out(bytes@, c),
                ObjectModel::Spoiled(_) => false,
            }) by {
                match p {
                    ObjectModel::Blob(data) => {
                        blob_layout(bytes@, data);
                    },
                    _ => {},
                }
            }
            assert(bytes@.len() >= 6 ==> bytes@.subrange(0, 4)[0] == bytes@.subrange(0, 6)[0]);
        }
        if bytes.len() >= 6 && order::bytes_equal(
            vstd::slice::slice_subrange(bytes, 0, 6),
            vstd::array::array_as_slice(&COMMIT_TAG),
        ) {
            return match Commit::deserialize(bytes) {
                Some(c) => Some(Object::Commit(Box::new(c))),
                None => {
                    proof {
                        assert forall|p: ObjectModel| !#[trigger] shows(bytes@, p) by {
                            if shows(bytes@, p) {
                                match p {
                                    ObjectModel::Blob(data) => {
                                        assert(bytes@.subrange(0, 4)[0] == BLOB_TAG@[0]);
                                        assert(bytes@.subrange(0, 6)[0] == COMMIT_TAG@[0]);
                                    },
                                    ObjectModel::Commit(c) => {
                                        assert(!shows_commit(bytes@, c));
                                    },
                                    ObjectModel::Spoiled(_) => {},
                                }
                            }
                        }
                    }
                    None
                },
            };
        }
        if bytes.len() < 9 || !order::bytes_equal(
            vstd::slice::slice_subrange(bytes, 0, 4),
            vstd::array::array_as_slice(&BLOB_TAG),
        ) || bytes[4] != 0 {
            return None;
        }
        let size = match read_length(bytes, 5) {
            Some(n) => n,
            None => {
                return None;
            },
        };
        proof {
            assert forall|p: ObjectModel| #[trigger] shows(bytes@, p) implies (p matches ObjectModel::Blob(data)
                && data.len() == size) by {
                match p {
                    ObjectModel::Blob(data) => {
                        assert(length_bytes(data.len()) == bytes@.subrange(5, 9));
                    },
                    _ => {},
                }
            }
        }
        if bytes.len() - 9 < size as usize {
            return None;
        }
        let part = vstd::slice::slice_subrange(bytes, 9, 9 + size as usize);
        let data = vstd::slice::slice_to_vec(part);
        proof {
            assert(vstd::bytes::spec_u32_to_le_bytes(size) == bytes@.subrange(5, 9));
            blob_layout(bytes@, data@);
        }
        Some(Object::Blob(data))
    }

    /// The id of the byte form.
    pub fn id(&self) -> (id: ObjectId)
        ensures
            id@ == id_of(self@),
            scheme::is_sha1(id@),
    {
        ObjectId::of_bytes(self.serialize().as_slice())
    }
}

} // verus!
