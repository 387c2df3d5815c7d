//! HLLSets: finite sets of bits on the bit plane.

use vstd::prelude::*;

use crate::hashing::BitAddress;
use crate::hashing::PLANE;
use crate::digest;
use crate::hashing;
use crate::order;
use crate::text;

verus! {

/// A set of bits of the plane, as a bitmap of 512 words.
#[derive(Clone, Copy, Debug, PartialEq, Eq)]
pub struct HLLSet {
    words: [u64; 512],
}

/// Bit `k` of a word.
pub open spec fn word_bit(w: u64, k: u64) -> bool {
    (w >> k) & 1 == 1
}

/// The members of a set of bits below `n`, in ascending order.
pub open spec fn ascending(s: Set<u32>, n: nat) -> Seq<u32>
    decreases n,
{
    if n == 0 {
        Seq::empty()
    } else if s.contains((n - 1) as u32) {
        ascending(s, (n - 1) as nat).push((n - 1) as u32)
    } else {
        ascending(s, (n - 1) as nat)
    }
}

/// The members of a set of bits of the plane, in ascending order.
pub open spec fn bit_list(s: Set<u32>) -> Seq<u32> {
    ascending(s, PLANE as nat)
}

/// All members lie on the plane.
pub open spec fn on_plane(s: Set<u32>) -> bool {
    forall|b: u32| #[trigger] s.contains(b) ==> b < PLANE
}

pub proof fn ascending_facts(s: Set<u32>, n: nat)
    requires
        n <= PLANE,
    ensures
        forall|i: int| 0 <= i < ascending(s, n).len() ==> s.contains(#[trigger] ascending(s, n)[i]) && ascending(s, n)[i] < n,
        forall|i: int, j: int| 0 <= i < j < ascending(s, n).len() ==> #[trigger] ascending(s, n)[i] < #[trigger] ascending(s, n)[j],
        forall|b: u32| s.contains(b) && b < n ==> #[trigger] ascending(s, n).contains(b),
        s.filter(|b: u32| b < n).finite(),
        s.filter(|b: u32| b < n).len() == ascending(s, n).len(),
        ascending(s, n).len() <= n,
    decreases n,
{
    let f = s.filter(|b: u32| b < n);
    if n == 0 {
        assert(f =~= Set::<u32>::empty());
    } else {
        let m = (n - 1) as nat;
        let b = m as u32;
        ascending_facts(s, m);
        let g = s.filter(|b: u32| b < m);
        let prev = ascending(s, m);
        if s.contains(b) {
            assert(f =~= g.insert(b));
            assert forall|x: u32| s.contains(x) && x < n implies #[trigger] ascending(s, n).contains(x) by {
                if x < m {
                    assert(prev.contains(x));
                    let i = choose|i: int| 0 <= i < prev.len() && prev[i] == x;
                    assert(ascending(s, n)[i] == x);
                } else {
                    assert(ascending(s, n).last() == x);
                }
            }
        } else {
            assert(f =~= g);
        }
    }
}

/// A set of bits of the plane is finite, has as many members as its list, and
/// is determined by that list.
pub proof fn bit_list_facts(s: Set<u32>)
    requires
        on_plane(s),
    ensures
        s.finite(),
        s.len() == bit_list(s).len(),
        s.len() <= PLANE,
        bit_list(s).to_set() == s,
        forall|i: int| 0 <= i < bit_list(s).len() ==> #[trigger] bit_list(s)[i] < PLANE,
        forall|i: int, j: int| 0 <= i < j < bit_list(s).len() ==> #[trigger] bit_list(s)[i] < #[trigger] bit_list(s)[j],
{
    ascending_facts(s, PLANE as nat);
    assert(s.filter(|b: u32| b < PLANE as nat) =~= s);
    assert forall|b: u32| bit_list(s).to_set().contains(b) == s.contains(b) by {
        if s.contains(b) {
            assert(bit_list(s).contains(b));
        }
    }
    assert(bit_list(s).to_set() =~= s);
}

/// An ascending list of bits of the plane is the list of its own set.
pub proof fn bit_list_unique(list: Seq<u32>, n: nat)
    requires
        n <= PLANE,
        forall|i: int| 0 <= i < list.len() ==> #[trigger] list[i] < n,
        forall|i: int, j: int| 0 <= i < j < list.len() ==> #[trigger] list[i] < #[trigger] list[j],
    ensures
        ascending(list.to_set(), n) == list,
    decreases n,
{
    if n == 0 {
        if list.len() > 0 {
            assert(list[0] < n);
        }
        assert(list =~= Seq::<u32>::empty());
    } else {
        let m = (n - 1) as nat;
        let b = m as u32;
        if list.contains(b) {
            let i = choose|i: int| 0 <= i < list.len() && list[i] == b;
            if i < list.len() - 1 {
                assert(list[i] < list[list.len() - 1]);
                assert(list[list.len() - 1] < n);
            }
            let shorter = list.drop_last();
            assert forall|k: int| 0 <= k < shorter.len() implies #[trigger] shorter[k] < m by {
                assert(list[k] < list[list.len() - 1]);
            }
            bit_list_unique(shorter, m);
            assert forall|x: u32| x < b implies list.to_set().contains(x) == shorter.to_set().contains(x) by {
                if list.contains(x) {
                    let k = choose|k: int| 0 <= k < list.len() && list[k] == x;
                    assert(shorter[k] == x);
                }
                if shorter.contains(x) {
                    let k = choose|k: int| 0 <= k < shorter.len() && shorter[k] == x;
                    assert(list[k] == x);
                }
            }
            ascending_same_below(list.to_set(), shorter.to_set(), m, b);
            assert(list =~= shorter.push(b));
        } else {
            assert forall|k: int| 0 <= k < list.len() implies #[trigger] list[k] < m by {
                assert(list[k] < n);
                if list[k] == b {
                    assert(list.contains(b));
                }
            }
            bit_list_unique(list, m);
        }
    }
}

/// The list below `n` depends on the members below `n` alone.
proof fn ascending_same_below(s: Set<u32>, t: Set<u32>, n: nat, b: u32)
    requires
        n <= b <= PLANE,
        forall|x: u32| x < b ==> s.contains(x) == t.contains(x),
    ensures
        ascending(s, n) == ascending(t, n),
    decreases n,
{
    if n > 0 {
        ascending_same_below(s, t, (n - 1) as nat, b);
    }
}

/// The bytes that a set's serialized form begins with: those of the Roaring format,
/// with one container, of `n` members, behind sixteen bytes.
pub open spec fn opening(n: nat) -> Seq<u8> {
    seq![
        58u8,
        48u8,
        0u8,
        0u8,
        1u8,
        0u8,
        0u8,
        0u8,
        0u8,
        0u8,
        ((n - 1) % 256) as u8,
        ((n - 1) / 256) as u8,
        16u8,
        0u8,
        0u8,
        0u8,
    ]
}

/// Members, each in two bytes, the lower one first.
pub open spec fn halves(list: Seq<u32>) -> Seq<u8> {
    Seq::new(
        2 * list.len(),
        |k: int|
            if k % 2 == 0 {
                (list[k / 2] % 256) as u8
            } else {
                (list[k / 2] / 256) as u8
            },
    )
}

/// A number where a condition holds, else zero.
pub open spec fn weight(yes: bool, w: int) -> int {
    if yes {
        w
    } else {
        0
    }
}

/// Eight bits of a set in one byte, the lowest first.
pub open spec fn octet(s: Set<u32>, i: int) -> u8 {
    (weight(s.contains((8 * i) as u32), 1) + weight(s.contains((8 * i + 1) as u32), 2) + weight(
        s.contains((8 * i + 2) as u32),
        4,
    ) + weight(s.contains((8 * i + 3) as u32), 8) + weight(s.contains((8 * i + 4) as u32), 16) + weight(
        s.contains((8 * i + 5) as u32),
        32,
    ) + weight(s.contains((8 * i + 6) as u32), 64) + weight(s.contains((8 * i + 7) as u32), 128)) as u8
}

/// A bit of a byte.
pub open spec fn octet_bit(v: u8, k: int) -> bool {
    let n = v as int;
    if k == 0 {
        n % 2 == 1
    } else if k == 1 {
        (n / 2) % 2 == 1
    } else if k == 2 {
        (n / 4) % 2 == 1
    } else if k == 3 {
        (n / 8) % 2 == 1
    } else if k == 4 {
        (n / 16) % 2 == 1
    } else if k == 5 {
        (n / 32) % 2 == 1
    } else if k == 6 {
        (n / 64) % 2 == 1
    } else {
        (n / 128) % 2 == 1
    }
}

/// The bits of an octet are those of the set.
proof fn octet_bits(s: Set<u32>, i: int)
    ensures
        octet_bit(octet(s, i), 0) == s.contains((8 * i) as u32),
        octet_bit(octet(s, i), 1) == s.contains((8 * i + 1) as u32),
        octet_bit(octet(s, i), 2) == s.contains((8 * i + 2) as u32),
        octet_bit(octet(s, i), 3) == s.contains((8 * i + 3) as u32),
        octet_bit(octet(s, i), 4) == s.contains((8 * i + 4) as u32),
        octet_bit(octet(s, i), 5) == s.contains((8 * i + 5) as u32),
        octet_bit(octet(s, i), 6) == s.contains((8 * i + 6) as u32),
        octet_bit(octet(s, i), 7) == s.contains((8 * i + 7) as u32),
{
}

/// One bit of an octet is that of the set.
proof fn octet_member(s: Set<u32>, b: u32)
    requires
        b < PLANE,
    ensures
        octet_bit(octet(s, b as int / 8), b as int % 8) == s.contains(b),
{
    octet_bits(s, b as int / 8);
    let k = b as int % 8;
    assert(b == 8 * (b as int / 8) + k);
}

/// All bits of a set as a bitmap of a whole container.
pub open spec fn octets(s: Set<u32>) -> Seq<u8> {
    Seq::new(8192, |i: int| octet(s, i))
}

/// The serialized form of a set of bits: the Roaring format, in which up to 4096
/// members are listed and more are a bitmap.
pub open spec fn set_bytes(s: Set<u32>) -> Seq<u8> {
    let list = bit_list(s);
    if list.len() == 0 {
        seq![58u8, 48u8, 0u8, 0u8, 0u8, 0u8, 0u8, 0u8]
    } else if list.len() <= 4096 {
        opening(list.len()) + halves(list)
    } else {
        opening(list.len()) + octets(s)
    }
}

/// The content key of a set of bits: `h:` and the SHA-1 of its bytes.
pub open spec fn key_of(s: Set<u32>) -> Seq<char> {
    "h:"@ + digest::sha1_text(set_bytes(s))
}

/// The key of a combined sketch: `c:` and the SHA-1 of its bytes.
pub open spec fn combined_key_of(s: Set<u32>) -> Seq<char> {
    "c:"@ + digest::sha1_text(set_bytes(s))
}

/// The bytes of some set.
pub open spec fn valid_set_bytes(bytes: Seq<u8>) -> bool {
    exists|s: Set<u32>| on_plane(s) && #[trigger] set_bytes(s) == bytes
}

/// The set of which these are the bytes.
pub open spec fn set_in(bytes: Seq<u8>) -> Set<u32> {
    choose|s: Set<u32>| on_plane(s) && #[trigger] set_bytes(s) == bytes
}

/// The member at a place of a listed container.
pub open spec fn half_at(bytes: Seq<u8>, j: int) -> int {
    bytes[16 + 2 * j] + 256 * bytes[17 + 2 * j]
}

/// The members listed behind the opening.
pub open spec fn listed_members(bytes: Seq<u8>) -> Set<u32> {
    Set::new(|b: u32| b < PLANE && exists|j: int| 0 <= j && 17 + 2 * j < bytes.len() && #[trigger] half_at(bytes, j) == b)
}

/// The members in the bitmap behind the opening.
pub open spec fn mapped_members(bytes: Seq<u8>) -> Set<u32> {
    Set::new(|b: u32| b < PLANE && 16 + b as int / 8 < bytes.len() && octet_bit(bytes[16 + b as int / 8], b as int % 8))
}

/// Where the members of a set stand in its bytes.
proof fn members_in_bytes(s: Set<u32>)
    requires
        on_plane(s),
    ensures
        bit_list(s).len() == 0 ==> s == Set::<u32>::empty() && set_bytes(s).len() == 8,
        bit_list(s).len() > 0 ==> set_bytes(s).len() >= 16 && set_bytes(s)[10] + 256 * set_bytes(s)[11] == bit_list(s).len()
            - 1,
        0 < bit_list(s).len() <= 4096 ==> listed_members(set_bytes(s)) == s,
        bit_list(s).len() > 4096 ==> mapped_members(set_bytes(s)) == s,
{
    bit_list_facts(s);
    let list = bit_list(s);
    let bytes = set_bytes(s);
    if list.len() == 0 {
        assert(list.to_set() =~= Set::<u32>::empty());
    } else if list.len() <= 4096 {
        assert forall|j: int| 0 <= j < list.len() implies #[trigger] half_at(bytes, j) == list[j] by {
            assert(bytes[16 + 2 * j] == halves(list)[2 * j]);
            assert(bytes[17 + 2 * j] == halves(list)[2 * j + 1]);
            assert((2 * j) % 2 == 0 && (2 * j) / 2 == j);
            assert((2 * j + 1) % 2 == 1 && (2 * j + 1) / 2 == j);
        }
        assert forall|b: u32| listed_members(bytes).contains(b) <==> s.contains(b) by {
            if s.contains(b) {
                assert(list.to_set().contains(b));
                let j = choose|j: int| 0 <= j < list.len() && list[j] == b;
                assert(half_at(bytes, j) == b);
            }
            if listed_members(bytes).contains(b) {
                let j = choose|j: int| 0 <= j && 17 + 2 * j < bytes.len() && #[trigger] half_at(bytes, j) == b;
                assert(list[j] == b);
                assert(list.to_set().contains(b));
            }
        }
        assert(listed_members(bytes) =~= s);
    } else {
        assert forall|b: u32| mapped_members(bytes).contains(b) <==> s.contains(b) by {
            if b < PLANE {
                assert(bytes[16 + b as int / 8] == octets(s)[b as int / 8]);
                octet_member(s, b);
            }
        }
        assert(mapped_members(bytes) =~= s);
    }
}

/// Different sets have different bytes.
pub proof fn set_bytes_injective(s: Set<u32>, t: Set<u32>)
    requires
        on_plane(s),
        on_plane(t),
        set_bytes(s) == set_bytes(t),
    ensures
        s == t,
{
    members_in_bytes(s);
    members_in_bytes(t);
}

/// The bytes of a set are valid and are those of the set.
pub proof fn set_bytes_valid(s: Set<u32>)
    requires
        on_plane(s),
    ensures
        valid_set_bytes(set_bytes(s)),
        set_in(set_bytes(s)) == s,
{
    let t = set_in(set_bytes(s));
    assert(on_plane(t) && set_bytes(t) == set_bytes(s));
    set_bytes_injective(s, t);
}

impl View for HLLSet {
    type V = Set<u32>;

    closed spec fn view(&self) -> Set<u32> {
        Set::new(|b: u32| b < PLANE && word_bit(self.words@[b as int / 64], (b % 64) as u64))
    }
}

proof fn or_bit(a: u64, b: u64, k: u64)
    by (bit_vector)
    requires
        k < 64,
    ensures
        (((a | b) >> k) & 1 == 1) == (((a >> k) & 1 == 1) || ((b >> k) & 1 == 1)),
{
}

proof fn and_bit(a: u64, b: u64, k: u64)
    by (bit_vector)
    requires
        k < 64,
    ensures
        (((a & b) >> k) & 1 == 1) == (((a >> k) & 1 == 1) && ((b >> k) & 1 == 1)),
{
}

proof fn and_not_bit(a: u64, b: u64, k: u64)
    by (bit_vector)
    requires
        k < 64,
    ensures
        (((a & !b) >> k) & 1 == 1) == (((a >> k) & 1 == 1) && !((b >> k) & 1 == 1)),
{
}

proof fn set_one_bit(a: u64, j: u64, k: u64)
    by (bit_vector)
    requires
        k < 64,
        j < 64,
    ensures
        (((a | (1u64 << j)) >> k) & 1 == 1) == (((a >> k) & 1 == 1) || j == k),
{
}

proof fn zero_bit(k: u64)
    by (bit_vector)
    requires
        k < 64,
    ensures
        (0u64 >> k) & 1 != 1,
{
}

proof fn zero_word(a: u64, k: u64)
    by (bit_vector)
    requires
        a == 0,
        k < 64,
    ensures
        (a >> k) & 1 != 1,
{
}

impl HLLSet {
    /// Every member lies on the plane.
    pub broadcast proof fn members(&self)
        ensures
            #![trigger self@]
            on_plane(self@),
            self@.finite(),
            self@.len() <= PLANE,
    {
        bit_list_facts(self@);
    }

    /// The empty set.
    pub fn new() -> (s: HLLSet)
        ensures
            s@ == Set::<u32>::empty(),
    {
        let s = HLLSet { words: [0u64; 512] };
        proof {
            assert forall|b: u32| !s@.contains(b) by {
                if b < PLANE {
                    zero_bit((b % 64) as u64);
                    assert(s.words@[b as int / 64] == 0);
                }
            }
            assert(s@ =~= Set::<u32>::empty());
        }
        s
    }

    /// Puts one bit in.
    pub fn add_bit(&mut self, bit: u32)
        requires
            bit < PLANE,
        ensures
            final(self)@ == old(self)@.insert(bit),
    {
        let ghost before = *self;
        let w: usize = (bit / 64) as usize;
        let k: u64 = (bit % 64) as u64;
        let word: u64 = self.words[w] | (1u64 << k);
        self.words[w] = word;
        proof {
            assert forall|b: u32| self@.contains(b) == before@.insert(bit).contains(b) by {
                if b < PLANE {
                    let kb = (b % 64) as u64;
                    if b / 64 == bit / 64 {
                        set_one_bit(before.words@[w as int], k, kb);
                    }
                }
            }
            assert(self@ =~= before@.insert(bit));
        }
    }

    /// Whether the bit with the given index is a member.
    pub fn contains(&self, bit: u32) -> (yes: bool)
        ensures
            yes == self@.contains(bit),
    {
        if bit < PLANE {
            let k: u64 = (bit % 64) as u64;
            (self.words[(bit / 64) as usize] >> k) & 1 == 1
        } else {
            false
        }
    }

    /// Whether the bit at a register and a trailing-zero count is a member.
    pub fn has_bit(&self, reg: u32, tz: u32) -> (yes: bool)
        requires
            reg < 1024,
            tz < 32,
        ensures
            yes == self@.contains((reg * 32 + tz) as u32),
    {
        self.contains(reg * 32 + tz)
    }

    /// The union.
    pub fn union(&self, other: &HLLSet) -> (s: HLLSet)
        ensures
            s@ == self@.union(other@),
    {
        let mut s = HLLSet { words: [0u64; 512] };
        let mut i: usize = 0;
        while i < 512
            invariant
                i <= 512,
                forall|w: int| 0 <= w < i ==> s.words@[w] == (self.words@[w] | other.words@[w]),
            decreases 512 - i,
        {
            s.words[i] = self.words[i] | other.words[i];
            i = i + 1;
        }
        proof {
            assert forall|b: u32| s@.contains(b) == self@.union(other@).contains(b) by {
                if b < PLANE {
                    or_bit(self.words@[b as int / 64], other.words@[b as int / 64], (b % 64) as u64);
                }
            }
            assert(s@ =~= self@.union(other@));
        }
        s
    }

    /// The intersection.
    pub fn intersection(&self, other: &HLLSet) -> (s: HLLSet)
        ensures
            s@ == self@.intersect(other@),
    {
        let mut s = HLLSet { words: [0u64; 512] };
        let mut i: usize = 0;
        while i < 512
            invariant
                i <= 512,
                forall|w: int| 0 <= w < i ==> s.words@[w] == (self.words@[w] & other.words@[w]),
            decreases 512 - i,
        {
            s.words[i] = self.words[i] & other.words[i];
            i = i + 1;
        }
        proof {
            assert forall|b: u32| s@.contains(b) == self@.intersect(other@).contains(b) by {
                if b < PLANE {
                    and_bit(self.words@[b as int / 64], other.words@[b as int / 64], (b % 64) as u64);
                }
            }
            assert(s@ =~= self@.intersect(other@));
        }
        s
    }

    /// The members that the other set lacks.
    pub fn difference(&self, other: &HLLSet) -> (s: HLLSet)
        ensures
            s@ == self@.difference(other@),
    {
        let mut s = HLLSet { words: [0u64; 512] };
        let mut i: usize = 0;
        while i < 512
            invariant
                i <= 512,
                forall|w: int| 0 <= w < i ==> s.words@[w] == (self.words@[w] & !other.words@[w]),
            decreases 512 - i,
        {
            s.words[i] = self.words[i] & !other.words[i];
            i = i + 1;
        }
        proof {
            assert forall|b: u32| s@.contains(b) == self@.difference(other@).contains(b) by {
                if b < PLANE {
                    and_not_bit(self.words@[b as int / 64], other.words@[b as int / 64], (b % 64) as u64);
                }
            }
            assert(s@ =~= self@.difference(other@));
        }
        s
    }

    /// Takes the other set's members in.
    pub fn merge(&mut self, other: &HLLSet)
        ensures
            final(self)@ == old(self)@.union(other@),
    {
        *self = self.union(other);
    }

    /// Whether the set has no members.
    pub fn is_empty(&self) -> (yes: bool)
        ensures
            yes == (self@ == Set::<u32>::empty()),
            yes == (self@.len() == 0),
    {
        let mut i: usize = 0;
        proof {
            self.members();
            if self@.len() == 0 {
                self@.lemma_len0_is_empty();
            }
        }
        while i < 512
            invariant
                i <= 512,
                forall|w: int| 0 <= w < i ==> self.words@[w] == 0,
                self@.finite(),
                self@.len() == 0 ==> self@ == Set::<u32>::empty(),
            decreases 512 - i,
        {
            if self.words[i] != 0 {
                let w: u64 = self.words[i];
                proof {
                    nonzero_has_bit(w);
                    let k = choose|k: u64| k < 64 && #[trigger] word_bit(w, k);
                    let b = (i * 64 + k) as u32;
                    assert(b as int / 64 == i && b % 64 == k);
                    assert(self@.contains(b));
                }
                return false;
            }
            i = i + 1;
        }
        proof {
            assert forall|b: u32| !self@.contains(b) by {
                if b < PLANE {
                    zero_word(self.words@[b as int / 64], (b % 64) as u64);
                }
            }
            assert(self@ =~= Set::<u32>::empty());
        }
        true
    }

    /// The members in ascending order.
    pub fn bits(&self) -> (list: Vec<u32>)
        ensures
            list@ == bit_list(self@),
    {
        let mut list: Vec<u32> = Vec::new();
        let mut b: u32 = 0;
        while b < PLANE
            invariant
                b <= PLANE,
                list@ == ascending(self@, b as nat),
            decreases PLANE - b,
        {
            if self.contains(b) {
                list.push(b);
            }
            b = b + 1;
        }
        list
    }

    /// The places of the members, in ascending order.
    pub fn bit_addresses(&self) -> (list: Vec<BitAddress>)
        ensures
            list@.len() == bit_list(self@).len(),
            forall|i: int|
                0 <= i < list@.len() ==> (#[trigger] list@[i]).wf() && list@[i].register * 32 + list@[i].zeros
                    == bit_list(self@)[i],
    {
        let bits = self.bits();
        let mut list: Vec<BitAddress> = Vec::new();
        let mut i: usize = 0;
        proof {
            self.members();
            bit_list_facts(self@);
        }
        while i < bits.len()
            invariant
                i <= bits.len(),
                bits@ == bit_list(self@),
                list@.len() == i,
                forall|j: int| 0 <= j < bits@.len() ==> #[trigger] bits@[j] < PLANE,
                forall|j: int|
                    0 <= j < i ==> (#[trigger] list@[j]).wf() && list@[j].register * 32 + list@[j].zeros == bits@[j],
            decreases bits.len() - i,
        {
            let b = bits[i];
            list.push(BitAddress { register: b / 32, zeros: b % 32 });
            i = i + 1;
        }
        list
    }

    /// The number of members.
    pub fn popcount(&self) -> (n: u64)
        ensures
            n == self@.len(),
            n <= PLANE,
    {
        let list = self.bits();
        proof {
            self.members();
            bit_list_facts(self@);
        }
        list.len() as u64
    }

    /// The lowest member.
    pub fn lowest(&self) -> (low: Option<u32>)
        ensures
            low is None <==> self@ == Set::<u32>::empty(),
            low is Some ==> self@.contains(low->0) && forall|b: u32| #[trigger] self@.contains(b) ==> low->0 <= b,
    {
        proof {
            self.members();
        }
        let mut b: u32 = 0;
        while b < PLANE
            invariant
                b <= PLANE,
                forall|x: u32| x < b ==> !#[trigger] self@.contains(x),
            decreases PLANE - b,
        {
            if self.contains(b) {
                return Some(b);
            }
            b = b + 1;
        }
        proof {
            assert(self@ =~= Set::<u32>::empty());
        }
        None
    }

    /// The serialized form: the Roaring format.
    pub fn to_bytes(&self) -> (bytes: Vec<u8>)
        ensures
            bytes@ == set_bytes(self@),
    {
        let list = self.bits();
        proof {
            self.stays_on_plane();
            bit_list_facts(self@);
        }
        if list.len() == 0 {
            let mut bytes: Vec<u8> = Vec::new();
            bytes.push(58);
            bytes.push(48);
            push_zeros(&mut bytes, 6);
            assert(bytes@ =~= set_bytes(self@));
            return bytes;
        }
        let mut bytes = opening_bytes(list.len());
        if list.len() <= 4096 {
            let mut i: usize = 0;
            while i < list.len()
                invariant
                    i <= list.len() <= 4096,
                    0 < list.len(),
                    forall|j: int| 0 <= j < list@.len() ==> #[trigger] list@[j] < PLANE,
                    bytes@ == opening(list@.len()) + halves(list@.take(i as int)),
                decreases list.len() - i,
            {
                let n = list[i];
                let ghost before = bytes@;
                bytes.push((n % 256) as u8);
                bytes.push((n / 256) as u8);
                proof {
                    let more = halves(list@.take(i as int + 1));
                    let less = halves(list@.take(i as int));
                    assert forall|k: int| 0 <= k < less.len() implies less[k] == more[k] by {
                        assert(list@.take(i as int)[k / 2] == list@.take(i as int + 1)[k / 2]);
                    }
                    assert((2 * i as int) % 2 == 0 && (2 * i as int) / 2 == i);
                    assert((2 * i as int + 1) % 2 == 1 && (2 * i as int + 1) / 2 == i);
                    assert(list@.take(i as int + 1)[i as int] == n);
                    assert(more =~= less.push((n % 256) as u8).push((n / 256) as u8));
                    assert(bytes@ =~= opening(list@.len()) + more);
                }
                i = i + 1;
            }
            proof {
                assert(list@.take(i as int) =~= list@);
            }
        } else {
            let mut i: usize = 0;
            while i < 8192
                invariant
                    i <= 8192,
                    list@ == bit_list(self@),
                    bytes@ == opening(list@.len()) + octets(self@).take(i as int),
                decreases 8192 - i,
            {
                let v = self.octet_at(i);
                bytes.push(v);
                proof {
                    assert(octets(self@).take(i as int + 1) =~= octets(self@).take(i as int).push(octet(self@, i as int)));
                    assert(bytes@ =~= opening(list@.len()) + octets(self@).take(i as int + 1));
                }
                i = i + 1;
            }
            proof {
                assert(octets(self@).take(i as int) =~= octets(self@));
            }
        }
        bytes
    }

    /// All members lie on the plane.
    proof fn stays_on_plane(&self)
        ensures
            on_plane(self@),
    {
    }

    /// Eight bits in one byte.
    fn octet_at(&self, i: usize) -> (v: u8)
        requires
            i < 8192,
        ensures
            v == octet(self@, i as int),
    {
        let at: u32 = 8 * (i as u32);
        let mut v: u8 = 0;
        if self.contains(at) {
            v = v + 1;
        }
        if self.contains(at + 1) {
            v = v + 2;
        }
        if self.contains(at + 2) {
            v = v + 4;
        }
        if self.contains(at + 3) {
            v = v + 8;
        }
        if self.contains(at + 4) {
            v = v + 16;
        }
        if self.contains(at + 5) {
            v = v + 32;
        }
        if self.contains(at + 6) {
            v = v + 64;
        }
        if self.contains(at + 7) {
            v = v + 128;
        }
        v
    }

    /// The members listed behind the opening.
    fn read_listed(bytes: &[u8]) -> (s: HLLSet)
        requires
            bytes@.len() >= 16,
        ensures
            s@ == listed_members(bytes@),
    {
        let mut s = HLLSet::new();
        let n: usize = (bytes.len() - 16) / 2;
        let mut i: usize = 0;
        while i < n
            invariant
                i <= n,
                n == (bytes@.len() - 16) / 2,
                16 + 2 * n <= bytes@.len() <= usize::MAX,
                forall|b: u32|
                    #[trigger] s@.contains(b) <==> b < PLANE && exists|j: int|
                        0 <= j < i && #[trigger] half_at(bytes@, j) == b,
            decreases n - i,
        {
            let b: u32 = (bytes[16 + 2 * i] as u32) + 256 * (bytes[17 + 2 * i] as u32);
            let ghost before = s@;
            assert(half_at(bytes@, i as int) == b);
            if b < PLANE {
                s.add_bit(b);
            }
            proof {
                assert forall|x: u32| #[trigger] s@.contains(x) <==> x < PLANE && exists|j: int|
                    0 <= j < i + 1 && #[trigger] half_at(bytes@, j) == x by {
                    if before.contains(x) {
                        let j = choose|j: int| 0 <= j < i && #[trigger] half_at(bytes@, j) == x;
                        assert(half_at(bytes@, j) == x);
                    }
                    if x < PLANE && exists|j: int| 0 <= j < i + 1 && #[trigger] half_at(bytes@, j) == x {
                        let j = choose|j: int| 0 <= j < i + 1 && #[trigger] half_at(bytes@, j) == x;
                        if j < i {
                            assert(before.contains(x));
                        }
                    }
                }
            }
            i = i + 1;
        }
        proof {
            assert forall|b: u32| s@.contains(b) <==> listed_members(bytes@).contains(b) by {
                if listed_members(bytes@).contains(b) {
                    let j = choose|j: int| 0 <= j && 17 + 2 * j < bytes@.len() && #[trigger] half_at(bytes@, j) == b;
                    assert(j < n);
                }
            }
            assert(s@ =~= listed_members(bytes@));
        }
        s
    }

    /// The members in the bitmap behind the opening.
    fn read_mapped(bytes: &[u8]) -> (s: HLLSet)
        requires
            bytes@.len() >= 16,
        ensures
            s@ == mapped_members(bytes@),
    {
        let mut s = HLLSet::new();
        let mut b: u32 = 0;
        while b < PLANE && 16 + (b as usize) / 8 < bytes.len()
            invariant
                b <= PLANE,
                forall|x: u32| #[trigger] s@.contains(x) <==> x < b && mapped_members(bytes@).contains(x),
                forall|x: u32| x < b ==> 16 + #[trigger] (x as int / 8) < bytes@.len(),
            decreases PLANE - b,
        {
            let v = bytes[16 + (b as usize) / 8];
            if bit_of(v, b % 8) {
                s.add_bit(b);
            }
            b = b + 1;
        }
        proof {
            assert forall|x: u32| s@.contains(x) <==> mapped_members(bytes@).contains(x) by {
                if mapped_members(bytes@).contains(x) && x >= b {
                    assert(x as int / 8 >= b as int / 8);
                }
            }
            assert(s@ =~= mapped_members(bytes@));
        }
        s
    }

    /// Reads a serialized set back; `None` where the bytes are not those of a set.
    pub fn from_bytes(bytes: &[u8]) -> (s: Option<HLLSet>)
        ensures
            s is Some <==> valid_set_bytes(bytes@),
            s is Some ==> s->0@ == set_in(bytes@) && set_bytes(s->0@) == bytes@,
    {
        let s = if bytes.len() < 16 {
            HLLSet::new()
        } else if (bytes[10] as u32) + 256 * (bytes[11] as u32) < 4096 {
            HLLSet::read_listed(bytes)
        } else {
            HLLSet::read_mapped(bytes)
        };
        let again = s.to_bytes();
        proof {
            s.stays_on_plane();
            set_bytes_valid(s@);
            if valid_set_bytes(bytes@) {
                let t = set_in(bytes@);
                members_in_bytes(t);
                assert(s@ =~= t);
            }
        }
        if order::bytes_equal(again.as_slice(), bytes) {
            Some(s)
        } else {
            None
        }
    }

    /// The content key: `h:` and the SHA-1 of the serialized form.
    pub fn content_key(&self) -> (key: String)
        ensures
            key@ == key_of(self@),
    {
        let bytes = self.to_bytes();
        let digest = digest::sha1_hex(bytes.as_slice());
        text::concat2("h:", digest.as_str())
    }

    /// The key of a combined sketch: `c:` and the SHA-1 of the serialized form.
    pub fn content_key_c(&self) -> (key: String)
        ensures
            key@ == combined_key_of(self@),
    {
        let bytes = self.to_bytes();
        let digest = digest::sha1_hex(bytes.as_slice());
        text::concat2("c:", digest.as_str())
    }

    /// The set of the bits of a list of tokens, under one seed.
    pub fn from_tokens_seeded(tokens: &Vec<Vec<u8>>, seed: u64) -> (s: HLLSet)
        ensures
            s@ == token_bits(token_views(tokens@), seed),
    {
        let mut s = HLLSet::new();
        let mut i: usize = 0;
        proof {
            assert(s@ =~= token_bits(token_views(tokens@).take(0), seed));
        }
        while i < tokens.len()
            invariant
                i <= tokens.len(),
                s@ == token_bits(token_views(tokens@).take(i as int), seed),
            decreases tokens.len() - i,
        {
            let a = BitAddress::of_token_seeded(tokens[i].as_slice(), seed);
            s.add_bit(a.bit());
            proof {
                token_bits_push(token_views(tokens@), i as int, seed);
                assert(token_views(tokens@)[i as int] == tokens@[i as int]@);
            }
            i = i + 1;
        }
        proof {
            assert(token_views(tokens@).take(i as int) =~= token_views(tokens@));
        }
        s
    }

    /// The set of the bits of a list of tokens.
    pub fn from_tokens(tokens: &Vec<Vec<u8>>) -> (s: HLLSet)
        ensures
            s@ == token_bits(token_views(tokens@), 0),
    {
        HLLSet::from_tokens_seeded(tokens, 0)
    }
}

/// The views of a list of tokens.
pub open spec fn token_views(v: Seq<Vec<u8>>) -> Seq<Seq<u8>> {
    v.map_values(|t: Vec<u8>| t@)
}

/// The bits on which a list of tokens falls.
pub open spec fn token_bits(tokens: Seq<Seq<u8>>, seed: u64) -> Set<u32> {
    Set::new(|b: u32| exists|i: int| 0 <= i < tokens.len() && hashing::token_bit(#[trigger] tokens[i], seed) == b)
}

/// One more token adds its bit.
pub proof fn token_bits_push(tokens: Seq<Seq<u8>>, i: int, seed: u64)
    requires
        0 <= i < tokens.len(),
    ensures
        token_bits(tokens.take(i + 1), seed) == token_bits(tokens.take(i), seed).insert(hashing::token_bit(tokens[i], seed)),
{
    let a = tokens.take(i);
    let b = tokens.take(i + 1);
    assert forall|x: u32| token_bits(b, seed).contains(x) == token_bits(a, seed).insert(
        hashing::token_bit(tokens[i], seed),
    ).contains(x) by {
        if token_bits(b, seed).contains(x) {
            let k = choose|k: int| 0 <= k < b.len() && hashing::token_bit(#[trigger] b[k], seed) == x;
            if k < i {
                assert(a[k] == b[k]);
            }
        }
        if token_bits(a, seed).contains(x) {
            let k = choose|k: int| 0 <= k < a.len() && hashing::token_bit(#[trigger] a[k], seed) == x;
            assert(b[k] == a[k]);
        }
        assert(b[i] == tokens[i]);
    }
    assert(token_bits(b, seed) =~= token_bits(a, seed).insert(hashing::token_bit(tokens[i], seed)));
}

proof fn nonzero_has_bit(w: u64)
    requires
        w != 0,
    ensures
        exists|k: u64| k < 64 && #[trigger] word_bit(w, k),
{
    broadcast use vstd::std_specs::bits::axiom_u64_trailing_zeros;
    let z = w.trailing_zeros();
    assert(z < 64);
    assert(word_bit(w, z as u64));
}

/// A set read back from its own bytes is the same set.
pub proof fn bytes_round_trip(s: Set<u32>)
    requires
        on_plane(s),
    ensures
        valid_set_bytes(set_bytes(s)),
        set_in(set_bytes(s)) == s,
{
    set_bytes_valid(s);
}

/// Appends zeros.
fn push_zeros(bytes: &mut Vec<u8>, n: usize)
    ensures
        final(bytes)@ == old(bytes)@ + Seq::new(n as nat, |i: int| 0u8),
{
    let ghost start = bytes@;
    let mut i: usize = 0;
    while i < n
        invariant
            i <= n,
            bytes@ == start + Seq::new(i as nat, |i: int| 0u8),
        decreases n - i,
    {
        bytes.push(0);
        i = i + 1;
        assert(bytes@ =~= start + Seq::new(i as nat, |i: int| 0u8));
    }
}

/// The opening of a set with members.
fn opening_bytes(n: usize) -> (bytes: Vec<u8>)
    requires
        0 < n <= 32768,
    ensures
        bytes@ == opening(n as nat),
{
    let mut bytes: Vec<u8> = Vec::new();
    bytes.push(58);
    bytes.push(48);
    push_zeros(&mut bytes, 2);
    bytes.push(1);
    push_zeros(&mut bytes, 5);
    bytes.push(((n - 1) % 256) as u8);
    bytes.push(((n - 1) / 256) as u8);
    bytes.push(16);
    push_zeros(&mut bytes, 3);
    assert(bytes@ =~= opening(n as nat));
    bytes
}

/// A bit of a byte.
fn bit_of(v: u8, k: u32) -> (yes: bool)
    requires
        k < 8,
    ensures
        yes == octet_bit(v, k as int),
{
    let d: u8 = if k == 0 {
        1
    } else if k == 1 {
        2
    } else if k == 2 {
        4
    } else if k == 3 {
        8
    } else if k == 4 {
        16
    } else if k == 5 {
        32
    } else if k == 6 {
        64
    } else {
        128
    };
    (v / d) % 2 == 1
}

} // verus!
