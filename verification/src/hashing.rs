//! Token hashing: MurmurHash3 (x64, 128 bits, first half) and the place of a
//! hash on the bit plane.

use vstd::prelude::*;

verus! {

/// Registers of the bit plane.
pub const REGISTERS: u32 = 1024;

/// Bits of the bit plane: thirty-two per register.
pub const PLANE: u32 = 32768;

const C1: u64 = 0x87c37b91114253d5;

const C2: u64 = 0x4cf5ad432745937f;

/// `x` rotated left by `r` places.
pub open spec fn rotated(x: u64, r: u64) -> u64 {
    (x << r) | (x >> ((64 - r) as u64))
}

fn rotate(x: u64, r: u64) -> (y: u64)
    requires
        0 < r < 64,
    ensures
        y == rotated(x, r),
{
    (x << r) | (x >> (64 - r))
}

/// The little-endian number of `n` bytes from index `at` on.
pub open spec fn le_word(data: Seq<u8>, at: int, n: nat) -> u64
    decreases n,
{
    if n == 0 {
        0
    } else {
        le_word(data, at, (n - 1) as nat) | ((data[at + n - 1] as u64) << ((8 * (n - 1)) as u64))
    }
}

fn read_word(data: &[u8], at: usize, n: usize) -> (w: u64)
    requires
        n <= 8,
        at + n <= data.len(),
    ensures
        w == le_word(data@, at as int, n as nat),
{
    let mut w: u64 = 0;
    let mut i: usize = 0;
    while i < n
        invariant
            i <= n,
            n <= 8,
            at + n <= data.len(),
            w == le_word(data@, at as int, i as nat),
        decreases n - i,
    {
        let shift: u64 = 8 * (i as u64);
        w = w | ((data[at + i] as u64) << shift);
        i = i + 1;
    }
    w
}

pub open spec fn mixed_low(k: u64) -> u64 {
    rotated(k.wrapping_mul(0x87c37b91114253d5), 31).wrapping_mul(0x4cf5ad432745937f)
}

pub open spec fn mixed_high(k: u64) -> u64 {
    rotated(k.wrapping_mul(0x4cf5ad432745937f), 33).wrapping_mul(0x87c37b91114253d5)
}

fn mix_low(k: u64) -> (r: u64)
    ensures
        r == mixed_low(k),
{
    rotate(k.wrapping_mul(C1), 31).wrapping_mul(C2)
}

fn mix_high(k: u64) -> (r: u64)
    ensures
        r == mixed_high(k),
{
    rotate(k.wrapping_mul(C2), 33).wrapping_mul(C1)
}

/// One block of sixteen bytes worked into the two lanes.
#[verifier::opaque]
pub open spec fn after_block(h: (u64, u64), k1: u64, k2: u64) -> (u64, u64) {
    let a = rotated(h.0 ^ mixed_low(k1), 27).wrapping_add(h.1).wrapping_mul(5).wrapping_add(0x52dce729);
    let b = rotated(h.1 ^ mixed_high(k2), 31).wrapping_add(a).wrapping_mul(5).wrapping_add(0x38495ab5);
    (a, b)
}

fn mix_block(h1: u64, h2: u64, k1: u64, k2: u64) -> (h: (u64, u64))
    ensures
        h == after_block((h1, h2), k1, k2),
{
    proof {
        reveal(after_block);
    }
    let a: u64 = rotate(h1 ^ mix_low(k1), 27).wrapping_add(h2).wrapping_mul(5).wrapping_add(0x52dce729);
    let b: u64 = rotate(h2 ^ mix_high(k2), 31).wrapping_add(a).wrapping_mul(5).wrapping_add(0x38495ab5);
    (a, b)
}

/// The lanes after the first `blocks` blocks.
pub open spec fn after_blocks(data: Seq<u8>, seed: u64, blocks: nat) -> (u64, u64)
    decreases blocks,
{
    if blocks == 0 {
        (seed, seed)
    } else {
        after_block(
            after_blocks(data, seed, (blocks - 1) as nat),
            le_word(data, 16 * (blocks - 1), 8),
            le_word(data, 16 * (blocks - 1) + 8, 8),
        )
    }
}

pub open spec fn finished(k: u64) -> u64 {
    let a = (k ^ (k >> 33u64)).wrapping_mul(0xff51afd7ed558ccd);
    let b = (a ^ (a >> 33u64)).wrapping_mul(0xc4ceb9fe1a85ec53);
    b ^ (b >> 33u64)
}

fn finish(k: u64) -> (r: u64)
    ensures
        r == finished(k),
{
    let a: u64 = (k ^ (k >> 33u64)).wrapping_mul(0xff51afd7ed558ccd);
    let b: u64 = (a ^ (a >> 33u64)).wrapping_mul(0xc4ceb9fe1a85ec53);
    b ^ (b >> 33u64)
}

/// The first half of the 128-bit hash of a byte string.
pub open spec fn murmur3(data: Seq<u8>, seed: u64) -> u64 {
    let blocks = data.len() / 16;
    let tail = 16 * blocks;
    let rest = data.len() - tail;
    let h = after_blocks(data, seed, blocks);
    let h2 = if rest > 8 { h.1 ^ mixed_high(le_word(data, tail as int + 8, (rest - 8) as nat)) } else { h.1 };
    let low = if rest > 8 { 8 } else { rest };
    let h1 = if rest > 0 { h.0 ^ mixed_low(le_word(data, tail as int, low as nat)) } else { h.0 };
    let n = data.len() as u64;
    let a = (h1 ^ n).wrapping_add(h2 ^ n);
    let b = (h2 ^ n).wrapping_add(a);
    finished(a).wrapping_add(finished(b))
}

/// Hashes a byte string.
pub fn murmur3_hash_seeded(data: &[u8], seed: u64) -> (h: u64)
    ensures
        h == murmur3(data@, seed),
{
    let blocks: usize = data.len() / 16;
    let mut h1: u64 = seed;
    let mut h2: u64 = seed;
    let mut i: usize = 0;
    while i < blocks
        invariant
            i <= blocks,
            blocks == data.len() / 16,
            (h1, h2) == after_blocks(data@, seed, i as nat),
        decreases blocks - i,
    {
        let k1 = read_word(data, 16 * i, 8);
        let k2 = read_word(data, 16 * i + 8, 8);
        let h = mix_block(h1, h2, k1, k2);
        h1 = h.0;
        h2 = h.1;
        i = i + 1;
    }
    let tail: usize = 16 * blocks;
    let rest: usize = data.len() - tail;
    if rest > 8 {
        h2 = h2 ^ mix_high(read_word(data, tail + 8, rest - 8));
    }
    if rest > 0 {
        let low: usize = if rest > 8 {
            8
        } else {
            rest
        };
        h1 = h1 ^ mix_low(read_word(data, tail, low));
    }
    let n: u64 = data.len() as u64;
    let a: u64 = (h1 ^ n).wrapping_add(h2 ^ n);
    let b: u64 = (h2 ^ n).wrapping_add(a);
    finish(a).wrapping_add(finish(b))
}

/// A place on the bit plane: a register and a trailing-zero count below
/// thirty-two.
#[derive(Clone, Copy, Debug, PartialEq, Eq, Structural)]
pub struct BitAddress {
    pub register: u32,
    pub zeros: u32,
}

/// The register of a hash: its low ten bits.
pub open spec fn hash_register(h: u64) -> u32 {
    (h & 1023) as u32
}

/// The trailing zeros of a hash behind the register bits, at most thirty-one.
pub open spec fn hash_zeros(h: u64) -> u32 {
    let z = (h >> 10u64).trailing_zeros();
    if z > 31 {
        31
    } else {
        z
    }
}

/// The bit on which a byte string falls under a seed.
pub open spec fn token_bit(token: Seq<u8>, seed: u64) -> u32 {
    let h = murmur3(token, seed);
    (hash_register(h) * 32 + hash_zeros(h)) as u32
}

/// Every token falls on the bit plane.
pub proof fn token_bit_bounds(token: Seq<u8>, seed: u64)
    ensures
        token_bit(token, seed) < PLANE,
        hash_register(murmur3(token, seed)) < REGISTERS,
        hash_zeros(murmur3(token, seed)) < 32,
        token_bit(token, seed) == hash_register(murmur3(token, seed)) * 32 + hash_zeros(murmur3(token, seed)),
{
    let h = murmur3(token, seed);
    assert((h & 1023) < 1024) by (bit_vector);
}

impl BitAddress {
    pub open spec fn wf(&self) -> bool {
        self.register < REGISTERS && self.zeros < 32
    }

    /// The place of a hash.
    pub fn of_hash(h: u64) -> (a: BitAddress)
        ensures
            a.wf(),
            a.register == hash_register(h),
            a.zeros == hash_zeros(h),
    {
        proof {
            assert((h & 1023) < 1024) by (bit_vector);
        }
        let z: u32 = (h >> 10u64).trailing_zeros();
        BitAddress {
            register: (h & 1023) as u32,
            zeros: if z > 31 {
                31
            } else {
                z
            },
        }
    }

    /// The place of a token under a seed.
    pub fn of_token_seeded(token: &[u8], seed: u64) -> (a: BitAddress)
        ensures
            a.wf(),
            a.register * 32 + a.zeros == token_bit(token@, seed),
    {
        let h = murmur3_hash_seeded(token, seed);
        proof {
            token_bit_bounds(token@, seed);
        }
        BitAddress::of_hash(h)
    }

    /// The index of the bit on the plane.
    pub fn bit(&self) -> (b: u32)
        requires
            self.wf(),
        ensures
            b == self.register * 32 + self.zeros,
            b < PLANE,
    {
        self.register * 32 + self.zeros
    }

    pub fn reg(&self) -> (r: u32)
        ensures
            r == self.register,
    {
        self.register
    }

    pub fn tz(&self) -> (z: u32)
        ensures
            z == self.zeros,
    {
        self.zeros
    }
}

} // verus!
