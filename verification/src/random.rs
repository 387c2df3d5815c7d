//! A small deterministic stream of numbers.

use vstd::prelude::*;

verus! {

/// The number after one, in the xorshift stream.
pub open spec fn following(x: u64) -> u64 {
    let a = x ^ (x << 13u64);
    let b = a ^ (a >> 7u64);
    b ^ (b << 17u64)
}

/// The number after some steps.
pub open spec fn stream(seed: u64, n: nat) -> u64
    decreases n,
{
    if n == 0 {
        seed
    } else {
        following(stream(seed, (n - 1) as nat))
    }
}

/// Steps the stream and returns the number that it reaches.
pub fn next_u64(state: &mut u64) -> (x: u64)
    ensures
        x == following(*old(state)),
        *final(state) == x,
{
    let mut x = *state;
    x = x ^ (x << 13u64);
    x = x ^ (x >> 7u64);
    x = x ^ (x << 17u64);
    *state = x;
    x
}

/// A step can be undone: different numbers are followed by different ones.
pub proof fn following_injective(x: u64, y: u64)
    requires
        following(x) == following(y),
    ensures
        x == y,
{
    let a = x ^ (x << 13u64);
    let b = y ^ (y << 13u64);
    let c = a ^ (a >> 7u64);
    let d = b ^ (b >> 7u64);
    assert(c ^ (c << 17u64) == d ^ (d << 17u64) ==> c == d) by (bit_vector);
    assert(a ^ (a >> 7u64) == b ^ (b >> 7u64) ==> a == b) by (bit_vector);
    assert(x ^ (x << 13u64) == y ^ (y << 13u64) ==> x == y) by (bit_vector);
}

/// The stream of a seed other than zero never reaches zero.
pub proof fn stream_not_zero(seed: u64, n: nat)
    requires
        seed != 0,
    ensures
        stream(seed, n) != 0,
    decreases n,
{
    if n > 0 {
        stream_not_zero(seed, (n - 1) as nat);
        assert(following(0) == 0) by {
            assert(0u64 ^ (0u64 << 13u64) == 0u64) by (bit_vector);
            assert(0u64 ^ (0u64 >> 7u64) == 0u64) by (bit_vector);
            assert(0u64 ^ (0u64 << 17u64) == 0u64) by (bit_vector);
        }
        if stream(seed, n) == 0 {
            following_injective(stream(seed, (n - 1) as nat), 0);
        }
    }
}

} // verus!
