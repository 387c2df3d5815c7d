//! Convolution channels: the seed and the name of a window size and dimension.

use vstd::prelude::*;
use crate::text;

verus! {

/// A window of `n` cells along each of `dim` axes.
#[derive(Clone, Copy, Debug, PartialEq, Eq, Structural)]
pub struct ConvSpec {
    pub n: u8,
    pub dim: u8,
}

impl ConvSpec {
    pub fn new(n: u8, dim: u8) -> (spec: ConvSpec)
        ensures
            spec.n == n,
            spec.dim == dim,
    {
        ConvSpec { n, dim }
    }
}

/// The seed of a channel: zero for single cells in any dimension, else
/// `3 (dim - 1) + (n - 1)`.
pub open spec fn seed_of(n: int, dim: int) -> int {
    if n <= 1 {
        0
    } else {
        (if dim <= 1 { 0 } else { dim - 1 }) * 3 + (n - 1)
    }
}

/// The seed of a channel.
pub fn seed(spec: ConvSpec) -> (s: u64)
    ensures
        s == seed_of(spec.n as int, spec.dim as int),
{
    if spec.n <= 1 {
        0
    } else {
        spec.dim.saturating_sub(1) as u64 * 3 + (spec.n - 1) as u64
    }
}

/// Seeds of windows of two to four cells differ between channels; single cells
/// share one seed in every dimension.
pub proof fn seeds_partition(n: int, dim: int, m: int, other: int)
    requires
        1 <= n <= 4,
        1 <= m <= 4,
        1 <= dim,
        1 <= other,
    ensures
        n == 1 ==> seed_of(n, dim) == 0,
        n > 1 ==> seed_of(n, dim) > 0,
        n > 1 && m > 1 && seed_of(n, dim) == seed_of(m, other) ==> n == m && dim == other,
{
}

/// The name of a channel.
pub open spec fn name_of(n: nat, dim: nat) -> Seq<char> {
    if n <= 1 {
        "G1"@
    } else {
        "G"@ + text::decimal(n) + "_"@ + text::decimal(dim) + "d"@
    }
}

/// Names of windows of different sizes differ in their second character.
pub proof fn name_digit(n: nat, dim: nat)
    requires
        1 <= n <= 4,
    ensures
        name_of(n, dim).len() >= 2,
        name_of(n, dim)[1] == text::digit(n as int),
{
    reveal_strlit("G1");
    reveal_strlit("G");
    if n > 1 {
        assert(text::decimal(n) =~= seq![text::digit(n as int)]);
    }
}

/// The name of a channel: `G1`, or `G<n>_<dim>d`.
pub fn channel_name(n: u8, dim: u8) -> (name: String)
    ensures
        name@ == name_of(n as nat, dim as nat),
{
    if n <= 1 {
        text::copy_str("G1")
    } else {
        let a = text::decimal_string(n as u64);
        let b = text::decimal_string(dim as u64);
        let head = text::concat3("G", a.as_str(), "_");
        text::concat3(head.as_str(), b.as_str(), "d")
    }
}

/// Windows of one side over every number of axes share the first seed where they hold
/// one cell; other seeds are counted on from there, three for each number of axes, and
/// no two are the same.
pub proof fn seed_law(n: int, dim: int, m: int, other: int)
    requires
        2 <= n <= 4,
        2 <= m <= 4,
        dim >= 1,
        other >= 1,
    ensures
        seed_of(1, dim) == 0,
        seed_of(2, 1) == 1,
        n < 4 ==> seed_of(n + 1, dim) == seed_of(n, dim) + 1,
        seed_of(2, dim + 1) == seed_of(4, dim) + 1,
        seed_of(n, dim) == seed_of(m, other) ==> n == m && dim == other,
{
}

} // verus!
