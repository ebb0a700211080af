//! Fixed-point units and the integer arithmetic facts the library rests on.

use vstd::prelude::*;

verus! {

/// Fixed-point scale of probabilities and utilities: `ONE` stands for 1.0,
/// so one unit is a billionth.
pub const ONE: u64 = 1_000_000_000;

/// Largest time, in milliseconds ahead of now, that the integration of a
/// distribution accepts. It keeps every intermediate product within 128 bits.
pub const MAX_DELTA_MS: usize = 0xFFFF_FFFF;

/// How far past the end of an integration interval the distribution is
/// carried on unchanged, in milliseconds.
pub const TAIL_MS: usize = 500;

/// Flooring a quotient never exceeds the quotient of a larger numerator.
pub proof fn lemma_div_is_monotone(a: int, b: int, d: int)
    requires
        0 <= a <= b,
        0 < d,
    ensures
        a / d <= b / d,
{
    vstd::arithmetic::div_mod::lemma_div_is_ordered(a, b, d);
}

} // verus!
