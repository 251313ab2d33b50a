//! Power-of-ten alignment for reservation ranges.
//!
//! Ids are grouped in decades to keep related content together: a range of
//! length 37 must start on a multiple of 10, a range of length 240 on a
//! multiple of 100. The required alignment for a range of length `n >= 1` is
//! `10^floor(log10(n))`.

use vstd::prelude::*;

verus! {

/// `10^k`.
pub open spec fn pow10(k: nat) -> int
    decreases k,
{
    if k == 0 {
        1
    } else {
        10 * pow10((k - 1) as nat)
    }
}

/// `floor(log10(n))` for `n >= 1`.
pub open spec fn log10_floor(n: int) -> nat
    recommends
        n >= 1,
    decreases n,
{
    if n < 10 {
        0
    } else {
        1 + log10_floor(n / 10)
    }
}

/// The alignment required of a range of length `n`: the largest power of ten
/// that is at most `n`.
pub open spec fn spec_alignment(n: int) -> int
    recommends
        n >= 1,
{
    pow10(log10_floor(n))
}

pub proof fn lemma_pow10_positive(k: nat)
    ensures
        pow10(k) >= 1,
    decreases k,
{
    if k > 0 {
        lemma_pow10_positive((k - 1) as nat);
    }
}

/// The alignment of a length is exactly the power of ten named by the
/// length's decimal magnitude, so it divides `10^floor(log10(n))`.
pub proof fn lemma_alignment_divides(n: int)
    requires
        n >= 1,
    ensures
        spec_alignment(n) == pow10(log10_floor(n)),
        spec_alignment(n) >= 1,
        pow10(log10_floor(n)) % spec_alignment(n) == 0,
{
    lemma_pow10_positive(log10_floor(n));
}

/// Computes the required start alignment for a range of `length` ids.
pub fn alignment_for(length: i32) -> (r: i32)
    requires
        length >= 1,
    ensures
        r == spec_alignment(length as int),
        r >= 1,
        r <= length,
{
    proof {
        reveal_with_fuel(log10_floor, 11);
        reveal_with_fuel(pow10, 11);
    }
    if length < 10 {
        1
    } else if length < 100 {
        10
    } else if length < 1_000 {
        100
    } else if length < 10_000 {
        1_000
    } else if length < 100_000 {
        10_000
    } else if length < 1_000_000 {
        100_000
    } else if length < 10_000_000 {
        1_000_000
    } else if length < 100_000_000 {
        10_000_000
    } else if length < 1_000_000_000 {
        100_000_000
    } else {
        1_000_000_000
    }
}

} // verus!
