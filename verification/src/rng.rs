//! Trusted boundary to the `rand` crate.
//!
//! The solver draws all of its randomness through the wrappers below, so a
//! caller can seed a [`rand::rngs::StdRng`] and replay a run. Nothing is
//! assumed about the distribution of the drawn values; the wrappers state
//! only the range facts that `rand` documents.

use vstd::prelude::*;

verus! {

#[verifier::external_type_specification]
#[verifier::external_body]
pub struct ExStdRng(rand::rngs::StdRng);

/// Relies on rand's `RngExt::random_range` over `0..n`: it panics only on an
/// empty range and otherwise returns a member of the range.
#[verifier::external_body]
pub fn rng_below(rng: &mut rand::rngs::StdRng, n: usize) -> (r: usize)
    requires
        n >= 1,
    ensures
        r < n,
{
    rand::RngExt::random_range(rng, 0..n)
}

/// Relies on rand's `RngExt::random_range` over `0..n` for `u128` values:
/// it panics only on an empty range and otherwise returns a member of the
/// range.
#[verifier::external_body]
pub fn rng_below_u128(rng: &mut rand::rngs::StdRng, n: u128) -> (r: u128)
    requires
        n >= 1,
    ensures
        r < n,
{
    rand::RngExt::random_range(rng, 0..n)
}

/// Relies on rand's `Rng::next_u32`; nothing is assumed of the value.
#[verifier::external_body]
pub fn rng_word(rng: &mut rand::rngs::StdRng) -> u32 {
    rand::Rng::next_u32(rng)
}

/// Relies on rand's `RngExt::random_ratio`: it panics only when the
/// denominator is zero or smaller than the numerator. Either answer may
/// come back.
#[verifier::external_body]
pub fn rng_coin(rng: &mut rand::rngs::StdRng, num: u32, den: u32) -> bool
    requires
        den >= 1,
        num <= den,
{
    rand::RngExt::random_ratio(rng, num, den)
}

} // verus!
