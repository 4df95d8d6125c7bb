//! Randomness for the stochastic operators, drawn from the xorshift
//! source of the `random` crate. Nothing is assumed about which values
//! come back; everything computed from them is verified for every
//! outcome.

use vstd::prelude::*;

verus! {

#[verifier::external_type_specification]
#[verifier::external_body]
pub struct ExXorshift(random::Xorshift128Plus);

/// Relies on random::default: builds the crate's default xorshift source
/// from a seed.
#[verifier::external_body]
pub fn new_source(seed: u64) -> random::Xorshift128Plus {
    random::default(seed)
}

/// Relies on random::Source::read_u64: draws the source's next 64-bit
/// value; nothing is assumed of which value comes back.
#[verifier::external_body]
pub fn next_u64(source: &mut random::Xorshift128Plus) -> u64 {
    random::Source::read_u64(source)
}

/// A draw below `bound`, for picking indexes and proportions.
pub fn next_u64_below(source: &mut random::Xorshift128Plus, bound: u64) -> (r: u64)
    requires
        bound > 0,
    ensures
        r < bound,
{
    next_u64(source) % bound
}

/// A wide draw below `bound`, for walking the weighted drop distribution.
pub fn next_u128_below(source: &mut random::Xorshift128Plus, bound: u128) -> (r: u128)
    requires
        bound > 0,
    ensures
        r < bound,
{
    let hi = next_u64(source);
    let lo = next_u64(source);
    let wide: u128 = ((hi as u128) << 64) | (lo as u128);
    wide % bound
}

} // verus!
