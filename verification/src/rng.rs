//! Trusted interface to the seeded pseudo-random generator.
//!
//! Randomness only ever chooses a walk origin or an initial
//! coordinate; everything the algorithms guarantee holds for every
//! value a generator can return, so nothing is assumed about the
//! drawn values.

use vstd::prelude::*;

verus! {

/// The fixed seed for the walk's origin choice, independent of the
/// point-generation seed; a deliberate, named configuration default
/// kept for reproducibility.
pub const ORIGIN_SEED: u64 = 10;

#[verifier::external_type_specification]
#[verifier::external_body]
pub struct ExSmallRng(rand::rngs::SmallRng);

/// Relies on rand's `SeedableRng::seed_from_u64`: builds a generator
/// from a seed.  Nothing is assumed about the generator's state.
#[verifier::external_body]
pub(crate) fn rng_from_seed(seed: u64) -> rand::rngs::SmallRng {
    <rand::rngs::SmallRng as rand::SeedableRng>::seed_from_u64(seed)
}

/// Relies on rand's `Rng::gen`: draws one machine word.  Nothing can
/// be promised of a drawn value.
#[verifier::external_body]
pub(crate) fn rng_next_u64(rng: &mut rand::rngs::SmallRng) -> u64 {
    rand::Rng::gen::<u64>(rng)
}

} // verus!
