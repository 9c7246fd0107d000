//! Trusted wrappers around the dice-oriented random number generator of
//! the `bracket_lib` crate. The level generator draws all of its
//! randomness through these, and is verified for every value the
//! contracts below admit.

use vstd::prelude::*;
use bracket_lib::prelude::RandomNumberGenerator;

verus! {

#[verifier::external_type_specification]
#[verifier::external_body]
pub struct ExRandomNumberGenerator(RandomNumberGenerator);

/// Relies on `RandomNumberGenerator::new`: a generator seeded from system
/// entropy, or from the clock when no entropy can be had. Nothing is
/// promised of the values it will produce.
#[verifier::external_body]
pub(crate) fn rng_new() -> RandomNumberGenerator {
    RandomNumberGenerator::new()
}

/// Relies on `RandomNumberGenerator::seeded`: a generator built from the
/// given seed alone, so two generators with one seed produce one stream.
#[verifier::external_body]
pub(crate) fn rng_seeded(seed: u64) -> RandomNumberGenerator {
    RandomNumberGenerator::seeded(seed)
}

/// Relies on `RandomNumberGenerator::range`, whose result is inclusive of
/// `min` and exclusive of `max`; it panics unless `min < max`.
#[verifier::external_body]
pub(crate) fn rng_range(rng: &mut RandomNumberGenerator, min: i32, max: i32) -> (r: i32)
    requires
        min < max,
    ensures
        min <= r < max,
{
    rng.range(min, max)
}

/// Relies on `RandomNumberGenerator::roll_dice`, which sums `n` rolls of a
/// die with faces `1..=die_type`; it panics unless the die has at least
/// one face.
#[verifier::external_body]
pub(crate) fn rng_roll_dice(rng: &mut RandomNumberGenerator, n: i32, die_type: i32) -> (r: i32)
    requires
        1 <= n,
        1 <= die_type,
        die_type < i32::MAX,
        n * die_type <= i32::MAX,
    ensures
        n <= r <= n * die_type,
{
    rng.roll_dice(n, die_type)
}

} // verus!
