//! Draws of integers.
use rand::rngs::SmallRng;
use rand::{Rng, SeedableRng};
use vstd::prelude::*;

verus! {

/// The generator of `rand` that every draw comes from. Nothing is known of its state.
#[verifier::external_type_specification]
#[verifier::external_body]
pub struct ExSmallRng(SmallRng);

/// `rand::Rng::random_range` over `0..n`: an integer below `n`. The call panics on an
/// empty range, so `n` is positive. Which integer comes out is left to chance.
#[verifier::external_body]
pub fn random_below(rng: &mut SmallRng, n: usize) -> (r: usize)
    requires
        n > 0,
    ensures
        r < n,
{
    rng.random_range(0..n)
}

/// `rand::SeedableRng::seed_from_u64`: a generator that starts from `seed`. Which sequence
/// it gives depends on the machine, and nothing is known of a generator's state, so nothing
/// is stated of the result.
#[verifier::external_body]
pub fn seeded(seed: u64) -> SmallRng {
    SmallRng::seed_from_u64(seed)
}

/// `start` is the state of a generator that starts from `seed`.
pub open spec fn is_seeded(seed: u64, start: SmallRng) -> bool {
    call_ensures(seeded, (seed,), start)
}

} // verus!
