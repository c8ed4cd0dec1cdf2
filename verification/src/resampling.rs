//! Choosing which particles go on.
use crate::binary64::Binary64;
use rand::rngs::SmallRng;
use vstd::prelude::*;

verus! {

/// A way of drawing as many ancestors as there are weights, in proportion to them.
pub trait ResamplingStrategy {
    /// Draws positions in `weights`.
    fn resample(&self, rng: &mut SmallRng, weights: &Vec<Binary64>) -> Vec<usize>;
}

} // verus!
