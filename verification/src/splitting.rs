//! Choosing where to split a feature.
use crate::binary64::Binary64;
use rand::rngs::SmallRng;
use vstd::prelude::*;

verus! {

/// How thresholds of one feature are chosen.
pub trait SplitRule: Sized {
    /// The rule for a feature of which nothing else is said: its values are ordered.
    fn continuous() -> Self;

    /// Whether the rule is [`SplitRule::continuous`].
    fn is_continuous(&self) -> bool;

    /// Draws a threshold from the values of the feature in a node, if there is a way to
    /// split them.
    fn sample_split_value(&self, rng: &mut SmallRng, values: &Vec<Binary64>) -> Option<Binary64>;
}

} // verus!
