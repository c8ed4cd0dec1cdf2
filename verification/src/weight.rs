//! Scoring of predictions.
use crate::binary64::Binary64;
use vstd::prelude::*;

verus! {

/// A log-likelihood of predictions, given as the rows of outputs one after the other.
pub trait WeightFn {
    fn log_weight(&self, predictions: &Vec<Binary64>) -> Binary64;
}

/// `r` is what `weight_fn` answers to these predictions.
pub open spec fn is_log_weight<W: WeightFn>(
    weight_fn: &W,
    predictions: Seq<Binary64>,
    r: Binary64,
) -> bool {
    exists|v: &Vec<Binary64>|
        v@ == predictions && #[trigger] call_ensures(W::log_weight, (weight_fn, v), r)
}

} // verus!
