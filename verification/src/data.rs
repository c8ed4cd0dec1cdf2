//! Training data.
use crate::binary64::{Binary64, ZERO_BITS};
use crate::matrix::{flat, flattened, Matrix};
use crate::numerics::{is_mean, Numerics};
use vstd::prelude::*;

verus! {

/// Training data.
pub struct OwnedData {
    /// One row per sample, one column per feature.
    pub x: Matrix,
    /// One row per output, one column per sample.
    pub y: Matrix,
}

/// `r` is the mean of all numbers of `y`, zero where there are none.
pub open spec fn is_mean_response<N: Numerics>(num: &N, y: Matrix, r: Binary64) -> bool {
    if flattened(y).len() == 0 {
        r == (Binary64 { bits: ZERO_BITS })
    } else {
        is_mean(num, flattened(y), r)
    }
}

impl OwnedData {
    /// The mean of all responses, zero where there are none.
    pub fn mean_response<N: Numerics>(&self, num: &N) -> (r: Binary64)
        ensures
            is_mean_response(num, self.y, r),
    {
        let values = flat(&self.y);
        if values.len() == 0 {
            Binary64 { bits: ZERO_BITS }
        } else {
            let r = num.mean(&values);
            assert(is_mean(num, values@, r));
            r
        }
    }

    pub fn n_samples(&self) -> (r: usize)
        ensures
            r == self.x.height(),
    {
        self.x.nrows()
    }

    pub fn n_features(&self) -> (r: usize)
        ensures
            r == self.x.width(),
    {
        self.x.ncols()
    }
}

} // verus!
