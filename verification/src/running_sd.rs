//! Running standard deviations of predictions.
use crate::binary64::{count_number, Binary64, ZERO_BITS};
use crate::matrix::{can_allocate, Matrix};
use crate::numerics::{
    is_difference, is_mean, is_product, is_quotient, is_root, is_sum, Numerics,
};
use vstd::prelude::*;

verus! {

/// Welford's online algorithm for the variance, element by element of an array.
#[derive(Clone)]
pub struct RunningSd {
    /// Number of arrays seen.
    pub count: usize,
    /// Number of outputs.
    pub shape: usize,
    /// Running mean.
    pub mean: Matrix,
    /// Running second moment.
    pub m2: Matrix,
}

/// One step of the algorithm, which brings in `value` as number `count`: the mean moves by
/// the deviation over the count, the second moment grows by the product of the deviations
/// from the mean before and after.
pub open spec fn is_welford_step<N: Numerics>(
    num: &N,
    count: nat,
    value: Binary64,
    mean: Binary64,
    m2: Binary64,
    new_mean: Binary64,
    new_m2: Binary64,
) -> bool {
    exists|delta: Binary64, share: Binary64, delta2: Binary64, product: Binary64|
        {
            &&& is_difference(num, value, mean, delta)
            &&& #[trigger] is_quotient(num, delta, count_number(count), share)
            &&& is_sum(num, mean, share, new_mean)
            &&& is_difference(num, value, new_mean, delta2)
            &&& #[trigger] is_product(num, delta, delta2, product)
            &&& is_sum(num, m2, product, new_m2)
        }
}

/// One step of the algorithm.
pub fn welford_step<N: Numerics>(
    num: &N,
    count: usize,
    value: Binary64,
    mean: Binary64,
    m2: Binary64,
) -> (r: (Binary64, Binary64))
    ensures
        is_welford_step(num, count as nat, value, mean, m2, r.0, r.1),
{
    let delta = num.minus(value, mean);
    assert(is_difference(num, value, mean, delta));
    let share = num.over(delta, Binary64::from_count(count));
    assert(is_quotient(num, delta, count_number(count as nat), share));
    let new_mean = num.plus(mean, share);
    assert(is_sum(num, mean, share, new_mean));
    let delta2 = num.minus(value, new_mean);
    assert(is_difference(num, value, new_mean, delta2));
    let product = num.times(delta, delta2);
    assert(is_product(num, delta, delta2, product));
    let new_m2 = num.plus(m2, product);
    assert(is_sum(num, m2, product, new_m2));
    (new_mean, new_m2)
}

/// `r` is the root of `m2 / count`.
pub open spec fn is_deviation<N: Numerics>(
    num: &N,
    m2: Binary64,
    count: nat,
    r: Binary64,
) -> bool {
    exists|variance: Binary64|
        is_quotient(num, m2, count_number(count), variance) && #[trigger] is_root(num, variance, r)
}

/// The standard deviation after `count` numbers with the second moment `m2`.
pub fn deviation<N: Numerics>(num: &N, m2: Binary64, count: usize) -> (r: Binary64)
    ensures
        is_deviation(num, m2, count as nat, r),
{
    let variance = num.over(m2, Binary64::from_count(count));
    assert(is_quotient(num, m2, count_number(count as nat), variance));
    let r = num.sqrt(variance);
    assert(is_root(num, variance, r));
    r
}

/// Each of `r` is the standard deviation of its element of row `o` of `m2`.
pub open spec fn are_deviations<N: Numerics>(
    num: &N,
    m2: Matrix,
    o: int,
    count: nat,
    r: Seq<Binary64>,
) -> bool {
    &&& r.len() == m2.width()
    &&& forall|s: int|
        0 <= s < m2.width() ==> is_deviation(num, m2.at(o, s), count, #[trigger] r[s])
}

/// `r` is the mean of the standard deviations of row `o` of `m2`.
pub open spec fn is_mean_deviation<N: Numerics>(
    num: &N,
    m2: Matrix,
    o: int,
    count: nat,
    r: Binary64,
) -> bool {
    exists|row: Seq<Binary64>| #[trigger]
        are_deviations(num, m2, o, count, row) && is_mean(num, row, r)
}

/// `after` comes of `before` by bringing in `new_value`, and each of `r` is the mean of the
/// standard deviations of an output.
pub open spec fn is_sd_update<N: Numerics>(
    num: &N,
    before: RunningSd,
    new_value: Matrix,
    after: RunningSd,
    r: Seq<Binary64>,
) -> bool {
    &&& after.count == before.count + 1
    &&& after.shape == before.shape
    &&& after.mean.same_shape(before.mean)
    &&& after.m2.same_shape(before.m2)
    &&& forall|o: int, s: int|
        #![trigger after.mean.at(o, s)]
        #![trigger after.m2.at(o, s)]
        0 <= o < before.mean.height() && 0 <= s < before.mean.width() ==> is_welford_step(
            num,
            after.count as nat,
            new_value.at(o, s),
            before.mean.at(o, s),
            before.m2.at(o, s),
            after.mean.at(o, s),
            after.m2.at(o, s),
        )
    &&& r.len() == before.mean.height()
    &&& forall|o: int|
        0 <= o < r.len() ==> is_mean_deviation(
            num,
            after.m2,
            o,
            after.count as nat,
            #[trigger] r[o],
        )
}

impl RunningSd {
    /// The two moments have one row per output and one column per sample.
    pub open spec fn wf(self, n_samples: nat) -> bool {
        &&& self.mean.height() == self.shape
        &&& self.mean.width() == n_samples
        &&& self.m2.same_shape(self.mean)
    }

    /// Nothing seen yet.
    pub fn new(shape: usize, num_samples: usize) -> (r: Self)
        requires
            can_allocate(shape as int, num_samples as int),
        ensures
            r.count == 0,
            r.shape == shape,
            r.wf(num_samples as nat),
            forall|o: int, s: int|
                #![trigger r.mean.at(o, s)]
                #![trigger r.m2.at(o, s)]
                0 <= o < shape && 0 <= s < num_samples ==> {
                    &&& r.mean.at(o, s) == (Binary64 { bits: ZERO_BITS })
                    &&& r.m2.at(o, s) == (Binary64 { bits: ZERO_BITS })
                },
    {
        let zero = Binary64 { bits: ZERO_BITS };
        RunningSd {
            count: 0,
            shape,
            mean: Matrix::filled(shape, num_samples, zero),
            m2: Matrix::filled(shape, num_samples, zero),
        }
    }

    /// Brings in the predictions of one more tree. Returns, for each output, the mean over
    /// the samples of their standard deviations so far.
    pub fn update<N: Numerics>(&mut self, num: &N, new_value: &Matrix) -> (r: Vec<Binary64>)
        requires
            old(self).wf(new_value.width()),
            new_value.height() == old(self).shape,
            new_value.width() > 0,
            old(self).count < usize::MAX,
        ensures
            is_sd_update(num, *old(self), *new_value, *final(self), r@),
            final(self).wf(new_value.width()),
    {
        let ghost before = *self;
        self.count = self.count + 1;
        let rows = new_value.nrows();
        let columns = new_value.ncols();
        let mut r: Vec<Binary64> = Vec::new();
        for o in 0..rows
            invariant
                rows == new_value.height(),
                columns == new_value.width(),
                before.wf(columns as nat),
                before.shape == rows,
                self.count == before.count + 1,
                self.shape == before.shape,
                self.mean.same_shape(before.mean),
                self.m2.same_shape(before.m2),
                r@.len() == o,
                forall|k: int, s: int|
                    #![trigger self.mean.at(k, s)]
                    #![trigger self.m2.at(k, s)]
                    o <= k < rows && 0 <= s < columns ==> {
                        &&& self.mean.at(k, s) == before.mean.at(k, s)
                        &&& self.m2.at(k, s) == before.m2.at(k, s)
                    },
                forall|k: int, s: int|
                    #![trigger self.mean.at(k, s)]
                    #![trigger self.m2.at(k, s)]
                    0 <= k < o && 0 <= s < columns ==> is_welford_step(
                        num,
                        self.count as nat,
                        new_value.at(k, s),
                        before.mean.at(k, s),
                        before.m2.at(k, s),
                        self.mean.at(k, s),
                        self.m2.at(k, s),
                    ),
                forall|k: int|
                    0 <= k < o ==> is_mean_deviation(
                        num,
                        self.m2,
                        k,
                        self.count as nat,
                        #[trigger] r@[k],
                    ),
        {
            let ghost start = *self;
            let mut row: Vec<Binary64> = Vec::new();
            for s in 0..columns
                invariant
                    o < rows,
                    rows == new_value.height(),
                    columns == new_value.width(),
                    before.wf(columns as nat),
                    before.shape == rows,
                    self.count == start.count,
                    start.count == before.count + 1,
                    self.shape == before.shape,
                    self.mean.same_shape(before.mean),
                    self.m2.same_shape(before.m2),
                    start.m2.same_shape(before.m2),
                    row@.len() == s,
                    forall|k: int, t: int|
                        #![trigger self.mean.at(k, t)]
                        #![trigger self.m2.at(k, t)]
                        k != o || t >= s ==> {
                            &&& self.mean.at(k, t) == start.mean.at(k, t)
                            &&& self.m2.at(k, t) == start.m2.at(k, t)
                        },
                    forall|t: int|
                        #![trigger start.mean.at(o as int, t)]
                        #![trigger start.m2.at(o as int, t)]
                        0 <= t < columns ==> {
                            &&& start.mean.at(o as int, t) == before.mean.at(o as int, t)
                            &&& start.m2.at(o as int, t) == before.m2.at(o as int, t)
                        },
                    forall|t: int|
                        #![trigger self.mean.at(o as int, t)]
                        #![trigger self.m2.at(o as int, t)]
                        0 <= t < s ==> is_welford_step(
                            num,
                            self.count as nat,
                            new_value.at(o as int, t),
                            before.mean.at(o as int, t),
                            before.m2.at(o as int, t),
                            self.mean.at(o as int, t),
                            self.m2.at(o as int, t),
                        ),
                    forall|t: int|
                        0 <= t < s ==> is_deviation(
                            num,
                            self.m2.at(o as int, t),
                            self.count as nat,
                            #[trigger] row@[t],
                        ),
            {
                let (mean, m2) = welford_step(
                    num,
                    self.count,
                    new_value.get(o, s),
                    self.mean.get(o, s),
                    self.m2.get(o, s),
                );
                self.mean.set(o, s, mean);
                self.m2.set(o, s, m2);
                row.push(deviation(num, m2, self.count));
            }
            let value = num.mean(&row);
            proof {
                assert(is_mean(num, row@, value));
                assert(are_deviations(num, self.m2, o as int, self.count as nat, row@));
                assert forall|k: int| 0 <= k < o implies is_mean_deviation(
                    num,
                    self.m2,
                    k,
                    self.count as nat,
                    #[trigger] r@[k],
                ) by {
                    let old_row = choose|row: Seq<Binary64>| #[trigger]
                        are_deviations(num, start.m2, k, start.count as nat, row) && is_mean(
                            num,
                            row,
                            r@[k],
                        );
                    assert(are_deviations(num, self.m2, k, self.count as nat, old_row));
                }
            }
            r.push(value);
        }
        r
    }
}

} // verus!
