//! What the running mean and second moment are after many updates.
use crate::binary64::{Binary64, ZERO_BITS};
use crate::matrix::Matrix;
use crate::numerics::{scaled_sum, Numerics};
use crate::running_sd::{is_mean_deviation, is_sd_update, is_welford_step, RunningSd};
use vstd::arithmetic::power2::pow2;
use vstd::prelude::*;

verus! {

/// The sum of the squared deviations of `values` from `m`, all in the scale of
/// [`Binary64::scaled`].
pub open spec fn squared_deviations(values: Seq<Binary64>, m: int) -> int
    decreases values.len(),
{
    if values.len() == 0 {
        0
    } else {
        squared_deviations(values.drop_last(), m) + (values.last().scaled() - m) * (
        values.last().scaled() - m)
    }
}

/// A step of the algorithm is computed without rounding: the mean moves by the deviation
/// over the count, and the second moment grows by the product of the two deviations.
pub open spec fn is_exact_step<N: Numerics>(
    num: &N,
    count: nat,
    value: Binary64,
    mean: Binary64,
    m2: Binary64,
) -> bool {
    forall|new_mean: Binary64, new_m2: Binary64| #[trigger]
        is_welford_step(num, count, value, mean, m2, new_mean, new_m2) ==> {
            &&& count * (new_mean.scaled() - mean.scaled()) == value.scaled() - mean.scaled()
            &&& (new_m2.scaled() - m2.scaled()) * pow2(1074) == (value.scaled() - mean.scaled()) * (
            value.scaled() - new_mean.scaled())
        }
}

/// The numbers of a run of the algorithm: `means` and `m2s` start from zero and follow
/// `values` step by step, without rounding.
pub open spec fn is_exact_run<N: Numerics>(
    num: &N,
    values: Seq<Binary64>,
    means: Seq<Binary64>,
    m2s: Seq<Binary64>,
) -> bool {
    &&& means.len() == values.len() + 1
    &&& m2s.len() == values.len() + 1
    &&& means[0] == (Binary64 { bits: ZERO_BITS })
    &&& m2s[0] == (Binary64 { bits: ZERO_BITS })
    &&& forall|k: int|
        0 <= k < values.len() ==> {
            &&& is_welford_step(
                num,
                (k + 1) as nat,
                #[trigger] values[k],
                means[k],
                m2s[k],
                means[k + 1],
                m2s[k + 1],
            )
            &&& is_exact_step(num, (k + 1) as nat, values[k], means[k], m2s[k])
        }
}

/// The sum of the squares of `values`.
spec fn squares(values: Seq<Binary64>) -> int
    decreases values.len(),
{
    if values.len() == 0 {
        0
    } else {
        squares(values.drop_last()) + values.last().scaled() * values.last().scaled()
    }
}

proof fn lemma_squared_deviations(values: Seq<Binary64>, m: int)
    ensures
        squared_deviations(values, m) == squares(values) - 2 * m * scaled_sum(values)
            + values.len() * (m * m),
    decreases values.len(),
{
    let n = values.len() as int;
    if n > 0 {
        let rest = values.drop_last();
        lemma_squared_deviations(rest, m);
        let v = values.last().scaled();
        let s = scaled_sum(rest);
        let q = squares(rest);
        assert(q - 2 * m * s + (n - 1) * (m * m) + (v - m) * (v - m) == (q + v * v) - 2 * m * (s
            + v) + n * (m * m)) by (nonlinear_arith);
        assert(rest.len() * (m * m) == (n - 1) * (m * m));
    } else {
        assert(2 * m * 0 == 0 && 0 * (m * m) == 0) by (nonlinear_arith);
        assert(2 * m * scaled_sum(values) == 0);
        assert(values.len() * (m * m) == 0);
    }
}

/// The algebra of one step, where `b` is the mean of `n - 1` numbers and `a` that of these
/// and `v`.
proof fn lemma_step_algebra(n: int, v: int, a: int, b: int)
    requires
        n * a == (n - 1) * b + v,
    ensures
        (v - b) * (v - a) == v * v - n * (a * a) + (n - 1) * (b * b),
{
    assert(v == n * a - (n - 1) * b);
    assert(v * (a + b) == n * (a * a) + a * b - (n - 1) * (b * b)) by (nonlinear_arith)
        requires
            v == n * a - (n - 1) * b,
    ;
    assert((v - b) * (v - a) == v * v - v * (a + b) + a * b) by (nonlinear_arith);
}

/// After `n` exact steps the mean is that of the `n` values, and the second moment is the sum
/// of their squared deviations from it.
pub proof fn law_welford_run<N: Numerics>(
    num: &N,
    values: Seq<Binary64>,
    means: Seq<Binary64>,
    m2s: Seq<Binary64>,
)
    requires
        is_exact_run(num, values, means, m2s),
    ensures
        values.len() * means.last().scaled() == scaled_sum(values),
        m2s.last().scaled() * pow2(1074) == squared_deviations(values, means.last().scaled()),
    decreases values.len(),
{
    let n = values.len() as int;
    let zero = Binary64 { bits: ZERO_BITS };
    zero.lemma_zero_has_no_magnitude();
    assert(zero.scaled() == 0);
    if n > 0 {
        let rest = values.drop_last();
        let rest_means = means.drop_last();
        let rest_m2s = m2s.drop_last();
        assert forall|k: int| 0 <= k < rest.len() implies {
            &&& is_welford_step(
                num,
                (k + 1) as nat,
                #[trigger] rest[k],
                rest_means[k],
                rest_m2s[k],
                rest_means[k + 1],
                rest_m2s[k + 1],
            )
            &&& is_exact_step(num, (k + 1) as nat, rest[k], rest_means[k], rest_m2s[k])
        } by {
            assert(rest[k] == values[k]);
        }
        law_welford_run(num, rest, rest_means, rest_m2s);
        let v = values[n - 1].scaled();
        let b = means[n - 1].scaled();
        let a = means[n].scaled();
        let d = m2s[n - 1].scaled();
        let c = m2s[n].scaled();
        let u = pow2(1074) as int;
        let s = scaled_sum(rest);
        let q = squares(rest);
        assert(is_welford_step(
            num,
            n as nat,
            values[n - 1],
            means[n - 1],
            m2s[n - 1],
            means[n],
            m2s[n],
        ));
        assert(is_exact_step(num, n as nat, values[n - 1], means[n - 1], m2s[n - 1]));
        assert(n * (a - b) == v - b);
        assert((c - d) * u == (v - b) * (v - a));
        assert((n - 1) * b == s);
        assert(n * a == (n - 1) * b + v) by (nonlinear_arith)
            requires
                n * (a - b) == v - b,
        ;
        lemma_step_algebra(n, v, a, b);
        lemma_squared_deviations(rest, b);
        lemma_squared_deviations(values, a);
        assert(d * u == q - 2 * b * s + (n - 1) * (b * b));
        assert(2 * b * s == 2 * ((n - 1) * (b * b))) by (nonlinear_arith)
            requires
                (n - 1) * b == s,
        ;
        assert(2 * a * (s + v) == 2 * (n * (a * a))) by (nonlinear_arith)
            requires
                n * a == s + v,
        ;
        assert(c * u == d * u + (c - d) * u) by (nonlinear_arith);
    } else {
        assert(0 * means.last().scaled() == 0);
        assert(0 * pow2(1074) == 0);
    }
}

/// The history of one element of the running means, or of the second moments.
pub open spec fn mean_history(states: Seq<RunningSd>, o: int, s: int) -> Seq<Binary64> {
    states.map_values(|sd: RunningSd| sd.mean.at(o, s))
}

/// See [`mean_history`].
pub open spec fn m2_history(states: Seq<RunningSd>, o: int, s: int) -> Seq<Binary64> {
    states.map_values(|sd: RunningSd| sd.m2.at(o, s))
}

/// One element of each of some arrays.
pub open spec fn value_history(values: Seq<Matrix>, o: int, s: int) -> Seq<Binary64> {
    values.map_values(|m: Matrix| m.at(o, s))
}

/// After `n` updates of fresh moments the count is `n`. Without rounding, the mean of each
/// element is that of its `n` values and the second moment the sum of their squared
/// deviations from it. The last result is, for each output, the mean over the samples of the
/// roots of `m2 / n`.
pub proof fn law_updates_give_moments<N: Numerics>(
    num: &N,
    states: Seq<RunningSd>,
    values: Seq<Matrix>,
    results: Seq<Seq<Binary64>>,
    o: int,
    s: int,
)
    requires
        states.len() == values.len() + 1,
        results.len() == values.len(),
        values.len() > 0,
        states[0].count == 0,
        states[0].m2.same_shape(states[0].mean),
        0 <= o < states[0].mean.height(),
        0 <= s < states[0].mean.width(),
        states[0].mean.at(o, s) == (Binary64 { bits: ZERO_BITS }),
        states[0].m2.at(o, s) == (Binary64 { bits: ZERO_BITS }),
        forall|k: int|
            0 <= k < values.len() ==> is_sd_update(
                num,
                states[k],
                #[trigger] values[k],
                states[k + 1],
                results[k],
            ),
        forall|k: int|
            0 <= k < values.len() ==> is_exact_step(
                num,
                (k + 1) as nat,
                (#[trigger] values[k]).at(o, s),
                states[k].mean.at(o, s),
                states[k].m2.at(o, s),
            ),
    ensures
        states.last().count == values.len(),
        values.len() * states.last().mean.at(o, s).scaled() == scaled_sum(
            value_history(values, o, s),
        ),
        states.last().m2.at(o, s).scaled() * pow2(1074) == squared_deviations(
            value_history(values, o, s),
            states.last().mean.at(o, s).scaled(),
        ),
        results.last().len() == states[0].mean.height(),
        is_mean_deviation(num, states.last().m2, o, values.len(), results.last()[o]),
{
    let n = values.len() as int;
    lemma_counts(num, states, values, results, values.len());
    let history = value_history(values, o, s);
    let means = mean_history(states, o, s);
    let m2s = m2_history(states, o, s);
    assert forall|k: int| 0 <= k < history.len() implies {
        &&& is_welford_step(
            num,
            (k + 1) as nat,
            #[trigger] history[k],
            means[k],
            m2s[k],
            means[k + 1],
            m2s[k + 1],
        )
        &&& is_exact_step(num, (k + 1) as nat, history[k], means[k], m2s[k])
    } by {
        assert(history[k] == values[k].at(o, s));
        lemma_counts(num, states, values, results, k as nat);
        assert(is_sd_update(num, states[k], values[k], states[k + 1], results[k]));
        assert(states[k + 1].mean.at(o, s) == means[k + 1]);
        assert(is_exact_step(
            num,
            (k + 1) as nat,
            values[k].at(o, s),
            states[k].mean.at(o, s),
            states[k].m2.at(o, s),
        ));
    }
    law_welford_run(num, history, means, m2s);
    lemma_counts(num, states, values, results, (n - 1) as nat);
    assert(is_sd_update(num, states[n - 1], values[n - 1], states[n], results[n - 1]));
    assert(is_mean_deviation(num, states[n].m2, o, states[n].count as nat, results[n - 1][o]));
}

/// The count and the shapes after `k` updates.
proof fn lemma_counts<N: Numerics>(
    num: &N,
    states: Seq<RunningSd>,
    values: Seq<Matrix>,
    results: Seq<Seq<Binary64>>,
    k: nat,
)
    requires
        states.len() == values.len() + 1,
        k <= values.len(),
        states[0].count == 0,
        forall|k: int|
            0 <= k < values.len() ==> is_sd_update(
                num,
                states[k],
                #[trigger] values[k],
                states[k + 1],
                results[k],
            ),
    ensures
        states[k as int].count == k,
        states[k as int].mean.same_shape(states[0].mean),
        states[k as int].m2.same_shape(states[0].m2),
    decreases k,
{
    if k > 0 {
        lemma_counts(num, states, values, results, (k - 1) as nat);
        assert(is_sd_update(num, states[k - 1], values[k - 1], states[k as int], results[k - 1]));
    }
}

} // verus!
