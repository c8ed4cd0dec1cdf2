//! What the leaves of a split hold.
use crate::binary64::{count_number, Binary64, ZERO_BITS};
use crate::draws::{draw_normal, is_normal_draw, Drawn};
use crate::matrix::Matrix;
use crate::numerics::{
    is_product, is_quotient, is_running_sum, is_shifted_quotient, is_sum, scaled_sum, Numerics,
};
use crate::response::{
    are_leaf_lines, are_leaf_means, are_noise_draws, column_at, goes_left, is_fit, is_leaf_line,
    is_leaf_mean, is_noise_chain, is_noisy_mean, left_samples, right_samples, row_at,
    GaussianResponseStrategy, LeafPayload, LeafProposal, LinearStrategy, ResponseStrategy,
};
use rand::rngs::SmallRng;
use vstd::arithmetic::power2::pow2;
use vstd::prelude::*;

verus! {

/// One in the scale of [`Binary64::scaled`].
pub open spec fn unit_scale() -> int {
    pow2(1074) as int
}

/// A value that is exact: a whole number of units, and not beyond `bound`.
pub open spec fn fits_exactly(v: int, unit: int, bound: int) -> bool {
    v % unit == 0 && -bound <= v <= bound
}

/// `a` denotes such a value.
pub open spec fn is_exact(a: Binary64, unit: int, bound: int) -> bool {
    a.is_finite_spec() && fits_exactly(a.scaled(), unit, bound)
}

/// Sums of absolute values, in the scale of [`Binary64::scaled`].
pub open spec fn scaled_size(values: Seq<Binary64>) -> int
    decreases values.len(),
{
    if values.len() == 0 {
        0
    } else {
        let v = values.last().scaled();
        scaled_size(values.drop_last()) + if v < 0 {
            -v
        } else {
            v
        }
    }
}

/// Operations on exact numbers give the exact result where that is a whole number of units
/// within `bound`, and totals do where no part of them can go beyond it. So it is in binary64
/// arithmetic where the unit is a power of two and `bound` at most `2^53` units.
pub open spec fn computes_exactly<N: Numerics>(num: &N, unit: int, bound: int) -> bool {
    &&& forall|a: Binary64, b: Binary64, r: Binary64|
        {
            &&& is_exact(a, unit, bound)
            &&& is_exact(b, unit, bound)
            &&& fits_exactly(a.scaled() + b.scaled(), unit, bound)
            &&& #[trigger] call_ensures(N::plus, (num, a, b), r)
        } ==> r.is_finite_spec() && r.scaled() == a.scaled() + b.scaled()
    &&& forall|a: Binary64, b: Binary64, r: Binary64|
        {
            &&& is_exact(a, unit, bound)
            &&& is_exact(b, unit, bound)
            &&& fits_exactly(a.scaled() - b.scaled(), unit, bound)
            &&& #[trigger] call_ensures(N::minus, (num, a, b), r)
        } ==> r.is_finite_spec() && r.scaled() == a.scaled() - b.scaled()
    &&& forall|a: Binary64, b: Binary64, r: Binary64, v: int|
        {
            &&& is_exact(a, unit, bound)
            &&& is_exact(b, unit, bound)
            &&& v * unit_scale() == a.scaled() * b.scaled()
            &&& #[trigger] fits_exactly(v, unit, bound)
            &&& #[trigger] call_ensures(N::times, (num, a, b), r)
        } ==> r.is_finite_spec() && r.scaled() == v
    &&& forall|a: Binary64, b: Binary64, r: Binary64, v: int|
        {
            &&& a.is_finite_spec()
            &&& b.is_finite_spec()
            &&& b.scaled() != 0
            &&& v * b.scaled() == a.scaled() * unit_scale()
            &&& #[trigger] fits_exactly(v, unit, bound)
            &&& #[trigger] call_ensures(N::over, (num, a, b), r)
        } ==> r.is_finite_spec() && r.scaled() == v
    &&& forall|values: &Vec<Binary64>, r: Binary64|
        {
            &&& forall|i: int|
                0 <= i < values@.len() ==> is_exact(#[trigger] values@[i], unit, bound)
            &&& scaled_size(values@) <= bound
            &&& #[trigger] call_ensures(N::total, (num, values), r)
        } ==> r.is_finite_spec() && r.scaled() == scaled_sum(values@)
}

/// The samples that go left of a split by feature `var` at `val`: those whose value does not
/// exceed it. The others, and those whose value is missing, go right.
pub open spec fn samples_on(
    samples: Seq<u32>,
    x: Matrix,
    var: u32,
    val: Binary64,
    left: bool,
) -> Seq<u32> {
    samples.filter(|s: u32| x.at(s as int, var as int).le_spec(val) == left)
}

/// The numbers of row `o` of `m` at some samples.
pub open spec fn numbers_of(m: Matrix, o: int, samples: Seq<u32>) -> Seq<Binary64> {
    Seq::new(samples.len(), |k: int| m.at(o, samples[k] as int))
}

/// The values of feature `var` in some samples.
pub open spec fn features_of(x: Matrix, var: u32, samples: Seq<u32>) -> Seq<Binary64> {
    Seq::new(samples.len(), |k: int| x.at(samples[k] as int, var as int))
}

proof fn lemma_sides(samples: Seq<u32>, x: Matrix, var: u32, val: Binary64)
    ensures
        left_samples(x, var, val, samples) == samples_on(samples, x, var, val, true),
        right_samples(x, var, val, samples) == samples_on(samples, x, var, val, false),
{
    let f = |s: u32| goes_left(x, var, val, s);
    let g = |s: u32| x.at(s as int, var as int).le_spec(val) == true;
    assert(f =~= g);
    let h = |s: u32| !goes_left(x, var, val, s);
    let k = |s: u32| x.at(s as int, var as int).le_spec(val) == false;
    assert(h =~= k);
}

proof fn lemma_numbers(m: Matrix, o: int, var: u32, samples: Seq<u32>)
    ensures
        row_at(m, o, samples) == numbers_of(m, o, samples),
        column_at(m, var as int, samples) == features_of(m, var, samples),
{
    assert(row_at(m, o, samples) =~= numbers_of(m, o, samples));
    assert(column_at(m, var as int, samples) =~= features_of(m, var, samples));
}

/// `r` is the value of a leaf with these numbers of the forest in it: their mean, divided by
/// the number of trees, plus the noise; the noise alone for an empty leaf.
pub open spec fn is_leaf_value<N: Numerics>(
    num: &N,
    numbers: Seq<Binary64>,
    n_trees: nat,
    noise: Binary64,
    r: Binary64,
) -> bool {
    if numbers.len() == 0 {
        r == noise
    } else {
        exists|sum: Binary64, mean: Binary64, share: Binary64|
            {
                &&& is_running_sum(num, numbers, sum)
                &&& #[trigger] call_ensures(
                    N::over,
                    (num, sum, count_number(numbers.len())),
                    mean,
                )
                &&& #[trigger] call_ensures(N::over, (num, mean, count_number(n_trees)), share)
                &&& call_ensures(N::plus, (num, share, noise), r)
            }
    }
}

/// `r` is the value of a leaf with a draw scaled by `sd` as its noise.
pub open spec fn is_drawn_value<N: Numerics>(
    num: &N,
    numbers: Seq<Binary64>,
    n_trees: nat,
    sd: Binary64,
    draw: Binary64,
    r: Binary64,
) -> bool {
    exists|noise: Binary64|
        {
            &&& #[trigger] call_ensures(N::times, (num, draw, sd), noise)
            &&& is_leaf_value(num, numbers, n_trees, noise, r)
        }
}

/// Every output of a leaf has a value: from the numbers of the forest in its own row at the
/// samples of the leaf, with its own draw times its own standard deviation as noise.
pub open spec fn holds_leaf_values<N: Numerics>(
    num: &N,
    sum_trees: Matrix,
    samples: Seq<u32>,
    leaf_sd: Seq<Binary64>,
    n_trees: nat,
    n_outputs: nat,
    draws: Seq<Binary64>,
    leaf: LeafPayload,
) -> bool {
    &&& leaf matches LeafPayload::Gaussian { value }
    &&& value@.len() == n_outputs
    &&& forall|o: int|
        0 <= o < n_outputs ==> is_drawn_value(
            num,
            numbers_of(sum_trees, o, samples),
            n_trees,
            leaf_sd[o],
            draws[o],
            #[trigger] value@[o],
        )
}

proof fn lemma_leaf_values<N: Numerics>(
    num: &N,
    sum_trees: Matrix,
    samples: Seq<u32>,
    leaf_sd: Seq<Binary64>,
    n_trees: nat,
    n_outputs: nat,
    draws: Seq<Binary64>,
    leaf: LeafPayload,
)
    requires
        leaf is Gaussian,
        are_leaf_means(
            num,
            sum_trees,
            samples,
            leaf_sd,
            n_trees,
            n_outputs,
            draws,
            leaf->Gaussian_value@,
        ),
    ensures
        holds_leaf_values(
            num,
            sum_trees,
            samples,
            leaf_sd,
            n_trees,
            n_outputs,
            draws,
            leaf,
        ),
{
    let value = leaf->Gaussian_value@;
    assert forall|o: int| 0 <= o < n_outputs implies is_drawn_value(
        num,
        numbers_of(sum_trees, o, samples),
        n_trees,
        leaf_sd[o],
        draws[o],
        #[trigger] value[o],
    ) by {
        lemma_numbers(sum_trees, o, 0, samples);
        let numbers = numbers_of(sum_trees, o, samples);
        assert(is_leaf_mean(num, numbers, leaf_sd[o], n_trees, draws[o], value[o]));
        let noise = choose|noise: Binary64|
            {
                &&& #[trigger] is_product(num, draws[o], leaf_sd[o], noise)
                &&& is_noisy_mean(num, numbers, n_trees, noise, value[o])
            };
        if numbers.len() > 0 {
            let (sum, mean) = choose|sum: Binary64, mean: Binary64|
                {
                    &&& is_running_sum(num, numbers, sum)
                    &&& #[trigger] is_quotient(num, sum, count_number(numbers.len()), mean)
                    &&& is_shifted_quotient(num, mean, count_number(n_trees), noise, value[o])
                };
            let share = choose|q: Binary64|
                is_quotient(num, mean, count_number(n_trees), q) && #[trigger] is_sum(
                    num,
                    q,
                    noise,
                    value[o],
                );
            assert(call_ensures(N::over, (num, sum, count_number(numbers.len())), mean));
            assert(call_ensures(N::over, (num, mean, count_number(n_trees)), share));
        }
        assert(call_ensures(N::times, (num, draws[o], leaf_sd[o]), noise));
        assert(is_leaf_value(num, numbers, n_trees, noise, value[o]));
    }
}

/// The Gaussian strategy parts the samples of the node by the split and gives each side a
/// leaf with the share of one tree in what the forest predicts there, and noise of its own.
pub proof fn law_gaussian_leaves<N: Numerics>(
    num: &N,
    node_samples: Seq<u32>,
    x: Matrix,
    sum_trees: Matrix,
    leaf_sd: Seq<Binary64>,
    n_trees: nat,
    n_outputs: nat,
    split_val: Binary64,
    split_var: u32,
    node_idx: usize,
    left_draws: Seq<Binary64>,
    right_draws: Seq<Binary64>,
    r: LeafProposal,
)
    requires
        GaussianResponseStrategy.is_proposal(
            num,
            node_samples,
            x,
            sum_trees,
            leaf_sd,
            n_trees,
            n_outputs,
            split_val,
            split_var,
            node_idx,
            left_draws,
            right_draws,
            r,
        ),
    ensures
        r.node_idx == node_idx,
        r.split_var == split_var,
        r.split_val == split_val,
        holds_leaf_values(
            num,
            sum_trees,
            samples_on(node_samples, x, split_var, split_val, true),
            leaf_sd,
            n_trees,
            n_outputs,
            left_draws,
            r.left,
        ),
        holds_leaf_values(
            num,
            sum_trees,
            samples_on(node_samples, x, split_var, split_val, false),
            leaf_sd,
            n_trees,
            n_outputs,
            right_draws,
            r.right,
        ),
{
    lemma_sides(node_samples, x, split_var, split_val);
    lemma_leaf_values(
        num,
        sum_trees,
        left_samples(x, split_var, split_val, node_samples),
        leaf_sd,
        n_trees,
        n_outputs,
        left_draws,
        r.left,
    );
    lemma_leaf_values(
        num,
        sum_trees,
        right_samples(x, split_var, split_val, node_samples),
        leaf_sd,
        n_trees,
        n_outputs,
        right_draws,
        r.right,
    );
}

/// `(a, b)` is the line of a leaf: the one fitted to the numbers of the forest over the values
/// of the feature, with a draw scaled by `sd` as its noise; zero for an empty leaf.
pub open spec fn is_drawn_line<N: Numerics>(
    num: &N,
    features: Seq<Binary64>,
    numbers: Seq<Binary64>,
    n_trees: nat,
    sd: Binary64,
    draw: Binary64,
    a: Binary64,
    b: Binary64,
) -> bool {
    let zero = Binary64 { bits: ZERO_BITS };
    if numbers.len() == 0 {
        a == zero && b == zero
    } else {
        exists|noise: Binary64|
            {
                &&& #[trigger] call_ensures(N::times, (num, draw, sd), noise)
                &&& is_fit(num, features, numbers, noise, n_trees, a, b)
            }
    }
}

/// Every output of a leaf has a line in the feature of the split: fitted to the numbers of
/// the forest in its own row at the samples of the leaf, with its own noise.
pub open spec fn holds_leaf_lines<N: Numerics>(
    num: &N,
    x: Matrix,
    split_var: u32,
    sum_trees: Matrix,
    samples: Seq<u32>,
    leaf_sd: Seq<Binary64>,
    n_trees: nat,
    n_outputs: nat,
    draws: Seq<Binary64>,
    leaf: LeafPayload,
) -> bool {
    &&& leaf matches LeafPayload::Linear { intercept, slope, var }
    &&& var == split_var
    &&& intercept@.len() == n_outputs
    &&& slope@.len() == n_outputs
    &&& forall|o: int|
        #![trigger intercept@[o]]
        #![trigger slope@[o]]
        0 <= o < n_outputs ==> is_drawn_line(
            num,
            features_of(x, split_var, samples),
            numbers_of(sum_trees, o, samples),
            n_trees,
            leaf_sd[o],
            draws[o],
            intercept@[o],
            slope@[o],
        )
}

proof fn lemma_leaf_lines<N: Numerics>(
    num: &N,
    x: Matrix,
    split_var: u32,
    sum_trees: Matrix,
    samples: Seq<u32>,
    leaf_sd: Seq<Binary64>,
    n_trees: nat,
    n_outputs: nat,
    draws: Seq<Binary64>,
    leaf: LeafPayload,
)
    requires
        leaf is Linear,
        leaf->var == split_var,
        are_leaf_lines(
            num,
            x,
            split_var,
            sum_trees,
            samples,
            leaf_sd,
            n_trees,
            n_outputs,
            draws,
            leaf->intercept@,
            leaf->slope@,
        ),
    ensures
        holds_leaf_lines(
            num,
            x,
            split_var,
            sum_trees,
            samples,
            leaf_sd,
            n_trees,
            n_outputs,
            draws,
            leaf,
        ),
{
    let intercept = leaf->intercept@;
    let slope = leaf->slope@;
    let features = features_of(x, split_var, samples);
    assert forall|o: int|
        #![trigger intercept[o]]
        #![trigger slope[o]]
        0 <= o < n_outputs implies is_drawn_line(
        num,
        features,
        numbers_of(sum_trees, o, samples),
        n_trees,
        leaf_sd[o],
        draws[o],
        intercept[o],
        slope[o],
    ) by {
        lemma_numbers(sum_trees, o, split_var, samples);
        lemma_numbers(x, o, split_var, samples);
        let numbers = numbers_of(sum_trees, o, samples);
        assert(is_leaf_line(
            num,
            features,
            numbers,
            leaf_sd[o],
            n_trees,
            draws[o],
            intercept[o],
            slope[o],
        ));
        if numbers.len() > 0 {
            let noise = choose|noise: Binary64|
                {
                    &&& #[trigger] is_product(num, draws[o], leaf_sd[o], noise)
                    &&& is_fit(num, features, numbers, noise, n_trees, intercept[o], slope[o])
                };
            assert(call_ensures(N::times, (num, draws[o], leaf_sd[o]), noise));
        }
    }
}

/// The linear strategy parts the samples of the node by the split and gives each side a leaf
/// with lines in the feature of the split.
pub proof fn law_linear_leaves<N: Numerics>(
    num: &N,
    node_samples: Seq<u32>,
    x: Matrix,
    sum_trees: Matrix,
    leaf_sd: Seq<Binary64>,
    n_trees: nat,
    n_outputs: nat,
    split_val: Binary64,
    split_var: u32,
    node_idx: usize,
    left_draws: Seq<Binary64>,
    right_draws: Seq<Binary64>,
    r: LeafProposal,
)
    requires
        LinearStrategy.is_proposal(
            num,
            node_samples,
            x,
            sum_trees,
            leaf_sd,
            n_trees,
            n_outputs,
            split_val,
            split_var,
            node_idx,
            left_draws,
            right_draws,
            r,
        ),
    ensures
        r.node_idx == node_idx,
        r.split_var == split_var,
        r.split_val == split_val,
        holds_leaf_lines(
            num,
            x,
            split_var,
            sum_trees,
            samples_on(node_samples, x, split_var, split_val, true),
            leaf_sd,
            n_trees,
            n_outputs,
            left_draws,
            r.left,
        ),
        holds_leaf_lines(
            num,
            x,
            split_var,
            sum_trees,
            samples_on(node_samples, x, split_var, split_val, false),
            leaf_sd,
            n_trees,
            n_outputs,
            right_draws,
            r.right,
        ),
{
    lemma_sides(node_samples, x, split_var, split_val);
    lemma_leaf_lines(
        num,
        x,
        split_var,
        sum_trees,
        left_samples(x, split_var, split_val, node_samples),
        leaf_sd,
        n_trees,
        n_outputs,
        left_draws,
        r.left,
    );
    lemma_leaf_lines(
        num,
        x,
        split_var,
        sum_trees,
        right_samples(x, split_var, split_val, node_samples),
        leaf_sd,
        n_trees,
        n_outputs,
        right_draws,
        r.right,
    );
}

/// The sums of the first numbers are all exact.
pub open spec fn adds_up_exactly(values: Seq<Binary64>, unit: int, bound: int) -> bool {
    &&& forall|i: int| 0 <= i < values.len() ==> is_exact(#[trigger] values[i], unit, bound)
    &&& forall|k: int|
        0 <= k <= values.len() ==> fits_exactly(
            scaled_sum(#[trigger] values.take(k)),
            unit,
            bound,
        )
}

/// Exact numbers added one by one.
pub proof fn law_running_sums_are_exact<N: Numerics>(
    num: &N,
    values: Seq<Binary64>,
    unit: int,
    bound: int,
    r: Binary64,
)
    requires
        computes_exactly(num, unit, bound),
        unit > 0,
        bound >= 0,
        adds_up_exactly(values, unit, bound),
        is_running_sum(num, values, r),
    ensures
        r.is_finite_spec(),
        r.scaled() == scaled_sum(values),
    decreases values.len(),
{
    if values.len() == 0 {
        r.lemma_zero_has_no_magnitude();
        lemma_zero_scaled();
    } else {
        let rest = values.drop_last();
        let p = choose|p: Binary64|
            is_running_sum(num, rest, p) && #[trigger] is_sum(num, p, values.last(), r);
        let n = rest.len() as int;
        assert(values.take(n) =~= rest);
        assert(values.take(n + 1) =~= values);
        assert forall|i: int| 0 <= i < rest.len() implies is_exact(
            #[trigger] rest[i],
            unit,
            bound,
        ) by {
            assert(rest[i] == values[i]);
        }
        assert forall|k: int| 0 <= k <= rest.len() implies fits_exactly(
            scaled_sum(#[trigger] rest.take(k)),
            unit,
            bound,
        ) by {
            assert(rest.take(k) =~= values.take(k));
        }
        law_running_sums_are_exact(num, rest, unit, bound, p);
        assert(fits_exactly(scaled_sum(values.take(n)), unit, bound));
        assert(is_exact(values[n], unit, bound));
        assert(call_ensures(N::plus, (num, p, values.last()), r));
    }
}

proof fn lemma_zero_scaled()
    ensures
        (Binary64 { bits: ZERO_BITS }).scaled() == 0,
        (Binary64 { bits: ZERO_BITS }).is_finite_spec(),
{
}

/// The value of a Gaussian leaf where the arithmetic is exact: with `k` samples in it and `n`
/// trees, `k * n` times what the value exceeds the noise by is the sum of what the forest
/// predicts for its samples.
pub proof fn law_leaf_value_is_a_share<N: Numerics>(
    num: &N,
    numbers: Seq<Binary64>,
    n_trees: nat,
    noise: Binary64,
    unit: int,
    bound: int,
    mean: int,
    share: int,
    r: Binary64,
)
    requires
        is_leaf_value(num, numbers, n_trees, noise, r),
        computes_exactly(num, unit, bound),
        unit > 0,
        bound >= 0,
        0 < numbers.len() < 0x20_0000_0000_0000,
        0 < n_trees < 0x20_0000_0000_0000,
        adds_up_exactly(numbers, unit, bound),
        numbers.len() * mean == scaled_sum(numbers),
        n_trees * share == mean,
        fits_exactly(mean, unit, bound),
        fits_exactly(share, unit, bound),
        is_exact(noise, unit, bound),
        fits_exactly(share + noise.scaled(), unit, bound),
    ensures
        r.scaled() == share + noise.scaled(),
        numbers.len() * (n_trees * (r.scaled() - noise.scaled())) == scaled_sum(numbers),
{
    let (sum, m, q) = choose|sum: Binary64, m: Binary64, q: Binary64|
        {
            &&& is_running_sum(num, numbers, sum)
            &&& #[trigger] call_ensures(N::over, (num, sum, count_number(numbers.len())), m)
            &&& #[trigger] call_ensures(N::over, (num, m, count_number(n_trees)), q)
            &&& call_ensures(N::plus, (num, q, noise), r)
        };
    law_running_sums_are_exact(num, numbers, unit, bound, sum);
    lemma_over_count(num, sum, numbers.len(), mean, unit, bound, m);
    lemma_over_count(num, m, n_trees, share, unit, bound, q);
}

/// An exact number divided by a count.
pub proof fn lemma_over_count<N: Numerics>(
    num: &N,
    a: Binary64,
    n: nat,
    v: int,
    unit: int,
    bound: int,
    r: Binary64,
)
    requires
        computes_exactly(num, unit, bound),
        0 < n < 0x20_0000_0000_0000,
        a.is_finite_spec(),
        n * v == a.scaled(),
        fits_exactly(v, unit, bound),
        call_ensures(N::over, (num, a, count_number(n)), r),
    ensures
        r.is_finite_spec(),
        r.scaled() == v,
{
    crate::binary64::lemma_small_count_is_a_number(n);
    let one = unit_scale();
    let c = count_number(n).scaled();
    vstd::arithmetic::power2::lemma_pow2_pos(1074);
    assert(c == n * one);
    assert(v * c == (n * v) * one) by (nonlinear_arith)
        requires
            c == n * one,
    ;
    assert(c != 0) by (nonlinear_arith)
        requires
            c == n * one,
            n > 0,
            one > 0,
    ;
}

/// `r` is what the host draws from the standard normal distribution with a generator in the
/// state `from`, which is then in the state `to`.
pub open spec fn is_fresh_normal<N: Numerics>(
    num: &N,
    from: SmallRng,
    r: Binary64,
    to: SmallRng,
) -> bool {
    exists|d: Drawn<Binary64>, a: &mut SmallRng|
        {
            &&& d.before@ == from
            &&& d.after@ == to
            &&& d.value == r
            &&& #[trigger] call_ensures(draw_normal::<N>, (num, a), d)
        }
}

/// Each output has two draws of its own, one for the left leaf and then one for the right.
/// Each draw goes on with the generator as the one before it left it, output after output.
pub proof fn law_every_leaf_has_its_own_noise<N: Numerics>(
    num: &N,
    n: nat,
    from: SmallRng,
    left: Seq<Binary64>,
    right: Seq<Binary64>,
    to: SmallRng,
) -> (states: Seq<SmallRng>)
    requires
        are_noise_draws(num, n, from, left, right, to),
    ensures
        left.len() == n,
        right.len() == n,
        states.len() == 2 * n + 1,
        states[0] == from,
        states.last() == to,
        forall|o: int|
            #![trigger left[o]]
            #![trigger right[o]]
            0 <= o < n ==> {
                &&& is_fresh_normal(num, states[2 * o], left[o], states[2 * o + 1])
                &&& is_fresh_normal(num, states[2 * o + 1], right[o], states[2 * o + 2])
            },
{
    let states = choose|states: Seq<SmallRng>|
        {
            &&& #[trigger] is_noise_chain(num, n, states, left, right)
            &&& states[0] == from
            &&& states.last() == to
        };
    assert forall|o: int|
        #![trigger left[o]]
        #![trigger right[o]]
        0 <= o < n implies {
        &&& is_fresh_normal(num, states[2 * o], left[o], states[2 * o + 1])
        &&& is_fresh_normal(num, states[2 * o + 1], right[o], states[2 * o + 2])
    } by {
        assert(is_normal_draw(num, states[2 * o], left[o], states[2 * o + 1]));
        assert(is_normal_draw(num, states[2 * o + 1], right[o], states[2 * o + 2]));
    }
    states
}

} // verus!
