//! What holds of the proposals of response strategies.
use crate::binary64::{count_number, Binary64, ZERO_BITS};
use crate::draws::is_normal_draw;
use crate::matrix::Matrix;
use crate::numerics::{
    are_differences, are_products, is_determined, is_difference, is_product,
    is_quotient, is_running_sum, is_shifted_quotient, is_sum, is_total, Numerics,
};
use crate::response::{
    are_leaf_lines, are_leaf_means, are_moments, are_noise_draws, are_scaled, column_at,
    is_average, is_fit, is_intercept, is_leaf_line, is_leaf_mean, is_least_squares_line,
    is_level_line, is_noise_chain, is_noisy_mean, left_samples, right_samples, row_at,
    LeafPayload, LeafProposal, ResponseStrategies, ResponseStrategy,
};
use rand::rngs::SmallRng;
use vstd::prelude::*;

verus! {

/// The strategy in use proposes what the strategy inside it proposes for the same draws, so
/// that both leaves are of its kind.
pub proof fn law_enum_proposes_as_inner<N: Numerics>(
    num: &N,
    node_samples: Seq<u32>,
    x: Matrix,
    sum_trees: Matrix,
    leaf_sd: Seq<Binary64>,
    n_trees: nat,
    n_outputs: nat,
    split_val: Binary64,
    split_var: u32,
    node_idx: usize,
    left_draws: Seq<Binary64>,
    right_draws: Seq<Binary64>,
    strategy: ResponseStrategies,
    r: LeafProposal,
)
    ensures
        strategy.is_proposal(
            num,
            node_samples,
            x,
            sum_trees,
            leaf_sd,
            n_trees,
            n_outputs,
            split_val,
            split_var,
            node_idx,
            left_draws,
            right_draws,
            r,
        ) == match strategy {
            ResponseStrategies::Motr(_) => false,
            ResponseStrategies::Gaussian(inner) => inner.is_proposal(
                num,
                node_samples,
                x,
                sum_trees,
                leaf_sd,
                n_trees,
                n_outputs,
                split_val,
                split_var,
                node_idx,
                left_draws,
                right_draws,
                r,
            ) && r.left is Gaussian && r.right is Gaussian,
            ResponseStrategies::Linear(inner) => inner.is_proposal(
                num,
                node_samples,
                x,
                sum_trees,
                leaf_sd,
                n_trees,
                n_outputs,
                split_val,
                split_var,
                node_idx,
                left_draws,
                right_draws,
                r,
            ) && r.left is Linear && r.right is Linear,
        },
{
}

/// A standard normal draw depends on the state of the generator alone, and so does the state
/// that it leaves.
pub open spec fn draws_normals_in_one_way<N: Numerics>(num: &N) -> bool {
    forall|from: SmallRng, p: Binary64, q: Binary64, to: SmallRng, other: SmallRng|
        {
            &&& #[trigger] is_normal_draw(num, from, p, to)
            &&& #[trigger] is_normal_draw(num, from, q, other)
        } ==> p == q && to == other
}

/// Where a standard normal draw depends on the state of the generator alone, the draws for a
/// proposal do too: from equal states come equal draws, and they leave equal states.
pub proof fn law_draws_repeat<N: Numerics>(
    num: &N,
    n: nat,
    from: SmallRng,
    left: Seq<Binary64>,
    right: Seq<Binary64>,
    to: SmallRng,
    other_left: Seq<Binary64>,
    other_right: Seq<Binary64>,
    other_to: SmallRng,
)
    requires
        draws_normals_in_one_way(num),
        are_noise_draws(num, n, from, left, right, to),
        are_noise_draws(num, n, from, other_left, other_right, other_to),
    ensures
        left == other_left,
        right == other_right,
        to == other_to,
{
    let states = choose|states: Seq<SmallRng>|
        {
            &&& #[trigger] is_noise_chain(num, n, states, left, right)
            &&& states[0] == from
            &&& states.last() == to
        };
    let others = choose|states: Seq<SmallRng>|
        {
            &&& #[trigger] is_noise_chain(num, n, states, other_left, other_right)
            &&& states[0] == from
            &&& states.last() == other_to
        };
    lemma_chains_agree(num, n, n, states, left, right, others, other_left, other_right);
    assert(left =~= other_left);
    assert(right =~= other_right);
}

/// Two chains from one state agree on the first `k` outputs.
proof fn lemma_chains_agree<N: Numerics>(
    num: &N,
    n: nat,
    k: nat,
    states: Seq<SmallRng>,
    left: Seq<Binary64>,
    right: Seq<Binary64>,
    others: Seq<SmallRng>,
    other_left: Seq<Binary64>,
    other_right: Seq<Binary64>,
)
    requires
        draws_normals_in_one_way(num),
        k <= n,
        is_noise_chain(num, n, states, left, right),
        is_noise_chain(num, n, others, other_left, other_right),
        states[0] == others[0],
    ensures
        states[2 * k as int] == others[2 * k as int],
        forall|o: int|
            0 <= o < k ==> #[trigger] left[o] == other_left[o] && right[o] == other_right[o],
    decreases k,
{
    if k > 0 {
        let o = k - 1;
        lemma_chains_agree(
            num,
            n,
            o as nat,
            states,
            left,
            right,
            others,
            other_left,
            other_right,
        );
        assert(is_normal_draw(num, states[2 * o], left[o], states[2 * o + 1]));
        assert(is_normal_draw(num, states[2 * o], other_left[o], others[2 * o + 1]));
        assert(is_normal_draw(num, states[2 * o + 1], right[o], states[2 * o + 2]));
        assert(is_normal_draw(num, states[2 * o + 1], other_right[o], others[2 * o + 2]));
    }
}

/// The totals that `num` answers depend on nothing but the numbers.
pub open spec fn totals_in_one_way<N: Numerics>(num: &N) -> bool {
    forall|values: Seq<Binary64>, p: Binary64, q: Binary64| #[trigger]
        is_total(num, values, p) && #[trigger] is_total(num, values, q) ==> p == q
}

/// Two leaves of one kind with the same contents.
pub open spec fn are_same_leaves(p: LeafPayload, q: LeafPayload) -> bool {
    match (p, q) {
        (LeafPayload::Gaussian { value: a }, LeafPayload::Gaussian { value: b }) => a@ == b@,
        (
            LeafPayload::Linear { intercept: a, slope: s, var: v },
            LeafPayload::Linear { intercept: b, slope: t, var: w },
        ) => a@ == b@ && s@ == t@ && v == w,
        _ => false,
    }
}

/// Adding numbers one by one has one result.
pub proof fn lemma_one_running_sum<N: Numerics>(
    num: &N,
    values: Seq<Binary64>,
    p: Binary64,
    q: Binary64,
)
    requires
        is_determined(num),
        is_running_sum(num, values, p),
        is_running_sum(num, values, q),
    ensures
        p == q,
    decreases values.len(),
{
    if values.len() > 0 {
        let rest = values.drop_last();
        let a = choose|a: Binary64|
            is_running_sum(num, rest, a) && #[trigger] is_sum(num, a, values.last(), p);
        let b = choose|b: Binary64|
            is_running_sum(num, rest, b) && #[trigger] is_sum(num, b, values.last(), q);
        lemma_one_running_sum(num, rest, a, b);
    }
}

proof fn lemma_one_leaf_mean<N: Numerics>(
    num: &N,
    values: Seq<Binary64>,
    sd: Binary64,
    n_trees: nat,
    draw: Binary64,
    p: Binary64,
    q: Binary64,
)
    requires
        is_determined(num),
        is_leaf_mean(num, values, sd, n_trees, draw, p),
        is_leaf_mean(num, values, sd, n_trees, draw, q),
    ensures
        p == q,
{
    let noise = choose|noise: Binary64|
        #[trigger] is_product(num, draw, sd, noise) && is_noisy_mean(
            num,
            values,
            n_trees,
            noise,
            p,
        );
    assert(is_noisy_mean(num, values, n_trees, noise, q));
    if values.len() > 0 {
        let n = count_number(values.len());
        let trees = count_number(n_trees);
        let (a, mean) = choose|sum: Binary64, mean: Binary64|
            {
                &&& is_running_sum(num, values, sum)
                &&& #[trigger] is_quotient(num, sum, n, mean)
                &&& is_shifted_quotient(num, mean, trees, noise, p)
            };
        let (b, other) = choose|sum: Binary64, mean: Binary64|
            {
                &&& is_running_sum(num, values, sum)
                &&& #[trigger] is_quotient(num, sum, n, mean)
                &&& is_shifted_quotient(num, mean, trees, noise, q)
            };
        lemma_one_running_sum(num, values, a, b);
    }
}

proof fn lemma_one_average<N: Numerics>(num: &N, values: Seq<Binary64>, p: Binary64, q: Binary64)
    requires
        is_determined(num),
        totals_in_one_way(num),
        is_average(num, values, p),
        is_average(num, values, q),
    ensures
        p == q,
{
}

proof fn lemma_one_pair_of_moments<N: Numerics>(
    num: &N,
    x: Seq<Binary64>,
    y: Seq<Binary64>,
    x_mean: Binary64,
    y_mean: Binary64,
    top: Binary64,
    bottom: Binary64,
    other_top: Binary64,
    other_bottom: Binary64,
)
    requires
        is_determined(num),
        are_moments(num, x, y, x_mean, y_mean, top, bottom),
        are_moments(num, x, y, x_mean, y_mean, other_top, other_bottom),
        x.len() == y.len(),
    ensures
        top == other_top,
        bottom == other_bottom,
{
    let (dx, dy, p, q) = choose|
        dx: Seq<Binary64>,
        dy: Seq<Binary64>,
        p: Seq<Binary64>,
        q: Seq<Binary64>,
    |
        {
            &&& #[trigger] are_differences(num, x, x_mean, dx)
            &&& #[trigger] are_differences(num, y, y_mean, dy)
            &&& #[trigger] are_products(num, dx, dy, p)
            &&& #[trigger] are_products(num, dx, dx, q)
            &&& is_running_sum(num, p, top)
            &&& is_running_sum(num, q, bottom)
        };
    let (ex, ey, r, s) = choose|
        dx: Seq<Binary64>,
        dy: Seq<Binary64>,
        p: Seq<Binary64>,
        q: Seq<Binary64>,
    |
        {
            &&& #[trigger] are_differences(num, x, x_mean, dx)
            &&& #[trigger] are_differences(num, y, y_mean, dy)
            &&& #[trigger] are_products(num, dx, dy, p)
            &&& #[trigger] are_products(num, dx, dx, q)
            &&& is_running_sum(num, p, other_top)
            &&& is_running_sum(num, q, other_bottom)
        };
    assert(dx == ex) by {
        assert forall|i: int| 0 <= i < dx.len() implies dx[i] == ex[i] by {
            assert(is_difference(num, x[i], x_mean, dx[i]));
            assert(is_difference(num, x[i], x_mean, ex[i]));
        }
    }
    assert(dy == ey) by {
        assert forall|i: int| 0 <= i < dy.len() implies dy[i] == ey[i] by {
            assert(is_difference(num, y[i], y_mean, dy[i]));
            assert(is_difference(num, y[i], y_mean, ey[i]));
        }
    }
    assert(p == r) by {
        assert forall|i: int| 0 <= i < p.len() implies p[i] == r[i] by {
            assert(is_product(num, dx[i], dy[i], p[i]));
            assert(is_product(num, dx[i], dy[i], r[i]));
        }
    }
    assert(q == s) by {
        assert forall|i: int| 0 <= i < q.len() implies q[i] == s[i] by {
            assert(is_product(num, dx[i], dx[i], q[i]));
            assert(is_product(num, dx[i], dx[i], s[i]));
        }
    }
    lemma_one_running_sum(num, p, top, other_top);
    lemma_one_running_sum(num, q, bottom, other_bottom);
}

proof fn lemma_one_least_squares_line<N: Numerics>(
    num: &N,
    x: Seq<Binary64>,
    y: Seq<Binary64>,
    noise: Binary64,
    n_trees: nat,
    a: Binary64,
    b: Binary64,
    c: Binary64,
    d: Binary64,
)
    requires
        is_determined(num),
        totals_in_one_way(num),
        x.len() == y.len(),
        is_least_squares_line(num, x, y, noise, n_trees, a, b),
        is_least_squares_line(num, x, y, noise, n_trees, c, d),
    ensures
        a == c,
        b == d,
{
    let zero = Binary64 { bits: ZERO_BITS };
    let (scaled, x_mean, y_mean, top, bottom) = choose|
        scaled: Seq<Binary64>,
        x_mean: Binary64,
        y_mean: Binary64,
        top: Binary64,
        bottom: Binary64,
    |
        {
            &&& are_scaled(num, y, n_trees, noise, scaled)
            &&& is_average(num, x, x_mean)
            &&& is_average(num, scaled, y_mean)
            &&& #[trigger] are_moments(num, x, scaled, x_mean, y_mean, top, bottom)
            &&& if bottom.same_number_spec(zero) {
                &&& is_shifted_quotient(num, y_mean, count_number(n_trees), noise, a)
                &&& b == zero
            } else {
                &&& is_quotient(num, top, bottom, b)
                &&& is_intercept(num, x_mean, y_mean, b, a)
            }
        };
    let (others, v_mean, w_mean, high, low) = choose|
        scaled: Seq<Binary64>,
        x_mean: Binary64,
        y_mean: Binary64,
        top: Binary64,
        bottom: Binary64,
    |
        {
            &&& are_scaled(num, y, n_trees, noise, scaled)
            &&& is_average(num, x, x_mean)
            &&& is_average(num, scaled, y_mean)
            &&& #[trigger] are_moments(num, x, scaled, x_mean, y_mean, top, bottom)
            &&& if bottom.same_number_spec(zero) {
                &&& is_shifted_quotient(num, y_mean, count_number(n_trees), noise, c)
                &&& d == zero
            } else {
                &&& is_quotient(num, top, bottom, d)
                &&& is_intercept(num, x_mean, y_mean, d, c)
            }
        };
    assert(scaled == others) by {
        assert forall|i: int| 0 <= i < scaled.len() implies scaled[i] == others[i] by {
            assert(is_shifted_quotient(num, y[i], count_number(n_trees), noise, scaled[i]));
            assert(is_shifted_quotient(num, y[i], count_number(n_trees), noise, others[i]));
        }
    }
    lemma_one_average(num, x, x_mean, v_mean);
    lemma_one_average(num, scaled, y_mean, w_mean);
    lemma_one_pair_of_moments(num, x, scaled, x_mean, y_mean, top, bottom, high, low);
}

proof fn lemma_one_leaf_line<N: Numerics>(
    num: &N,
    x: Seq<Binary64>,
    y: Seq<Binary64>,
    sd: Binary64,
    n_trees: nat,
    draw: Binary64,
    a: Binary64,
    b: Binary64,
    c: Binary64,
    d: Binary64,
)
    requires
        is_determined(num),
        totals_in_one_way(num),
        x.len() == y.len(),
        is_leaf_line(num, x, y, sd, n_trees, draw, a, b),
        is_leaf_line(num, x, y, sd, n_trees, draw, c, d),
    ensures
        a == c,
        b == d,
{
    if y.len() > 0 {
        let noise = choose|noise: Binary64|
            #[trigger] is_product(num, draw, sd, noise) && is_fit(num, x, y, noise, n_trees, a, b);
        assert(is_fit(num, x, y, noise, n_trees, c, d));
        if y.len() < 3 {
            let trees = count_number(n_trees);
            let p = choose|mean: Binary64|
                is_average(num, y, mean) && #[trigger] is_shifted_quotient(
                    num,
                    mean,
                    trees,
                    noise,
                    a,
                );
            let q = choose|mean: Binary64|
                is_average(num, y, mean) && #[trigger] is_shifted_quotient(
                    num,
                    mean,
                    trees,
                    noise,
                    c,
                );
            assert(is_level_line(num, y, noise, n_trees, a));
            assert(is_level_line(num, y, noise, n_trees, c));
            lemma_one_average(num, y, p, q);
        } else {
            lemma_one_least_squares_line(num, x, y, noise, n_trees, a, b, c, d);
        }
    }
}

proof fn lemma_one_leaf<N: Numerics>(
    num: &N,
    x: Matrix,
    split_var: u32,
    sum_trees: Matrix,
    samples: Seq<u32>,
    leaf_sd: Seq<Binary64>,
    n_trees: nat,
    n_outputs: nat,
    draws: Seq<Binary64>,
    intercept: Seq<Binary64>,
    slope: Seq<Binary64>,
    other_intercept: Seq<Binary64>,
    other_slope: Seq<Binary64>,
)
    requires
        is_determined(num),
        totals_in_one_way(num),
        are_leaf_lines(
            num,
            x,
            split_var,
            sum_trees,
            samples,
            leaf_sd,
            n_trees,
            n_outputs,
            draws,
            intercept,
            slope,
        ),
        are_leaf_lines(
            num,
            x,
            split_var,
            sum_trees,
            samples,
            leaf_sd,
            n_trees,
            n_outputs,
            draws,
            other_intercept,
            other_slope,
        ),
    ensures
        intercept == other_intercept,
        slope == other_slope,
{
    assert forall|o: int| 0 <= o < n_outputs implies intercept[o] == other_intercept[o]
        && slope[o] == other_slope[o] by {
        lemma_one_leaf_line(
            num,
            column_at(x, split_var as int, samples),
            row_at(sum_trees, o, samples),
            leaf_sd[o],
            n_trees,
            draws[o],
            intercept[o],
            slope[o],
            other_intercept[o],
            other_slope[o],
        );
    }
}

proof fn lemma_one_value<N: Numerics>(
    num: &N,
    sum_trees: Matrix,
    samples: Seq<u32>,
    leaf_sd: Seq<Binary64>,
    n_trees: nat,
    n_outputs: nat,
    draws: Seq<Binary64>,
    values: Seq<Binary64>,
    others: Seq<Binary64>,
)
    requires
        is_determined(num),
        are_leaf_means(num, sum_trees, samples, leaf_sd, n_trees, n_outputs, draws, values),
        are_leaf_means(num, sum_trees, samples, leaf_sd, n_trees, n_outputs, draws, others),
    ensures
        values == others,
{
    assert forall|o: int| 0 <= o < n_outputs implies values[o] == others[o] by {
        lemma_one_leaf_mean(
            num,
            row_at(sum_trees, o, samples),
            leaf_sd[o],
            n_trees,
            draws[o],
            values[o],
            others[o],
        );
    }
}

/// Where the arithmetic gives one answer to each question, the draws fix the proposal: a
/// strategy proposes the same split with the same leaves for the same draws.
pub proof fn law_draws_fix_proposal<N: Numerics>(
    num: &N,
    node_samples: Seq<u32>,
    x: Matrix,
    sum_trees: Matrix,
    leaf_sd: Seq<Binary64>,
    n_trees: nat,
    n_outputs: nat,
    split_val: Binary64,
    split_var: u32,
    node_idx: usize,
    left_draws: Seq<Binary64>,
    right_draws: Seq<Binary64>,
    strategy: ResponseStrategies,
    p: LeafProposal,
    q: LeafProposal,
)
    requires
        is_determined(num),
        totals_in_one_way(num),
        strategy.is_proposal(
            num,
            node_samples,
            x,
            sum_trees,
            leaf_sd,
            n_trees,
            n_outputs,
            split_val,
            split_var,
            node_idx,
            left_draws,
            right_draws,
            p,
        ),
        strategy.is_proposal(
            num,
            node_samples,
            x,
            sum_trees,
            leaf_sd,
            n_trees,
            n_outputs,
            split_val,
            split_var,
            node_idx,
            left_draws,
            right_draws,
            q,
        ),
    ensures
        p.node_idx == q.node_idx,
        p.split_var == q.split_var,
        p.split_val == q.split_val,
        are_same_leaves(p.left, q.left),
        are_same_leaves(p.right, q.right),
{
    let left = left_samples(x, split_var, split_val, node_samples);
    let right = right_samples(x, split_var, split_val, node_samples);
    match (p.left, p.right, q.left, q.right) {
        (
            LeafPayload::Gaussian { value: a },
            LeafPayload::Gaussian { value: b },
            LeafPayload::Gaussian { value: c },
            LeafPayload::Gaussian { value: d },
        ) => {
            lemma_one_value(
                num,
                sum_trees,
                left,
                leaf_sd,
                n_trees,
                n_outputs,
                left_draws,
                a@,
                c@,
            );
            lemma_one_value(
                num,
                sum_trees,
                right,
                leaf_sd,
                n_trees,
                n_outputs,
                right_draws,
                b@,
                d@,
            );
        },
        (
            LeafPayload::Linear { intercept: a, slope: b, var: _ },
            LeafPayload::Linear { intercept: c, slope: d, var: _ },
            LeafPayload::Linear { intercept: e, slope: f, var: _ },
            LeafPayload::Linear { intercept: g, slope: h, var: _ },
        ) => {
            lemma_one_leaf(
                num,
                x,
                split_var,
                sum_trees,
                left,
                leaf_sd,
                n_trees,
                n_outputs,
                left_draws,
                a@,
                b@,
                e@,
                f@,
            );
            lemma_one_leaf(
                num,
                x,
                split_var,
                sum_trees,
                right,
                leaf_sd,
                n_trees,
                n_outputs,
                right_draws,
                c@,
                d@,
                g@,
                h@,
            );
        },
        _ => {},
    }
}

} // verus!
