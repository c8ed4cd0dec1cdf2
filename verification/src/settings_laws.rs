//! What holds of settings and of how samplers are set up.
use crate::binary64::{count_number, Binary64};
use crate::columns::{
    are_moments, are_moments_of, are_repeats_jittered, are_whole, is_jittered_column, is_nanstd,
    is_repeat_jittered, is_repeated, present_count, TWELVE_BITS,
};
use crate::draws::is_normal_draw;
use crate::kernel::{is_initial_leaf_sd, BartKernel};
use crate::matrix::{flattened, flattened_rows, Matrix};
use crate::numerics::{is_product, is_quotient, is_root, is_sum, Numerics};
use crate::random::is_seeded;
use crate::repeat_laws::{alike, answers_in_one_way, draws_in_one_way, lemma_alike};
use crate::resampling::ResamplingStrategy;
use crate::run_laws::{
    are_alike_kernels, are_alike_states, is_run_after, law_runs_repeat, law_start_repeats,
    lemma_one_welford_step, repeats_itself,
};
use crate::running_sd::{is_deviation, is_welford_step};
use crate::sampler::{is_setup_error, Sampler};
use crate::settings::{
    are_columns_prepared, are_completed_rules, are_flags, is_default_rule, is_flag,
    is_prepared_column, is_response_matrix, response_matrix, PyBartSettings, SetupError,
};
use crate::splitting::SplitRule;
use crate::state::StateModel;
use crate::weight::WeightFn;
use rand::rngs::SmallRng;
use vstd::prelude::*;

verus! {

/// A list of responses and a table of one row with the same numbers give the same array.
pub proof fn law_list_is_single_row(values: Seq<Binary64>, n: usize, list: Matrix, table: Matrix)
    requires
        is_response_matrix(values, seq![n], list),
        is_response_matrix(values, seq![1usize, n], table),
    ensures
        list.same_shape(table),
        forall|i: int, j: int|
            0 <= i < list.height() && 0 <= j < list.width() ==> #[trigger] list.at(i, j)
                == table.at(i, j),
        flattened(list) == flattened(table),
{
    assert forall|i: int, j: int|
        0 <= i < list.height() && 0 <= j < list.width() implies #[trigger] list.at(i, j)
        == table.at(i, j) by {
        assert(table.at(i, j) == values[i * n + j]);
    }
    assert(list.row(0) =~= table.row(0));
    reveal_with_fuel(flattened_rows, 2);
}

/// The numbers of an array made of responses, row after row, are the responses as they were
/// given. A list has one row, a table as many as its shape says.
pub proof fn law_responses_keep_their_order(values: Vec<Binary64>, shape: Vec<usize>, y: Matrix)
    requires
        call_ensures(response_matrix, (&values, &shape), Ok::<Matrix, String>(y)),
        shape@.len() == 1 ==> values@.len() == shape@[0],
        shape@.len() == 2 ==> values@.len() == shape@[0] * shape@[1],
    ensures
        shape@.len() == 1 || shape@.len() == 2,
        shape@.len() == 1 ==> y.height() == 1 && y.width() == shape@[0],
        shape@.len() == 2 ==> y.height() == shape@[0] && y.width() == shape@[1],
        flattened(y) == values@,
{
    lemma_rows_in_order(values@, y, y.height());
    assert(1 * y.width() == y.width());
    assert(values@.take((y.height() * y.width()) as int) =~= values@);
}

proof fn lemma_rows_in_order(values: Seq<Binary64>, y: Matrix, n: nat)
    requires
        n <= y.height(),
        y.height() * y.width() == values.len(),
        forall|i: int, j: int|
            0 <= i < y.height() && 0 <= j < y.width() ==> #[trigger] y.at(i, j) == values[i
                * y.width() + j],
    ensures
        n * y.width() <= values.len(),
        flattened_rows(y, n) == values.take((n * y.width()) as int),
    decreases n,
{
    let w = y.width() as int;
    let h = y.height() as int;
    assert(n * w <= h * w) by (nonlinear_arith)
        requires
            n <= h,
            w >= 0,
    ;
    if n > 0 {
        lemma_rows_in_order(values, y, (n - 1) as nat);
        assert((n - 1) * w + w == n * w) by (nonlinear_arith);
        assert((n - 1) * w >= 0) by (nonlinear_arith)
            requires
                n >= 1,
                w >= 0,
        ;
        let head = values.take((n - 1) * w);
        assert(values.take(n * w) =~= head + y.row(n - 1)) by {
            assert forall|k: int| 0 <= k < n * w implies values.take(n * w)[k] == #[trigger] (head
                + y.row(n - 1))[k] by {
                if k >= (n - 1) * w {
                    let j = k - (n - 1) * w;
                    assert(y.at(n - 1, j) == values[(n - 1) * w + j]);
                }
            }
        }
    } else {
        assert(0 * w == 0);
        assert(values.take(0) =~= Seq::empty());
    }
}

/// Samplers that differ only in that one was given its responses as a list and the other as
/// a table of one row start from the same states.
pub proof fn law_list_and_row_start_alike<
    N: Numerics,
    S: SplitRule,
    R: ResamplingStrategy,
    W: WeightFn,
>(
    values: Seq<Binary64>,
    n: usize,
    a: &BartKernel<N, S, R, W>,
    b: &BartKernel<N, S, R, W>,
    state: StateModel,
)
    requires
        is_response_matrix(values, seq![n], a.data.y),
        is_response_matrix(values, seq![1usize, n], b.data.y),
        a.num == b.num,
        a.config == b.config,
        a.data.x == b.data.x,
    ensures
        a.is_initial(state) == b.is_initial(state),
        a.is_untouched(state) == b.is_untouched(state),
        a.state_ok(state) == b.state_ok(state),
{
    law_list_is_single_row(values, n, a.data.y, b.data.y);
    lemma_start_by_responses(a, b, state);
    lemma_start_by_responses(b, a, state);
}

/// A sampler starts from what its responses are, row after row.
proof fn lemma_start_by_responses<
    N: Numerics,
    S: SplitRule,
    R: ResamplingStrategy,
    W: WeightFn,
>(a: &BartKernel<N, S, R, W>, b: &BartKernel<N, S, R, W>, state: StateModel)
    requires
        flattened(a.data.y) == flattened(b.data.y),
        a.num == b.num,
        a.config == b.config,
        a.data.x == b.data.x,
    ensures
        a.is_initial(state) ==> b.is_initial(state),
        a.is_untouched(state) ==> b.is_untouched(state),
        a.state_ok(state) ==> b.state_ok(state),
{
    if a.is_untouched(state) {
        assert forall|o: int| 0 <= o < b.config.n_outputs implies is_initial_leaf_sd(
            &b.num,
            b.data,
            b.config.n_trees as nat,
            #[trigger] state.leaf_sd@[o],
        ) by {
            assert(is_initial_leaf_sd(
                &a.num,
                a.data,
                a.config.n_trees as nat,
                state.leaf_sd@[o],
            ));
        }
    }
    if a.state_ok(state) {
        assert forall|i: int| 0 <= i < state.forest.len() implies b.tree_ok(
            #[trigger] state.forest[i],
        ) by {
            assert(a.tree_ok(state.forest[i]));
        }
    }
}

/// Rules, seeds and default rules are the same whenever they are asked for.
pub open spec fn sets_up_in_one_way<S: SplitRule>() -> bool {
    &&& forall|rule: S, p: bool, q: bool| #[trigger]
        is_flag(rule, p) && #[trigger] is_flag(rule, q) ==> p == q
    &&& forall|p: S, q: S| #[trigger]
        is_default_rule::<S>(p) && #[trigger] is_default_rule::<S>(q) ==> p == q
    &&& forall|seed: u64, p: SmallRng, q: SmallRng| #[trigger]
        is_seeded(seed, p) && #[trigger] is_seeded(seed, q) ==> p == q
}

proof fn lemma_one_completion<S: SplitRule>(given: Seq<S>, n: nat, p: Seq<S>, q: Seq<S>)
    requires
        sets_up_in_one_way::<S>(),
        are_completed_rules(given, n, p),
        are_completed_rules(given, n, q),
    ensures
        p == q,
{
    assert forall|i: int| 0 <= i < p.len() implies p[i] == q[i] by {
        if i < given.len() {
            assert(p[i] == p.take(given.len() as int)[i]);
            assert(q[i] == q.take(given.len() as int)[i]);
        } else {
            assert(is_default_rule::<S>(p[i]));
            assert(is_default_rule::<S>(q[i]));
        }
    }
    assert(p =~= q);
}

proof fn lemma_one_flagging<S: SplitRule>(rules: Seq<S>, p: Seq<bool>, q: Seq<bool>)
    requires
        sets_up_in_one_way::<S>(),
        are_flags(rules, p),
        are_flags(rules, q),
    ensures
        p == q,
{
    assert forall|i: int| 0 <= i < p.len() implies p[i] == q[i] by {
        assert(is_flag(rules[i], p[i]));
        assert(is_flag(rules[i], q[i]));
    }
    assert(p =~= q);
}

proof fn lemma_one_pair_of_moments<N: Numerics>(
    num: &N,
    col: Seq<Binary64>,
    p: Binary64,
    p2: Binary64,
    q: Binary64,
    q2: Binary64,
)
    requires
        answers_in_one_way(num),
        are_moments_of(num, col, p, p2),
        are_moments_of(num, col, q, q2),
    ensures
        p == q,
        p2 == q2,
    decreases col.len(),
{
    if col.len() > 0 {
        let rest = col.drop_last();
        if col.last().is_nan_spec() {
            lemma_one_pair_of_moments(num, rest, p, p2, q, q2);
        } else {
            let n = present_count(col);
            let (a, a2) = choose|before: Binary64, before_m2: Binary64|
                {
                    &&& #[trigger] is_welford_step(num, n, col.last(), before, before_m2, p, p2)
                    &&& are_moments_of(num, rest, before, before_m2)
                };
            let (b, b2) = choose|before: Binary64, before_m2: Binary64|
                {
                    &&& #[trigger] is_welford_step(num, n, col.last(), before, before_m2, q, q2)
                    &&& are_moments_of(num, rest, before, before_m2)
                };
            lemma_one_pair_of_moments(num, rest, a, a2, b, b2);
            lemma_one_welford_step(num, n, col.last(), a, a2, p, p2, q, q2);
        }
    }
}

proof fn lemma_one_nanstd<N: Numerics>(num: &N, col: Seq<Binary64>, p: Binary64, q: Binary64)
    requires
        answers_in_one_way(num),
        is_nanstd(num, col, p),
        is_nanstd(num, col, q),
    ensures
        p == q,
{
    let n = present_count(col);
    if n > 0 {
        let (a, a2) = choose|mean: Binary64, m2: Binary64|
            #[trigger] are_moments(num, col, mean, m2) && is_deviation(num, m2, n, p);
        let (b, b2) = choose|mean: Binary64, m2: Binary64|
            #[trigger] are_moments(num, col, mean, m2) && is_deviation(num, m2, n, q);
        lemma_one_pair_of_moments(num, col, a, a2, b, b2);
        let v = choose|v: Binary64|
            is_quotient(num, a2, count_number(n), v) && #[trigger] is_root(num, v, p);
        let w = choose|v: Binary64|
            is_quotient(num, a2, count_number(n), v) && #[trigger] is_root(num, v, q);
        assert(v == w);
    }
}

/// Two ways of jittering a column agree on its first `k` numbers.
proof fn lemma_jitters_agree<N: Numerics>(
    num: &N,
    col: Seq<Binary64>,
    scale: Binary64,
    k: nat,
    states: Seq<SmallRng>,
    p: Seq<Binary64>,
    others: Seq<SmallRng>,
    q: Seq<Binary64>,
)
    requires
        answers_in_one_way(num),
        draws_in_one_way(num),
        k <= col.len(),
        are_repeats_jittered(num, col, scale, states, p),
        are_repeats_jittered(num, col, scale, others, q),
        states[0] == others[0],
    ensures
        states[k as int] == others[k as int],
        forall|i: int| 0 <= i < k ==> p[i] == #[trigger] q[i],
    decreases k,
{
    if k > 0 {
        let i = k - 1;
        lemma_jitters_agree(num, col, scale, i as nat, states, p, others, q);
        assert(is_repeat_jittered(num, col, scale, i, states[i], p[i], states[i + 1]));
        assert(is_repeat_jittered(num, col, scale, i, states[i], q[i], others[i + 1]));
        if is_repeated(col, i) {
            let (z, a) = choose|z: Binary64, noise: Binary64|
                {
                    &&& is_normal_draw(num, states[i], z, states[i + 1])
                    &&& #[trigger] is_product(num, scale, z, noise)
                    &&& is_sum(num, col[i], noise, p[i])
                };
            let (w, b) = choose|z: Binary64, noise: Binary64|
                {
                    &&& is_normal_draw(num, states[i], z, others[i + 1])
                    &&& #[trigger] is_product(num, scale, z, noise)
                    &&& is_sum(num, col[i], noise, q[i])
                };
            assert(z == w);
            assert(a == b);
        }
    }
}

proof fn lemma_one_prepared_column<N: Numerics>(
    num: &N,
    col: Seq<Binary64>,
    from: SmallRng,
    p: Seq<Binary64>,
    to: SmallRng,
    q: Seq<Binary64>,
    other: SmallRng,
)
    requires
        answers_in_one_way(num),
        draws_in_one_way(num),
        is_prepared_column(num, col, from, p, to),
        is_prepared_column(num, col, from, q, other),
    ensures
        p == q,
        to == other,
{
    let sd = choose|sd: Binary64| #[trigger]
        is_nanstd(num, col, sd) && is_jittered_column(num, col, sd, from, p, to);
    let other_sd = choose|sd: Binary64| #[trigger]
        is_nanstd(num, col, sd) && is_jittered_column(num, col, sd, from, q, other);
    lemma_one_nanstd(num, col, sd, other_sd);
    if are_whole(col) {
        let twelve = Binary64 { bits: TWELVE_BITS };
        let (scale, states) = choose|scale: Binary64, states: Seq<SmallRng>|
            {
                &&& is_quotient(num, sd, twelve, scale)
                &&& #[trigger] are_repeats_jittered(num, col, scale, states, p)
                &&& states[0] == from
                &&& states.last() == to
            };
        let (other_scale, others) = choose|scale: Binary64, states: Seq<SmallRng>|
            {
                &&& is_quotient(num, sd, twelve, scale)
                &&& #[trigger] are_repeats_jittered(num, col, scale, states, q)
                &&& states[0] == from
                &&& states.last() == other
            };
        lemma_jitters_agree(num, col, scale, col.len(), states, p, others, q);
        assert(p =~= q);
    }
}

/// Two ways of preparing columns agree on the first `k`.
proof fn lemma_preparations_agree<N: Numerics>(
    num: &N,
    x: Matrix,
    flags: Seq<bool>,
    k: nat,
    states: Seq<SmallRng>,
    p: Matrix,
    others: Seq<SmallRng>,
    q: Matrix,
)
    requires
        answers_in_one_way(num),
        draws_in_one_way(num),
        k <= flags.len(),
        forall|j: int| x.width() <= j < flags.len() ==> !(#[trigger] flags[j]),
        are_columns_prepared(num, x, flags, states, p),
        are_columns_prepared(num, x, flags, others, q),
        states[0] == others[0],
    ensures
        states[k as int] == others[k as int],
        forall|j: int| 0 <= j < k && j < x.width() ==> #[trigger] p.column(j) == q.column(j),
    decreases k,
{
    if k > 0 {
        let j = k - 1;
        lemma_preparations_agree(num, x, flags, j as nat, states, p, others, q);
        if flags[j] {
            let c = p.column(j);
            let d = q.column(j);
            assert(is_prepared_column(num, x.column(j), states[j], c, states[j + 1]));
            assert(is_prepared_column(num, x.column(j), states[j], d, others[j + 1]));
            lemma_one_prepared_column(
                num,
                x.column(j),
                states[j],
                c,
                states[j + 1],
                d,
                others[j + 1],
            );
        } else if j < x.width() {
            assert(p.column(j) == x.column(j));
            assert(q.column(j) == x.column(j));
        }
    }
}

proof fn lemma_one_preparation<N: Numerics>(
    num: &N,
    x: Matrix,
    flags: Seq<bool>,
    states: Seq<SmallRng>,
    p: Matrix,
    others: Seq<SmallRng>,
    q: Matrix,
)
    requires
        answers_in_one_way(num),
        draws_in_one_way(num),
        forall|j: int| x.width() <= j < flags.len() ==> !(#[trigger] flags[j]),
        are_columns_prepared(num, x, flags, states, p),
        are_columns_prepared(num, x, flags, others, q),
        states[0] == others[0],
    ensures
        alike(p, q),
        states.last() == others.last(),
{
    lemma_preparations_agree(num, x, flags, flags.len(), states, p, others, q);
    assert forall|i: int, j: int| 0 <= i < p.height() && 0 <= j < p.width() implies
        #[trigger] p.at(i, j) == q.at(i, j) by {
        let c = p.column(j);
        let d = q.column(j);
        if j >= flags.len() {
            assert(c == x.column(j));
            assert(d == x.column(j));
        }
        assert(c[i] == d[i]);
    }
    lemma_alike(p, q);
}

/// Setting up repeats itself: samplers for the same data, strategies and settings hold the
/// same numbers, start from the same trees and numbers, and go on with a generator in the
/// same state. It is enough that the responses are arrays with the same numbers in them.
pub proof fn law_setup_repeats<N: Numerics, S: SplitRule, R: ResamplingStrategy, W: WeightFn>(
    a: Sampler<N, S, R, W>,
    b: Sampler<N, S, R, W>,
    num: N,
    x: Matrix,
    y: Matrix,
    z: Matrix,
    split_rules: Seq<S>,
    resampling: R,
    weight_fn: W,
    settings: PyBartSettings,
)
    requires
        repeats_itself(a.kernel),
        sets_up_in_one_way::<S>(),
        alike(y, z),
        a.is_set_up(num, x, y, split_rules, resampling, weight_fn, settings),
        b.is_set_up(num, x, z, split_rules, resampling, weight_fn, settings),
    ensures
        are_alike_kernels(a.kernel, b.kernel),
        are_alike_states(a.state->0@, b.state->0@),
        a.state->0@.running_sd.m2.same_shape(a.state->0@.running_sd.mean),
        a.rng == b.rng,
{
    lemma_one_completion(split_rules, x.width(), a.kernel.split_rules@, b.kernel.split_rules@);
    let (flags, states) = choose|flags: Seq<bool>, states: Seq<SmallRng>|
        {
            &&& #[trigger] are_flags(a.kernel.split_rules@, flags)
            &&& forall|j: int| x.width() <= j < flags.len() ==> !(#[trigger] flags[j])
            &&& is_seeded(settings.seed, states[0])
            &&& #[trigger] are_columns_prepared(&num, x, flags, states, a.kernel.data.x)
            &&& states.last() == a.rng
        };
    let (other_flags, others) = choose|flags: Seq<bool>, states: Seq<SmallRng>|
        {
            &&& #[trigger] are_flags(b.kernel.split_rules@, flags)
            &&& forall|j: int| x.width() <= j < flags.len() ==> !(#[trigger] flags[j])
            &&& is_seeded(settings.seed, states[0])
            &&& #[trigger] are_columns_prepared(&num, x, flags, states, b.kernel.data.x)
            &&& states.last() == b.rng
        };
    lemma_one_flagging(a.kernel.split_rules@, flags, other_flags);
    lemma_one_preparation(&num, x, flags, states, a.kernel.data.x, others, b.kernel.data.x);
    assert(a.kernel.config == b.kernel.config);
    law_start_repeats(a.kernel, b.kernel, a.state->0@, b.state->0@);
}

/// Whether a sampler can be set up does not depend on the responses: where one is for some,
/// no error comes for others.
pub proof fn law_setup_or_error<N: Numerics, S: SplitRule, R: ResamplingStrategy, W: WeightFn>(
    a: Sampler<N, S, R, W>,
    num: N,
    x: Matrix,
    y: Matrix,
    split_rules: Seq<S>,
    resampling: R,
    weight_fn: W,
    settings: PyBartSettings,
    e: SetupError,
)
    requires
        sets_up_in_one_way::<S>(),
        a.is_set_up(num, x, y, split_rules, resampling, weight_fn, settings),
    ensures
        !is_setup_error(x, split_rules, settings, e),
{
    let (flags, states) = choose|flags: Seq<bool>, states: Seq<SmallRng>|
        {
            &&& #[trigger] are_flags(a.kernel.split_rules@, flags)
            &&& forall|j: int| x.width() <= j < flags.len() ==> !(#[trigger] flags[j])
            &&& is_seeded(settings.seed, states[0])
            &&& #[trigger] are_columns_prepared(&num, x, flags, states, a.kernel.data.x)
            &&& states.last() == a.rng
        };
    if is_setup_error(x, split_rules, settings, e) && e == SetupError::NoSuchColumn {
        let (rules, other_flags, j) = choose|rules: Seq<S>, flags: Seq<bool>, j: int|
            {
                &&& are_completed_rules(split_rules, x.width(), rules)
                &&& #[trigger] are_flags(rules, flags)
                &&& x.width() <= j < flags.len()
                &&& #[trigger] flags[j]
            };
        lemma_one_completion(split_rules, x.width(), a.kernel.split_rules@, rules);
        lemma_one_flagging(rules, flags, other_flags);
    }
}

/// Samplers that differ only in that one was given its responses as a list and the other as a
/// table of one row run alike: after the same steps they stand at the same trees,
/// predictions and counts, and their generators are in the same state.
pub proof fn law_list_and_row_run_alike<N: Numerics, S: SplitRule, R: ResamplingStrategy, W: WeightFn>(
    a: Sampler<N, S, R, W>,
    b: Sampler<N, S, R, W>,
    num: N,
    x: Matrix,
    values: Seq<Binary64>,
    n: usize,
    y: Matrix,
    z: Matrix,
    split_rules: Seq<S>,
    resampling: R,
    weight_fn: W,
    settings: PyBartSettings,
    tunes: Seq<Option<bool>>,
    p: StateModel,
    to: SmallRng,
    q: StateModel,
    other: SmallRng,
)
    requires
        repeats_itself(a.kernel),
        sets_up_in_one_way::<S>(),
        is_response_matrix(values, seq![n], y),
        is_response_matrix(values, seq![1usize, n], z),
        a.is_set_up(num, x, y, split_rules, resampling, weight_fn, settings),
        b.is_set_up(num, x, z, split_rules, resampling, weight_fn, settings),
        is_run_after(a.kernel, a.rng, a.state->0@, tunes, p, to),
        is_run_after(b.kernel, b.rng, b.state->0@, tunes, q, other),
    ensures
        are_alike_states(p, q),
        to == other,
{
    law_list_is_single_row(values, n, y, z);
    lemma_alike(y, z);
    law_setup_repeats(a, b, num, x, y, z, split_rules, resampling, weight_fn, settings);
    law_runs_repeat(
        a.kernel,
        b.kernel,
        a.rng,
        a.state->0@,
        b.state->0@,
        tunes,
        p,
        to,
        q,
        other,
    );
}

} // verus!
