//! What holds of two runs of the sampler.
use crate::binary64::{count_number, Binary64};
use crate::kernel::{
    is_initial_leaf_sd, leaf_depth, log_likelihoods, turn, BartKernel,
};
use crate::kernel_laws::choose_batch;
use crate::matrix::{is_matrix_difference, is_matrix_sum, Matrix};
use crate::numerics::{
    is_difference, is_mean, is_product, is_quotient, is_root, is_sum, Numerics,
};
use crate::predict::is_training_prediction;
use crate::repeat_laws::{
    alike, answers_in_one_way, has_cumulative_probs, is_repeatable, law_tree_repeats, lemma_alike,
    lemma_alike_flattened, lemma_one_matrix_difference, lemma_one_matrix_sum,
    lemma_one_training_prediction,
};
use crate::resampling::ResamplingStrategy;
use crate::response::ResponseStrategies;
use crate::response_laws::lemma_one_running_sum;
use crate::running_sd::{
    are_deviations, is_deviation, is_mean_deviation, is_sd_update, is_welford_step, RunningSd,
};
use crate::sampler::{is_moved, with_tune};
use crate::smc::SmcStepInfo;
use crate::splitting::SplitRule;
use crate::state::{BartInfo, StateModel};
use crate::tree_model::TreeModel;
use crate::weight::WeightFn;
use rand::rngs::SmallRng;
use vstd::prelude::*;

verus! {

/// Two samplers with the same numbers in them.
pub open spec fn are_alike_kernels<N: Numerics, S: SplitRule, R: ResamplingStrategy, W: WeightFn>(
    a: BartKernel<N, S, R, W>,
    b: BartKernel<N, S, R, W>,
) -> bool {
    &&& a.num == b.num
    &&& a.config == b.config
    &&& a.split_rules@ == b.split_rules@
    &&& a.resampling == b.resampling
    &&& a.weight_fn == b.weight_fn
    &&& alike(a.data.x, b.data.x)
    &&& alike(a.data.y, b.data.y)
}

/// Two running deviations with the same numbers in them.
pub open spec fn are_alike_deviations(a: RunningSd, b: RunningSd) -> bool {
    &&& a.count == b.count
    &&& a.shape == b.shape
    &&& alike(a.mean, b.mean)
    &&& alike(a.m2, b.m2)
}

/// Two states with the same trees and the same numbers in them.
pub open spec fn are_alike_states(a: StateModel, b: StateModel) -> bool {
    &&& a.forest == b.forest
    &&& alike(a.predictions, b.predictions)
    &&& a.variable_inclusion == b.variable_inclusion
    &&& a.next_tree_idx == b.next_tree_idx
    &&& a.tune == b.tune
    &&& are_alike_deviations(a.running_sd, b.running_sd)
    &&& a.leaf_sd@ == b.leaf_sd@
    &&& a.iter == b.iter
    &&& a.stump_count == b.stump_count
}

/// Two reports that say the same.
pub open spec fn are_alike_reports(a: BartInfo, b: BartInfo) -> bool {
    &&& a.log_likelihood == b.log_likelihood
    &&& a.acceptance_count == b.acceptance_count
    &&& a.tree_depths@ == b.tree_depths@
    &&& a.batch_start == b.batch_start
    &&& a.batch_size == b.batch_size
}

/// A sampler whose host, rules and strategies answer and draw in one way.
pub open spec fn repeats_itself<N: Numerics, S: SplitRule, R: ResamplingStrategy, W: WeightFn>(
    kernel: BartKernel<N, S, R, W>,
) -> bool {
    &&& is_repeatable::<N, S, R, W>(&kernel.num, &kernel.resampling, &kernel.weight_fn)
    &&& has_cumulative_probs(kernel.config)
}

/// A step of the running deviation has one result.
pub proof fn lemma_one_welford_step<N: Numerics>(
    num: &N,
    count: nat,
    value: Binary64,
    mean: Binary64,
    m2: Binary64,
    p: Binary64,
    p2: Binary64,
    q: Binary64,
    q2: Binary64,
)
    requires
        answers_in_one_way(num),
        is_welford_step(num, count, value, mean, m2, p, p2),
        is_welford_step(num, count, value, mean, m2, q, q2),
    ensures
        p == q,
        p2 == q2,
{
    let (d, s, e, f) = choose|
        delta: Binary64,
        share: Binary64,
        delta2: Binary64,
        product: Binary64,
    |
        {
            &&& is_difference(num, value, mean, delta)
            &&& #[trigger] is_quotient(num, delta, count_number(count), share)
            &&& is_sum(num, mean, share, p)
            &&& is_difference(num, value, p, delta2)
            &&& #[trigger] is_product(num, delta, delta2, product)
            &&& is_sum(num, m2, product, p2)
        };
    let (g, t, h, k) = choose|
        delta: Binary64,
        share: Binary64,
        delta2: Binary64,
        product: Binary64,
    |
        {
            &&& is_difference(num, value, mean, delta)
            &&& #[trigger] is_quotient(num, delta, count_number(count), share)
            &&& is_sum(num, mean, share, q)
            &&& is_difference(num, value, q, delta2)
            &&& #[trigger] is_product(num, delta, delta2, product)
            &&& is_sum(num, m2, product, q2)
        };
    assert(d == g);
    assert(s == t);
    assert(p == q);
    assert(e == h);
    assert(f == k);
}

proof fn lemma_one_mean_deviation<N: Numerics>(
    num: &N,
    a: Matrix,
    b: Matrix,
    o: int,
    count: nat,
    p: Binary64,
    q: Binary64,
)
    requires
        answers_in_one_way(num),
        alike(a, b),
        is_mean_deviation(num, a, o, count, p),
        is_mean_deviation(num, b, o, count, q),
    ensures
        p == q,
{
    let r = choose|row: Seq<Binary64>| #[trigger]
        are_deviations(num, a, o, count, row) && is_mean(num, row, p);
    let s = choose|row: Seq<Binary64>| #[trigger]
        are_deviations(num, b, o, count, row) && is_mean(num, row, q);
    assert forall|i: int| 0 <= i < r.len() implies r[i] == s[i] by {
        assert(a.at(o, i) == b.at(o, i));
        assert(is_deviation(num, a.at(o, i), count, r[i]));
        assert(is_deviation(num, a.at(o, i), count, s[i]));
        let v = choose|v: Binary64|
            is_quotient(num, a.at(o, i), count_number(count), v) && #[trigger] is_root(
                num,
                v,
                r[i],
            );
        let w = choose|v: Binary64|
            is_quotient(num, a.at(o, i), count_number(count), v) && #[trigger] is_root(
                num,
                v,
                s[i],
            );
        assert(v == w);
    }
    assert(r =~= s);
}

proof fn lemma_one_sd_update<N: Numerics>(
    num: &N,
    a: RunningSd,
    pred: Matrix,
    p: RunningSd,
    r: Seq<Binary64>,
    b: RunningSd,
    other_pred: Matrix,
    q: RunningSd,
    s: Seq<Binary64>,
)
    requires
        answers_in_one_way(num),
        are_alike_deviations(a, b),
        a.m2.same_shape(a.mean),
        alike(pred, other_pred),
        is_sd_update(num, a, pred, p, r),
        is_sd_update(num, b, other_pred, q, s),
    ensures
        are_alike_deviations(p, q),
        r == s,
{
    assert forall|i: int, j: int| 0 <= i < a.mean.height() && 0 <= j < a.mean.width() implies {
        &&& #[trigger] p.mean.at(i, j) == q.mean.at(i, j)
        &&& p.m2.at(i, j) == q.m2.at(i, j)
    } by {
        assert(a.mean.at(i, j) == b.mean.at(i, j));
        assert(a.m2.at(i, j) == b.m2.at(i, j));
        assert(pred.at(i, j) == other_pred.at(i, j));
        let q_mean = q.mean.at(i, j);
        lemma_one_welford_step(
            num,
            p.count as nat,
            pred.at(i, j),
            a.mean.at(i, j),
            a.m2.at(i, j),
            p.mean.at(i, j),
            p.m2.at(i, j),
            q_mean,
            q.m2.at(i, j),
        );
    }
    assert forall|i: int, j: int| 0 <= i < p.m2.height() && 0 <= j < p.m2.width() implies
        #[trigger] p.m2.at(i, j) == q.m2.at(i, j) by {
        assert(p.mean.at(i, j) == q.mean.at(i, j));
    }
    lemma_alike(p.mean, q.mean);
    lemma_alike(p.m2, q.m2);
    assert forall|o: int| 0 <= o < r.len() implies r[o] == s[o] by {
        assert(is_mean_deviation(num, p.m2, o, p.count as nat, r[o]));
        assert(is_mean_deviation(num, q.m2, o, q.count as nat, s[o]));
        lemma_one_mean_deviation(num, p.m2, q.m2, o, p.count as nat, r[o], s[o]);
    }
    assert(r =~= s);
}

proof fn lemma_one_tuning<N: Numerics, S: SplitRule, R: ResamplingStrategy, W: WeightFn>(
    kernel: BartKernel<N, S, R, W>,
    a: StateModel,
    pred: Matrix,
    p: StateModel,
    b: StateModel,
    other_pred: Matrix,
    q: StateModel,
)
    requires
        answers_in_one_way(&kernel.num),
        are_alike_states(a, b),
        a.running_sd.m2.same_shape(a.running_sd.mean),
        alike(pred, other_pred),
        p.iter == q.iter,
        kernel.is_tuned(a, pred, p),
        kernel.is_tuned(b, other_pred, q),
    ensures
        are_alike_deviations(p.running_sd, q.running_sd),
        p.running_sd.m2.same_shape(p.running_sd.mean),
        p.leaf_sd@ == q.leaf_sd@,
{
    if a.tune {
        let sd = choose|sd: Vec<Binary64>|
            {
                &&& #[trigger] is_sd_update(&kernel.num, a.running_sd, pred, p.running_sd, sd@)
                &&& p.leaf_sd == if p.iter > 2 {
                    sd
                } else {
                    a.leaf_sd
                }
            };
        let other_sd = choose|sd: Vec<Binary64>|
            {
                &&& #[trigger] is_sd_update(
                    &kernel.num,
                    b.running_sd,
                    other_pred,
                    q.running_sd,
                    sd@,
                )
                &&& q.leaf_sd == if q.iter > 2 {
                    sd
                } else {
                    b.leaf_sd
                }
            };
        lemma_one_sd_update(
            &kernel.num,
            a.running_sd,
            pred,
            p.running_sd,
            sd@,
            b.running_sd,
            other_pred,
            q.running_sd,
            other_sd@,
        );
    }
}

/// Replacing one tree repeats itself.
proof fn lemma_one_tree_step<N: Numerics, S: SplitRule, R: ResamplingStrategy, W: WeightFn>(
    k: BartKernel<N, S, R, W>,
    l: BartKernel<N, S, R, W>,
    from: SmallRng,
    response: ResponseStrategies,
    idx: int,
    a: StateModel,
    pred: Matrix,
    p: StateModel,
    new_pred: Matrix,
    info: SmcStepInfo,
    to: SmallRng,
    b: StateModel,
    other_pred: Matrix,
    q: StateModel,
    other_new_pred: Matrix,
    other_info: SmcStepInfo,
    other: SmallRng,
)
    requires
        repeats_itself(k),
        are_alike_kernels(k, l),
        are_alike_states(a, b),
        a.running_sd.m2.same_shape(a.running_sd.mean),
        alike(pred, other_pred),
        k.is_tree_step(from, response, a, pred, idx, p, new_pred, info, to),
        l.is_tree_step(from, response, b, other_pred, idx, q, other_new_pred, other_info, other),
    ensures
        are_alike_states(p, q),
        p.running_sd.m2.same_shape(p.running_sd.mean),
        alike(new_pred, other_new_pred),
        p.forest[idx] == q.forest[idx],
        info == other_info,
        to == other,
{
    let tree = p.forest[idx];
    let other_tree = q.forest[idx];
    let (old_pred, others) = choose|old_pred: Matrix, others: Matrix|
        {
            &&& #[trigger] is_training_prediction(
                &k.num,
                a.forest[idx],
                Some(&k.data.x),
                pred,
                old_pred,
            )
            &&& #[trigger] is_matrix_difference(&k.num, a.predictions, old_pred, others)
            &&& k.smc_inputs(&a.predictions, &a.leaf_sd, &response).is_step(
                from,
                a.forest[idx],
                tree,
                info,
                to,
            )
            &&& is_training_prediction(&k.num, tree, Some(&k.data.x), old_pred, new_pred)
            &&& is_matrix_sum(&k.num, others, new_pred, p.predictions)
        };
    let (other_old_pred, remainder) = choose|old_pred: Matrix, others: Matrix|
        {
            &&& #[trigger] is_training_prediction(
                &l.num,
                b.forest[idx],
                Some(&l.data.x),
                other_pred,
                old_pred,
            )
            &&& #[trigger] is_matrix_difference(&l.num, b.predictions, old_pred, others)
            &&& l.smc_inputs(&b.predictions, &b.leaf_sd, &response).is_step(
                from,
                b.forest[idx],
                other_tree,
                other_info,
                other,
            )
            &&& is_training_prediction(
                &l.num,
                other_tree,
                Some(&l.data.x),
                old_pred,
                other_new_pred,
            )
            &&& is_matrix_sum(&l.num, others, other_new_pred, q.predictions)
        };
    lemma_one_training_prediction(
        &k.num,
        a.forest[idx],
        k.data.x,
        l.data.x,
        pred,
        old_pred,
        other_pred,
        other_old_pred,
    );
    lemma_one_matrix_difference(
        &k.num,
        a.predictions,
        old_pred,
        others,
        b.predictions,
        other_old_pred,
        remainder,
    );
    law_tree_repeats(
        k.smc_inputs(&a.predictions, &a.leaf_sd, &response),
        l.smc_inputs(&b.predictions, &b.leaf_sd, &response),
        from,
        a.forest[idx],
        tree,
        info,
        to,
        other_tree,
        other_info,
        other,
    );
    lemma_one_training_prediction(
        &k.num,
        tree,
        k.data.x,
        l.data.x,
        old_pred,
        new_pred,
        other_old_pred,
        other_new_pred,
    );
    lemma_one_matrix_sum(
        &k.num,
        others,
        new_pred,
        p.predictions,
        remainder,
        other_new_pred,
        q.predictions,
    );
    lemma_one_tuning(k, a, new_pred, p, b, other_new_pred, q);
}

/// Replacing trees in turn repeats itself.
proof fn lemma_one_batch<N: Numerics, S: SplitRule, R: ResamplingStrategy, W: WeightFn>(
    k: BartKernel<N, S, R, W>,
    l: BartKernel<N, S, R, W>,
    from: SmallRng,
    response: ResponseStrategies,
    a: StateModel,
    b: StateModel,
    n: nat,
    p: StateModel,
    pred: Matrix,
    infos: Seq<SmcStepInfo>,
    trees: Seq<TreeModel>,
    to: SmallRng,
    q: StateModel,
    other_pred: Matrix,
    other_infos: Seq<SmcStepInfo>,
    other_trees: Seq<TreeModel>,
    other: SmallRng,
)
    requires
        repeats_itself(k),
        are_alike_kernels(k, l),
        are_alike_states(a, b),
        a.running_sd.m2.same_shape(a.running_sd.mean),
        k.is_batch(from, response, a, n, p, pred, infos, trees, to),
        l.is_batch(from, response, b, n, q, other_pred, other_infos, other_trees, other),
    ensures
        are_alike_states(p, q),
        p.running_sd.m2.same_shape(p.running_sd.mean),
        alike(pred, other_pred),
        infos == other_infos,
        trees == other_trees,
        to == other,
    decreases n,
{
    if n == 0 {
        lemma_alike(pred, other_pred);
        assert(infos =~= other_infos);
        assert(trees =~= other_trees);
    } else {
        let idx = turn(a.next_tree_idx as int, n - 1, k.config.n_trees as int);
        let (c, c_pred, s) = choose|before: StateModel, before_pred: Matrix, between: SmallRng|
            {
                &&& #[trigger] k.is_tree_step(
                    between,
                    response,
                    before,
                    before_pred,
                    idx,
                    p,
                    pred,
                    infos.last(),
                    to,
                )
                &&& k.is_batch_after(
                    from,
                    response,
                    a,
                    (n - 1) as nat,
                    before,
                    before_pred,
                    infos.drop_last(),
                    trees.drop_last(),
                    between,
                )
            };
        let (d, d_pred, t) = choose|before: StateModel, before_pred: Matrix, between: SmallRng|
            {
                &&& #[trigger] l.is_tree_step(
                    between,
                    response,
                    before,
                    before_pred,
                    idx,
                    q,
                    other_pred,
                    other_infos.last(),
                    other,
                )
                &&& l.is_batch_after(
                    from,
                    response,
                    b,
                    (n - 1) as nat,
                    before,
                    before_pred,
                    other_infos.drop_last(),
                    other_trees.drop_last(),
                    between,
                )
            };
        lemma_one_batch(
            k,
            l,
            from,
            response,
            a,
            b,
            (n - 1) as nat,
            c,
            c_pred,
            infos.drop_last(),
            trees.drop_last(),
            s,
            d,
            d_pred,
            other_infos.drop_last(),
            other_trees.drop_last(),
            t,
        );
        lemma_one_tree_step(
            k,
            l,
            s,
            response,
            idx,
            c,
            c_pred,
            p,
            pred,
            infos.last(),
            to,
            d,
            d_pred,
            q,
            other_pred,
            other_infos.last(),
            other,
        );
        assert(infos =~= infos.drop_last().push(infos.last()));
        assert(other_infos =~= other_infos.drop_last().push(other_infos.last()));
        assert(trees =~= trees.drop_last().push(trees.last()));
        assert(other_trees =~= other_trees.drop_last().push(other_trees.last()));
    }
}

/// A step repeats itself: where host, rules and strategies answer and draw in one way, from
/// states with the same trees and numbers in them and a generator in the same state come
/// such states and reports, and the generator is left in the same state.
pub proof fn law_step_repeats<N: Numerics, S: SplitRule, R: ResamplingStrategy, W: WeightFn>(
    k: BartKernel<N, S, R, W>,
    l: BartKernel<N, S, R, W>,
    from: SmallRng,
    a: StateModel,
    b: StateModel,
    p: StateModel,
    info: BartInfo,
    to: SmallRng,
    q: StateModel,
    other_info: BartInfo,
    other: SmallRng,
)
    requires
        repeats_itself(k),
        are_alike_kernels(k, l),
        are_alike_states(a, b),
        a.running_sd.m2.same_shape(a.running_sd.mean),
        k.is_step(from, a, p, info, to),
        l.is_step(from, b, q, other_info, other),
    ensures
        are_alike_states(p, q),
        p.running_sd.m2.same_shape(p.running_sd.mean),
        are_alike_reports(info, other_info),
        to == other,
{
    let (response, done, pred, infos, trees) = choose_batch(&k, from, a, p, info, to);
    let (other_response, other_done, other_pred, other_infos, other_trees) = choose_batch(
        &l,
        from,
        b,
        q,
        other_info,
        other,
    );
    assert(info.batch_size == other_info.batch_size);
    lemma_one_batch(
        k,
        l,
        from,
        response,
        a,
        b,
        info.batch_size as nat,
        done,
        pred,
        infos,
        trees,
        to,
        other_done,
        other_pred,
        other_infos,
        other_trees,
        other,
    );
    lemma_one_running_sum(
        &k.num,
        log_likelihoods(infos),
        info.log_likelihood,
        other_info.log_likelihood,
    );
    assert(info.tree_depths@ =~= other_info.tree_depths@) by {
        assert forall|i: int| 0 <= i < info.tree_depths@.len() implies info.tree_depths@[i]
            == other_info.tree_depths@[i] by {
            assert(info.tree_depths@[i] == leaf_depth(trees[i], trees[i].size));
            assert(other_info.tree_depths@[i] == leaf_depth(trees[i], trees[i].size));
        }
    }
    assert(p.variable_inclusion =~= q.variable_inclusion) by {
        assert forall|f: int| 0 <= f < p.variable_inclusion.len() implies p.variable_inclusion[f]
            == q.variable_inclusion[f] by {
            let c = p.variable_inclusion[f];
            let d = q.variable_inclusion[f];
        }
    }
}

/// Samplers with the same numbers in them start from states with the same trees and numbers.
pub proof fn law_start_repeats<N: Numerics, S: SplitRule, R: ResamplingStrategy, W: WeightFn>(
    k: BartKernel<N, S, R, W>,
    l: BartKernel<N, S, R, W>,
    a: StateModel,
    b: StateModel,
)
    requires
        repeats_itself(k),
        are_alike_kernels(k, l),
        k.is_initial(a),
        k.is_untouched(a),
        l.is_initial(b),
        l.is_untouched(b),
    ensures
        are_alike_states(a, b),
        a.running_sd.m2.same_shape(a.running_sd.mean),
{
    lemma_alike_flattened(k.data.y, l.data.y);
    lemma_alike(a.predictions, b.predictions);
    lemma_alike(a.running_sd.mean, b.running_sd.mean);
    lemma_alike(a.running_sd.m2, b.running_sd.m2);
    assert(a.leaf_sd@ =~= b.leaf_sd@) by {
        assert forall|o: int| 0 <= o < a.leaf_sd@.len() implies a.leaf_sd@[o]
            == b.leaf_sd@[o] by {
            let n = k.config.n_trees as nat;
            assert(is_initial_leaf_sd(&k.num, k.data, n, a.leaf_sd@[o]));
            assert(is_initial_leaf_sd(&l.num, l.data, n, b.leaf_sd@[o]));
        }
    }
}

/// `state` stands after the steps `tunes` from `start`, each tuning or not as wanted. They
/// take the generator from `from` to `to`.
pub open spec fn is_run_after<N: Numerics, S: SplitRule, R: ResamplingStrategy, W: WeightFn>(
    kernel: BartKernel<N, S, R, W>,
    from: SmallRng,
    start: StateModel,
    tunes: Seq<Option<bool>>,
    state: StateModel,
    to: SmallRng,
) -> bool
    decreases tunes.len(),
{
    if tunes.len() == 0 {
        state == start && to == from
    } else {
        exists|before: StateModel, between: SmallRng|
            {
                &&& #[trigger] is_moved(
                    &kernel,
                    between,
                    with_tune(before, tunes.last()),
                    state,
                    to,
                )
                &&& is_run_after(kernel, from, start, tunes.drop_last(), before, between)
            }
    }
}

/// Runs repeat themselves: as many steps, tuning or not alike, lead from states with the same
/// trees and numbers in them to such states, and leave the generator in the same state.
pub proof fn law_runs_repeat<N: Numerics, S: SplitRule, R: ResamplingStrategy, W: WeightFn>(
    k: BartKernel<N, S, R, W>,
    l: BartKernel<N, S, R, W>,
    from: SmallRng,
    a: StateModel,
    b: StateModel,
    tunes: Seq<Option<bool>>,
    p: StateModel,
    to: SmallRng,
    q: StateModel,
    other: SmallRng,
)
    requires
        repeats_itself(k),
        are_alike_kernels(k, l),
        are_alike_states(a, b),
        a.running_sd.m2.same_shape(a.running_sd.mean),
        is_run_after(k, from, a, tunes, p, to),
        is_run_after(l, from, b, tunes, q, other),
    ensures
        are_alike_states(p, q),
        p.running_sd.m2.same_shape(p.running_sd.mean),
        to == other,
    decreases tunes.len(),
{
    if tunes.len() > 0 {
        let (c, s) = choose|before: StateModel, between: SmallRng|
            {
                &&& #[trigger] is_moved(&k, between, with_tune(before, tunes.last()), p, to)
                &&& is_run_after(k, from, a, tunes.drop_last(), before, between)
            };
        let (d, t) = choose|before: StateModel, between: SmallRng|
            {
                &&& #[trigger] is_moved(&l, between, with_tune(before, tunes.last()), q, other)
                &&& is_run_after(l, from, b, tunes.drop_last(), before, between)
            };
        law_runs_repeat(k, l, from, a, b, tunes.drop_last(), c, s, d, t);
        let e = with_tune(c, tunes.last());
        let f = with_tune(d, tunes.last());
        let info = choose|info: BartInfo| #[trigger] k.is_step(s, e, p, info, to);
        let other_info = choose|info: BartInfo| #[trigger] l.is_step(t, f, q, info, other);
        law_step_repeats(k, l, s, e, f, p, info, to, q, other_info, other);
    }
}

} // verus!
