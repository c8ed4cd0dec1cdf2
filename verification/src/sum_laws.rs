//! The predictions of the forest are the sum of what its trees predict.
use crate::binary64::{count_number, Binary64, ZERO_BITS};
use crate::data::is_mean_response;
use crate::kernel::{turn, BartKernel};
use crate::kernel_laws::{choose_batch, law_batch_keeps_other_trees, lemma_batch_trees_stay};
use crate::matrix::{is_matrix_difference, is_matrix_sum, Matrix};
use crate::numerics::{
    adds_exactly, is_determined, is_difference, is_multiple, is_quotient, is_sum, scaled_sum,
    Numerics,
};
use crate::predict::{is_training_prediction, is_training_value};
use crate::prediction_laws::lemma_one_line;
use crate::resampling::ResamplingStrategy;
use crate::response::{LeafKind, ResponseStrategies};
use crate::smc::SmcStepInfo;
use crate::splitting::SplitRule;
use crate::state::{BartInfo, StateModel};
use crate::tree_model::TreeModel;
use crate::weight::WeightFn;
use rand::rngs::SmallRng;
use vstd::prelude::*;

verus! {

/// `v` is what tree `t` predicts as output `o` of training sample `s`.
pub open spec fn is_tree_value<N: Numerics>(
    num: &N,
    t: TreeModel,
    x: Matrix,
    o: int,
    s: int,
    v: Binary64,
) -> bool {
    is_training_value(
        num,
        t,
        t.leaf_indices[s] as int,
        s,
        o,
        Some(&x),
        Binary64 { bits: ZERO_BITS },
        v,
    )
}

/// The leaf of training sample `s` has a value or a line.
pub open spec fn is_evaluable(t: TreeModel, s: int) -> bool {
    let leaf = t.leaf_indices[s] as int;
    t.kind(leaf) == LeafKind::Linear ==> t.has_line(leaf)
}

/// Whatever a tree predicts as output `o` of training sample `s` is a whole number of units,
/// and not beyond `bound`.
pub open spec fn predicts_units<N: Numerics>(
    num: &N,
    t: TreeModel,
    x: Matrix,
    o: int,
    s: int,
    unit: int,
    bound: int,
) -> bool {
    &&& is_evaluable(t, s)
    &&& forall|v: Binary64| #[trigger]
        is_tree_value(num, t, x, o, s, v) ==> is_multiple(v, unit, bound)
}

/// All of some trees predict whole numbers of units.
pub open spec fn all_predict_units<N: Numerics>(
    num: &N,
    trees: Seq<TreeModel>,
    x: Matrix,
    o: int,
    s: int,
    unit: int,
    bound: int,
) -> bool {
    forall|i: int|
        0 <= i < trees.len() ==> predicts_units(
            num,
            #[trigger] trees[i],
            x,
            o,
            s,
            unit,
            bound,
        )
}

/// Each of `values` is what its tree predicts.
pub open spec fn are_tree_values<N: Numerics>(
    num: &N,
    forest: Seq<TreeModel>,
    x: Matrix,
    o: int,
    s: int,
    values: Seq<Binary64>,
) -> bool {
    &&& values.len() == forest.len()
    &&& forall|i: int|
        0 <= i < forest.len() ==> is_tree_value(num, forest[i], x, o, s, #[trigger] values[i])
}

/// `p` denotes the sum of what the trees of a forest predict as output `o` of sample `s`.
pub open spec fn is_forest_sum<N: Numerics>(
    num: &N,
    forest: Seq<TreeModel>,
    x: Matrix,
    o: int,
    s: int,
    p: Binary64,
) -> bool {
    &&& p.is_finite_spec()
    &&& exists|values: Seq<Binary64>| #[trigger]
        are_tree_values(num, forest, x, o, s, values) && scaled_sum(values) == p.scaled()
}

/// A sum after one of its terms was replaced, and before.
proof fn lemma_sum_update(values: Seq<Binary64>, i: int, v: Binary64)
    requires
        0 <= i < values.len(),
    ensures
        scaled_sum(values.update(i, v)) == scaled_sum(values) - values[i].scaled() + v.scaled(),
    decreases values.len(),
{
    let next = values.update(i, v);
    if i == values.len() - 1 {
        assert(next.drop_last() =~= values.drop_last());
    } else {
        assert(next.drop_last() =~= values.drop_last().update(i, v));
        lemma_sum_update(values.drop_last(), i, v);
    }
}

/// A sum of whole numbers of units is one, and not beyond the bounds of all terms together.
proof fn lemma_sum_of_units(values: Seq<Binary64>, unit: int, each: int)
    requires
        unit > 0,
        each >= 0,
        forall|i: int| 0 <= i < values.len() ==> is_multiple(#[trigger] values[i], unit, each),
    ensures
        scaled_sum(values) % unit == 0,
        -(values.len() * each) <= scaled_sum(values) <= values.len() * each,
    decreases values.len(),
{
    if values.len() > 0 {
        let rest = values.drop_last();
        lemma_sum_of_units(rest, unit, each);
        assert(is_multiple(values.last(), unit, each));
        lemma_mod_of_sum(scaled_sum(rest), values.last().scaled(), unit);
        let n = values.len() as int;
        assert(n * each == (n - 1) * each + each) by (nonlinear_arith);
        assert(rest.len() * each == (n - 1) * each);
    }
}

proof fn lemma_mod_of_sum(a: int, b: int, unit: int)
    requires
        unit > 0,
        a % unit == 0,
        b % unit == 0,
    ensures
        (a + b) % unit == 0,
        (a - b) % unit == 0,
{
    vstd::arithmetic::div_mod::lemma_add_mod_noop(a, b, unit);
    vstd::arithmetic::div_mod::lemma_sub_mod_noop(a, b, unit);
    vstd::arithmetic::div_mod::lemma_small_mod(0, unit as nat);
}

/// A sum without one of its terms keeps within the bounds of the other terms.
proof fn lemma_sum_without(values: Seq<Binary64>, i: int, unit: int, each: int)
    requires
        unit > 0,
        each >= 0,
        0 <= i < values.len(),
        forall|j: int| 0 <= j < values.len() ==> is_multiple(#[trigger] values[j], unit, each),
    ensures
        -(values.len() * each) <= scaled_sum(values) - values[i].scaled() <= values.len() * each,
{
    let zero = Binary64 { bits: ZERO_BITS };
    let others = values.update(i, zero);
    zero.lemma_zero_has_no_magnitude();
    vstd::arithmetic::div_mod::lemma_small_mod(0, unit as nat);
    assert(is_multiple(zero, unit, each));
    assert forall|j: int| 0 <= j < others.len() implies is_multiple(
        #[trigger] others[j],
        unit,
        each,
    ) by {
        if j != i {
            assert(is_multiple(values[j], unit, each));
        }
    }
    lemma_sum_of_units(others, unit, each);
    lemma_sum_update(values, i, zero);
}

/// A tree predicts one value.
proof fn lemma_one_tree_value<N: Numerics>(
    num: &N,
    t: TreeModel,
    x: Matrix,
    o: int,
    s: int,
    before: Binary64,
    v: Binary64,
    w: Binary64,
)
    requires
        is_determined(num),
        is_evaluable(t, s),
        is_tree_value(num, t, x, o, s, v),
        is_training_value(
            num,
            t,
            t.leaf_indices[s] as int,
            s,
            o,
            Some(&x),
            before,
            w,
        ),
    ensures
        v == w,
{
    let leaf = t.leaf_indices[s] as int;
    if t.kind(leaf) != LeafKind::Gaussian && !x.at(s, t.line_var(leaf)).is_nan_spec() {
        lemma_one_line(
            num,
            t.line_intercept(leaf, o),
            t.line_slope(leaf, o),
            x.at(s, t.line_var(leaf)),
            v,
            w,
        );
    }
}

/// Where sums and differences are exact, replacing one tree keeps the predictions the sum of
/// what the trees predict.
pub proof fn law_tree_step_keeps_sum<
    N: Numerics,
    S: SplitRule,
    R: ResamplingStrategy,
    W: WeightFn,
>(
    kernel: &BartKernel<N, S, R, W>,
    from: SmallRng,
    response: ResponseStrategies,
    before: StateModel,
    pred: Matrix,
    idx: int,
    after: StateModel,
    new_pred: Matrix,
    info: SmcStepInfo,
    to: SmallRng,
    o: int,
    s: int,
    unit: int,
    each: int,
)
    requires
        kernel.is_tree_step(from, response, before, pred, idx, after, new_pred, info, to),
        is_determined(&kernel.num),
        unit > 0,
        each >= 0,
        adds_exactly(&kernel.num, unit, before.forest.len() * each),
        0 <= idx < before.forest.len(),
        0 <= o < before.predictions.height(),
        0 <= s < before.predictions.width(),
        pred.same_shape(before.predictions),
        all_predict_units(&kernel.num, before.forest, kernel.data.x, o, s, unit, each),
        predicts_units(&kernel.num, after.forest[idx], kernel.data.x, o, s, unit, each),
        is_forest_sum(
            &kernel.num,
            before.forest,
            kernel.data.x,
            o,
            s,
            before.predictions.at(o, s),
        ),
    ensures
        is_forest_sum(
            &kernel.num,
            after.forest,
            kernel.data.x,
            o,
            s,
            after.predictions.at(o, s),
        ),
        after.predictions.same_shape(before.predictions),
        new_pred.same_shape(before.predictions),
{
    let num = &kernel.num;
    let x = kernel.data.x;
    let tree = after.forest[idx];
    let n = before.forest.len() as int;
    let bound = n * each;
    let (old_pred, others) = choose|old_pred: Matrix, others: Matrix|
        {
            &&& #[trigger] is_training_prediction(
                num,
                before.forest[idx],
                Some(&x),
                pred,
                old_pred,
            )
            &&& #[trigger] is_matrix_difference(num, before.predictions, old_pred, others)
            &&& is_training_prediction(num, tree, Some(&x), old_pred, new_pred)
            &&& is_matrix_sum(num, others, new_pred, after.predictions)
        };
    let values = choose|values: Seq<Binary64>| #[trigger]
        are_tree_values(num, before.forest, x, o, s, values) && scaled_sum(values)
            == before.predictions.at(o, s).scaled();
    assert forall|i: int| 0 <= i < values.len() implies is_multiple(
        #[trigger] values[i],
        unit,
        each,
    ) by {
        assert(predicts_units(num, before.forest[i], x, o, s, unit, each));
        assert(is_tree_value(num, before.forest[i], x, o, s, values[i]));
    }
    assert(each <= bound) by (nonlinear_arith)
        requires
            n >= 1,
            each >= 0,
            bound == n * each,
    ;
    let p = before.predictions.at(o, s);
    let a = old_pred.at(o, s);
    let d = others.at(o, s);
    let v = new_pred.at(o, s);
    let r = after.predictions.at(o, s);
    assert(predicts_units(num, before.forest[idx], x, o, s, unit, each));
    lemma_one_tree_value(num, before.forest[idx], x, o, s, pred.at(o, s), values[idx], a);
    lemma_sum_of_units(values, unit, each);
    lemma_sum_without(values, idx, unit, each);
    assert(is_difference(num, p, a, d));
    assert(is_multiple(p, unit, bound));
    assert(is_multiple(a, unit, bound));
    assert(d.scaled() == p.scaled() - a.scaled());
    lemma_mod_of_sum(p.scaled(), a.scaled(), unit);
    assert(is_training_value(
        num,
        tree,
        tree.leaf_indices[s] as int,
        s,
        o,
        Some(&x),
        a,
        v,
    ));
    assert(is_tree_value(num, tree, x, o, s, v));
    let next = values.update(idx, v);
    assert(is_multiple(v, unit, each));
    assert forall|i: int| 0 <= i < next.len() implies is_multiple(
        #[trigger] next[i],
        unit,
        each,
    ) by {
        if i != idx {
            assert(is_multiple(values[i], unit, each));
        }
    }
    lemma_sum_update(values, idx, v);
    lemma_sum_of_units(next, unit, each);
    assert(is_sum(num, d, v, r));
    assert(is_multiple(d, unit, bound));
    assert(is_multiple(v, unit, bound));
    assert(r.scaled() == d.scaled() + v.scaled());
    assert(are_tree_values(num, after.forest, x, o, s, next)) by {
        assert forall|i: int| 0 <= i < next.len() implies is_tree_value(
            num,
            after.forest[i],
            x,
            o,
            s,
            #[trigger] next[i],
        ) by {
            if i != idx {
                assert(is_tree_value(num, before.forest[i], x, o, s, values[i]));
            }
        }
    }
}

/// What the batch law says of a part of the batch.
proof fn lemma_batch_keeps_sum<N: Numerics, S: SplitRule, R: ResamplingStrategy, W: WeightFn>(
    kernel: &BartKernel<N, S, R, W>,
    from: SmallRng,
    response: ResponseStrategies,
    start: StateModel,
    k: nat,
    state: StateModel,
    pred: Matrix,
    infos: Seq<SmcStepInfo>,
    trees: Seq<TreeModel>,
    to: SmallRng,
    o: int,
    s: int,
    unit: int,
    each: int,
)
    requires
        kernel.is_batch(from, response, start, k, state, pred, infos, trees, to),
        start.forest.len() == kernel.config.n_trees,
        kernel.config.n_trees >= 1,
        start.predictions.height() == kernel.config.n_outputs,
        start.predictions.width() == kernel.data.x.height(),
        is_determined(&kernel.num),
        unit > 0,
        each >= 0,
        adds_exactly(&kernel.num, unit, kernel.config.n_trees * each),
        0 <= o < kernel.config.n_outputs,
        0 <= s < kernel.data.x.height(),
        all_predict_units(&kernel.num, start.forest, kernel.data.x, o, s, unit, each),
        all_predict_units(&kernel.num, trees, kernel.data.x, o, s, unit, each),
        is_forest_sum(
            &kernel.num,
            start.forest,
            kernel.data.x,
            o,
            s,
            start.predictions.at(o, s),
        ),
    ensures
        is_forest_sum(
            &kernel.num,
            state.forest,
            kernel.data.x,
            o,
            s,
            state.predictions.at(o, s),
        ),
        all_predict_units(&kernel.num, state.forest, kernel.data.x, o, s, unit, each),
        state.forest.len() == start.forest.len(),
        state.predictions.same_shape(start.predictions),
        pred.same_shape(start.predictions),
    decreases k,
{
    if k > 0 {
        let n = kernel.config.n_trees as int;
        let idx = turn(start.next_tree_idx as int, k - 1, n);
        let (before, before_pred, between) = choose|
            before: StateModel,
            before_pred: Matrix,
            between: SmallRng,
        |
            {
                &&& #[trigger] kernel.is_tree_step(
                    between,
                    response,
                    before,
                    before_pred,
                    idx,
                    state,
                    pred,
                    infos.last(),
                    to,
                )
                &&& kernel.is_batch_after(
                    from,
                    response,
                    start,
                    (k - 1) as nat,
                    before,
                    before_pred,
                    infos.drop_last(),
                    trees.drop_last(),
                    between,
                )
            };
        assert forall|i: int| 0 <= i < trees.drop_last().len() implies predicts_units(
            &kernel.num,
            #[trigger] trees.drop_last()[i],
            kernel.data.x,
            o,
            s,
            unit,
            each,
        ) by {
            assert(trees.drop_last()[i] == trees[i]);
        }
        lemma_batch_keeps_sum(
            kernel,
            from,
            response,
            start,
            (k - 1) as nat,
            before,
            before_pred,
            infos.drop_last(),
            trees.drop_last(),
            between,
            o,
            s,
            unit,
            each,
        );
        assert(predicts_units(
            &kernel.num,
            trees[trees.len() - 1],
            kernel.data.x,
            o,
            s,
            unit,
            each,
        ));
        law_tree_step_keeps_sum(
            kernel,
            between,
            response,
            before,
            before_pred,
            idx,
            state,
            pred,
            infos.last(),
            to,
            o,
            s,
            unit,
            each,
        );
        assert forall|i: int| 0 <= i < state.forest.len() implies predicts_units(
            &kernel.num,
            #[trigger] state.forest[i],
            kernel.data.x,
            o,
            s,
            unit,
            each,
        ) by {
            if i != idx {
                assert(state.forest[i] == before.forest[i]);
            }
        }
    }
}

/// Where sums and differences are exact, a step keeps the predictions the sum of what the
/// trees predict. It is enough that the trees of the forest before and after the step
/// predict whole numbers of units that stay within the exact range when all are added up.
pub proof fn law_step_keeps_sum<N: Numerics, S: SplitRule, R: ResamplingStrategy, W: WeightFn>(
    kernel: &BartKernel<N, S, R, W>,
    from: SmallRng,
    before: StateModel,
    after: StateModel,
    info: BartInfo,
    to: SmallRng,
    o: int,
    s: int,
    unit: int,
    each: int,
)
    requires
        kernel.is_step(from, before, after, info, to),
        before.forest.len() == kernel.config.n_trees,
        kernel.config.n_trees >= 1,
        before.predictions.height() == kernel.config.n_outputs,
        before.predictions.width() == kernel.data.x.height(),
        is_determined(&kernel.num),
        unit > 0,
        each >= 0,
        adds_exactly(&kernel.num, unit, kernel.config.n_trees * each),
        0 <= o < kernel.config.n_outputs,
        0 <= s < kernel.data.x.height(),
        all_predict_units(&kernel.num, before.forest, kernel.data.x, o, s, unit, each),
        all_predict_units(&kernel.num, after.forest, kernel.data.x, o, s, unit, each),
        is_forest_sum(
            &kernel.num,
            before.forest,
            kernel.data.x,
            o,
            s,
            before.predictions.at(o, s),
        ),
    ensures
        is_forest_sum(
            &kernel.num,
            after.forest,
            kernel.data.x,
            o,
            s,
            after.predictions.at(o, s),
        ),
        after.predictions.same_shape(before.predictions),
{
    let (response, done, pred, infos, trees) = choose_batch(kernel, from, before, after, info, to);
    let k = info.batch_size as nat;
    let n = kernel.config.n_trees as int;
    assert forall|j: int| 0 <= j < trees.len() implies predicts_units(
        &kernel.num,
        #[trigger] trees[j],
        kernel.data.x,
        o,
        s,
        unit,
        each,
    ) by {
        lemma_batch_trees_stay(kernel, from, response, before, k, done, pred, infos, trees, to, j);
        law_batch_keeps_other_trees(kernel, from, response, before, k, done, pred, infos, trees, to);
        let at = turn(before.next_tree_idx as int, j, n);
        assert(0 <= at < n) by {
            vstd::arithmetic::div_mod::lemma_mod_bound(before.next_tree_idx + j, n);
        }
        assert(predicts_units(&kernel.num, after.forest[at], kernel.data.x, o, s, unit, each));
    }
    lemma_batch_keeps_sum(
        kernel,
        from,
        response,
        before,
        k,
        done,
        pred,
        infos,
        trees,
        to,
        o,
        s,
        unit,
        each,
    );
}

/// Where the mean response is divided among the trees without rounding, the first
/// predictions are the sum of what the trees predict.
pub proof fn law_initial_predictions_are_sums<
    N: Numerics,
    S: SplitRule,
    R: ResamplingStrategy,
    W: WeightFn,
>(kernel: &BartKernel<N, S, R, W>, state: StateModel, o: int, s: int)
    requires
        kernel.is_initial(state),
        0 <= o < kernel.config.n_outputs,
        0 <= s < kernel.data.x.height(),
        forall|mean: Binary64, value: Binary64|
            is_mean_response(&kernel.num, kernel.data.y, mean) && #[trigger] is_quotient(
                &kernel.num,
                mean,
                count_number(kernel.config.n_trees as nat),
                value,
            ) ==> mean.is_finite_spec() && kernel.config.n_trees * value.scaled() == mean.scaled(),
    ensures
        is_forest_sum(
            &kernel.num,
            state.forest,
            kernel.data.x,
            o,
            s,
            state.predictions.at(o, s),
        ),
{
    let n_samples = kernel.data.x.height();
    let n_outputs = kernel.config.n_outputs as nat;
    let n = kernel.config.n_trees as nat;
    let (mean, value) = choose|mean: Binary64, value: Binary64|
        {
            &&& is_mean_response(&kernel.num, kernel.data.y, mean)
            &&& #[trigger] is_quotient(&kernel.num, mean, count_number(n), value)
            &&& state.forest == Seq::new(
                n,
                |i: int|
                    TreeModel::root(
                        value,
                        n_samples,
                        kernel.config.max_depth as nat,
                        n_outputs,
                    ),
            )
            &&& forall|o: int, s: int|
                0 <= o < n_outputs && 0 <= s < n_samples ==> #[trigger] state.predictions.at(o, s)
                    == mean
        };
    let values = Seq::new(n, |i: int| value);
    let t = TreeModel::root(value, n_samples, kernel.config.max_depth as nat, n_outputs);
    assert(t.leaf_indices[s] == 0);
    assert(t.kind(0) == LeafKind::Gaussian);
    assert(t.value(0, o) == value);
    assert(are_tree_values(&kernel.num, state.forest, kernel.data.x, o, s, values));
    lemma_sum_of_equals(value, n);
    assert(state.predictions.at(o, s) == mean);
}

proof fn lemma_sum_of_equals(value: Binary64, n: nat)
    ensures
        scaled_sum(Seq::new(n, |i: int| value)) == n * value.scaled(),
    decreases n,
{
    let values = Seq::new(n, |i: int| value);
    let v = value.scaled();
    if n > 0 {
        let m = (n - 1) as nat;
        lemma_sum_of_equals(value, m);
        assert(values.drop_last() =~= Seq::new(m, |i: int| value));
        assert(n * v == m * v + v) by (nonlinear_arith)
            requires
                n == m + 1,
        ;
    } else {
        assert(n * v == 0) by (nonlinear_arith)
            requires
                n == 0,
        ;
    }
}

} // verus!
