//! What a step of the sampler does, tree after tree.
use crate::binary64::{count_number, Binary64};
use crate::growth_laws::{answers, law_training_predictions_are_answers};
use crate::kernel::{batch_size_of, log_likelihoods, total_accepted, turn, BartKernel};
use crate::kernel_laws::{choose_batch, law_batch_keeps_other_trees};
use crate::leaf_laws::{
    adds_up_exactly, computes_exactly, law_running_sums_are_exact, unit_scale,
};
use crate::matrix::{is_matrix_difference, is_matrix_sum, Matrix};
use crate::numerics::{is_product, scaled_sum, Numerics};
use crate::predict::is_training_prediction;
use crate::resampling::ResamplingStrategy;
use crate::response::ResponseStrategies;
use crate::smc::{SmcInputs, SmcStepInfo};
use crate::splitting::SplitRule;
use crate::state::{BartInfo, StateModel};
use crate::tree_model::TreeModel;
use crate::weight::WeightFn;
use rand::rngs::SmallRng;
use vstd::arithmetic::power2::pow2;
use vstd::prelude::*;

verus! {

/// What happens in a batch: the states and the generators before the first tree and after
/// each, the trees that are put in place, and what is told of each.
pub struct BatchRecord {
    pub states: Seq<StateModel>,
    pub generators: Seq<SmallRng>,
    pub trees: Seq<TreeModel>,
    pub infos: Seq<SmcStepInfo>,
}

/// What the forest predicts as output `o` of sample `s` goes from `before` to `after`: the
/// answer of the old tree is taken off, that of the new one is added.
pub open spec fn is_exchanged<N: Numerics>(
    num: &N,
    x: Matrix,
    old_tree: TreeModel,
    new_tree: TreeModel,
    o: int,
    s: int,
    before: Binary64,
    after: Binary64,
) -> bool {
    exists|u: Binary64, v: Binary64, rest: Binary64|
        {
            &&& #[trigger] answers(num, old_tree, x, o, s, u)
            &&& #[trigger] answers(num, new_tree, x, o, s, v)
            &&& call_ensures(N::minus, (num, before, u), rest)
            &&& #[trigger] call_ensures(N::plus, (num, rest, v), after)
        }
}

/// Tree number `idx` of `before` is replaced by `tree`, which was grown against the
/// predictions and the standard deviations of that very state. Everything else but the
/// moments, the counters and the predictions stays.
pub open spec fn is_replaced<N: Numerics, S: SplitRule, R: ResamplingStrategy, W: WeightFn>(
    kernel: &BartKernel<N, S, R, W>,
    response: ResponseStrategies,
    from: SmallRng,
    before: StateModel,
    idx: int,
    tree: TreeModel,
    info: SmcStepInfo,
    after: StateModel,
    to: SmallRng,
) -> bool {
    let inputs = SmcInputs {
        num: &kernel.num,
        sum_trees: &before.predictions,
        config: &kernel.config,
        data: &kernel.data,
        split_rules: &kernel.split_rules,
        resampling: &kernel.resampling,
        weight_fn: &kernel.weight_fn,
        leaf_sd: &before.leaf_sd,
        response: &response,
    };
    &&& inputs.is_step(from, before.forest[idx], tree, info, to)
    &&& after.forest == before.forest.update(idx, tree)
    &&& after.iter == before.iter + 1
    &&& after.stump_count == before.stump_count + if tree.split_var.len() > 0
        && tree.split_var[0] == u32::MAX {
        1int
    } else {
        0
    }
    &&& after.tune == before.tune
    &&& after.next_tree_idx == before.next_tree_idx
    &&& after.variable_inclusion == before.variable_inclusion
    &&& after.predictions.same_shape(before.predictions)
    &&& forall|o: int, s: int|
        0 <= o < after.predictions.height() && 0 <= s < after.predictions.width()
            ==> is_exchanged(
            &kernel.num,
            kernel.data.x,
            before.forest[idx],
            tree,
            o,
            s,
            before.predictions.at(o, s),
            #[trigger] after.predictions.at(o, s),
        )
}

impl BatchRecord {
    /// The record is one of `k` trees, from `start` and `from` to `state` and `to`.
    pub open spec fn is_chain<N: Numerics, S: SplitRule, R: ResamplingStrategy, W: WeightFn>(
        self,
        kernel: &BartKernel<N, S, R, W>,
        response: ResponseStrategies,
        from: SmallRng,
        start: StateModel,
        k: nat,
        state: StateModel,
        to: SmallRng,
    ) -> bool {
        &&& self.trees.len() == k
        &&& self.infos.len() == k
        &&& self.states.len() == k + 1
        &&& self.generators.len() == k + 1
        &&& self.states[0] == start
        &&& self.generators[0] == from
        &&& self.states.last() == state
        &&& self.generators.last() == to
        &&& forall|j: int|
            0 <= j < k ==> is_replaced(
                kernel,
                response,
                self.generators[j],
                self.states[j],
                (start.next_tree_idx + j) % (kernel.config.n_trees as int),
                #[trigger] self.trees[j],
                self.infos[j],
                self.states[j + 1],
                self.generators[j + 1],
            )
    }
}

proof fn lemma_replaced<N: Numerics, S: SplitRule, R: ResamplingStrategy, W: WeightFn>(
    kernel: &BartKernel<N, S, R, W>,
    response: ResponseStrategies,
    from: SmallRng,
    before: StateModel,
    pred: Matrix,
    idx: int,
    after: StateModel,
    new_pred: Matrix,
    info: SmcStepInfo,
    to: SmallRng,
)
    requires
        kernel.is_tree_step(from, response, before, pred, idx, after, new_pred, info, to),
        pred.same_shape(before.predictions),
        0 <= idx < before.forest.len(),
    ensures
        new_pred.same_shape(after.predictions),
        is_replaced(kernel, response, from, before, idx, after.forest[idx], info, after, to),
{
    let num = &kernel.num;
    let x = kernel.data.x;
    let old_tree = before.forest[idx];
    let tree = after.forest[idx];
    let (old_pred, others) = choose|old_pred: Matrix, others: Matrix|
        {
            &&& #[trigger] is_training_prediction(num, old_tree, Some(&x), pred, old_pred)
            &&& #[trigger] is_matrix_difference(num, before.predictions, old_pred, others)
            &&& kernel.smc_inputs(&before.predictions, &before.leaf_sd, &response).is_step(
                from,
                old_tree,
                tree,
                info,
                to,
            )
            &&& is_training_prediction(num, tree, Some(&x), old_pred, new_pred)
            &&& is_matrix_sum(num, others, new_pred, after.predictions)
        };
    assert forall|o: int, s: int|
        0 <= o < after.predictions.height() && 0 <= s < after.predictions.width() implies
        is_exchanged(
        num,
        x,
        old_tree,
        tree,
        o,
        s,
        before.predictions.at(o, s),
        #[trigger] after.predictions.at(o, s),
    ) by {
        law_training_predictions_are_answers(num, old_tree, x, pred, old_pred, o, s);
        law_training_predictions_are_answers(num, tree, x, old_pred, new_pred, o, s);
        let rest = others.at(o, s);
        assert(call_ensures(
            N::minus,
            (num, before.predictions.at(o, s), old_pred.at(o, s)),
            rest,
        ));
        assert(call_ensures(
            N::plus,
            (num, rest, new_pred.at(o, s)),
            after.predictions.at(o, s),
        ));
    }
    assert(after.forest =~= before.forest.update(idx, tree));
}

/// A batch replaces one tree after the other in turn. Each is grown against what the forest
/// predicts at that moment, with the standard deviations of that moment, and the predictions
/// lose the answers of the old tree and gain those of the new one.
pub proof fn law_batch_is_a_chain<
    N: Numerics,
    S: SplitRule,
    R: ResamplingStrategy,
    W: WeightFn,
>(
    kernel: &BartKernel<N, S, R, W>,
    from: SmallRng,
    response: ResponseStrategies,
    start: StateModel,
    k: nat,
    state: StateModel,
    pred: Matrix,
    infos: Seq<SmcStepInfo>,
    trees: Seq<TreeModel>,
    to: SmallRng,
) -> (r: BatchRecord)
    requires
        kernel.is_batch(from, response, start, k, state, pred, infos, trees, to),
        start.forest.len() == kernel.config.n_trees,
        kernel.config.n_trees >= 1,
        start.predictions.height() == kernel.config.n_outputs,
        start.predictions.width() == kernel.data.x.height(),
    ensures
        r.is_chain(kernel, response, from, start, k, state, to),
        r.trees == trees,
        r.infos == infos,
        pred.same_shape(state.predictions),
        state.predictions.same_shape(start.predictions),
        state.forest.len() == start.forest.len(),
    decreases k,
{
    let n = kernel.config.n_trees as int;
    if k == 0 {
        let r = BatchRecord { states: seq![start], generators: seq![from], trees, infos };
        r
    } else {
        let idx = turn(start.next_tree_idx as int, k - 1, n);
        let (before, before_pred, between) = choose|
            before: StateModel,
            before_pred: Matrix,
            between: SmallRng,
        |
            {
                &&& #[trigger] kernel.is_tree_step(
                    between,
                    response,
                    before,
                    before_pred,
                    idx,
                    state,
                    pred,
                    infos.last(),
                    to,
                )
                &&& kernel.is_batch_after(
                    from,
                    response,
                    start,
                    (k - 1) as nat,
                    before,
                    before_pred,
                    infos.drop_last(),
                    trees.drop_last(),
                    between,
                )
            };
        let q = law_batch_is_a_chain(
            kernel,
            from,
            response,
            start,
            (k - 1) as nat,
            before,
            before_pred,
            infos.drop_last(),
            trees.drop_last(),
            between,
        );
        lemma_replaced(
            kernel,
            response,
            between,
            before,
            before_pred,
            idx,
            state,
            pred,
            infos.last(),
            to,
        );
        let r = BatchRecord {
            states: q.states.push(state),
            generators: q.generators.push(to),
            trees,
            infos,
        };
        assert forall|j: int| 0 <= j < k implies is_replaced(
            kernel,
            response,
            r.generators[j],
            r.states[j],
            (start.next_tree_idx + j) % n,
            #[trigger] r.trees[j],
            r.infos[j],
            r.states[j + 1],
            r.generators[j + 1],
        ) by {
            if j < k - 1 {
                assert(q.trees[j] == trees[j]);
                assert(q.infos[j] == infos[j]);
            }
        }
        r
    }
}

/// How many nodes some steps split, added up from the first on.
pub open spec fn accepted_in_all(infos: Seq<SmcStepInfo>) -> int
    decreases infos.len(),
{
    if infos.len() == 0 {
        0
    } else {
        infos[0].acceptance_count + accepted_in_all(infos.skip(1))
    }
}

proof fn lemma_accepted(infos: Seq<SmcStepInfo>)
    ensures
        total_accepted(infos) == accepted_in_all(infos),
    decreases infos.len(),
{
    if infos.len() == 1 {
        assert(infos.drop_last() =~= Seq::empty());
        assert(infos.skip(1) =~= Seq::empty());
        assert(total_accepted(infos.drop_last()) == 0);
        assert(accepted_in_all(infos.skip(1)) == 0);
    } else if infos.len() > 1 {
        let rest = infos.skip(1);
        let head = infos.drop_last();
        lemma_accepted(rest);
        lemma_accepted(head);
        lemma_accepted(head.skip(1));
        assert(rest.drop_last() =~= head.skip(1));
        assert(rest.last() == infos.last());
        assert(total_accepted(rest) == total_accepted(rest.drop_last())
            + infos.last().acceptance_count);
        assert(head[0] == infos[0]);
    }
}

/// A step tells of its batch: where it starts and how many trees it has, how many nodes were
/// split in all, and, where sums are exact, the sum of what the steps on single trees report
/// as their log-likelihoods. The next step goes on with the tree after the last.
pub proof fn law_step_tells_of_its_batch<
    N: Numerics,
    S: SplitRule,
    R: ResamplingStrategy,
    W: WeightFn,
>(
    kernel: &BartKernel<N, S, R, W>,
    from: SmallRng,
    before: StateModel,
    after: StateModel,
    info: BartInfo,
    to: SmallRng,
    unit: int,
    bound: int,
) -> (r: (ResponseStrategies, StateModel, BatchRecord))
    requires
        kernel.is_step(from, before, after, info, to),
        before.forest.len() == kernel.config.n_trees,
        kernel.config.n_trees >= 1,
        before.predictions.height() == kernel.config.n_outputs,
        before.predictions.width() == kernel.data.x.height(),
    ensures
        r.2.is_chain(kernel, r.0, from, before, info.batch_size as nat, r.1, to),
        after.forest == r.1.forest,
        after.predictions == r.1.predictions,
        after.running_sd == r.1.running_sd,
        after.leaf_sd == r.1.leaf_sd,
        after.iter == r.1.iter,
        after.stump_count == r.1.stump_count,
        after.tune == before.tune,
        info.batch_start == before.next_tree_idx,
        after.next_tree_idx == (before.next_tree_idx + info.batch_size) % (
        kernel.config.n_trees as int),
        info.acceptance_count == accepted_in_all(r.2.infos),
        computes_exactly(&kernel.num, unit, bound) && unit > 0 && bound >= 0 && adds_up_exactly(
            Seq::new(r.2.infos.len(), |j: int| r.2.infos[j].log_likelihood),
            unit,
            bound,
        ) ==> info.log_likelihood.scaled() == scaled_sum(
            Seq::new(r.2.infos.len(), |j: int| r.2.infos[j].log_likelihood),
        ),
{
    let n = kernel.config.n_trees as int;
    let k = info.batch_size as nat;
    let (response, done, pred, infos, trees) = choose_batch(kernel, from, before, after, info, to);
    let c = law_batch_is_a_chain(
        kernel,
        from,
        response,
        before,
        k,
        done,
        pred,
        infos,
        trees,
        to,
    );
    law_batch_keeps_other_trees(kernel, from, response, before, k, done, pred, infos, trees, to);
    lemma_accepted(infos);
    let reported = Seq::new(infos.len(), |j: int| infos[j].log_likelihood);
    assert(reported =~= log_likelihoods(infos));
    if computes_exactly(&kernel.num, unit, bound) && unit > 0 && bound >= 0 && adds_up_exactly(
        reported,
        unit,
        bound,
    ) {
        law_running_sums_are_exact(&kernel.num, reported, unit, bound, info.log_likelihood);
    }
    assert(0 <= (before.next_tree_idx + info.batch_size) % n < n) by (nonlinear_arith)
        requires
            n >= 1,
    ;
    let r = (response, done, c);
    r
}

/// How many trees a step renews: the whole number nearest to the part of the forest that the
/// settings name for a sampler that is tuning, or for one that is not, but at least one and
/// no more than all.
pub proof fn law_batch_is_the_wanted_part<
    N: Numerics,
    S: SplitRule,
    R: ResamplingStrategy,
    W: WeightFn,
>(
    kernel: &BartKernel<N, S, R, W>,
    from: SmallRng,
    before: StateModel,
    after: StateModel,
    info: BartInfo,
    to: SmallRng,
) -> (part: Binary64)
    requires
        kernel.is_step(from, before, after, info, to),
        kernel.config.n_trees >= 1,
    ensures
        before.tune ==> call_ensures(
            N::times,
            (
                &kernel.num,
                kernel.config.batch_tune,
                count_number(kernel.config.n_trees as nat),
            ),
            part,
        ),
        !before.tune ==> call_ensures(
            N::times,
            (
                &kernel.num,
                kernel.config.batch_post,
                count_number(kernel.config.n_trees as nat),
            ),
            part,
        ),
        1 <= info.batch_size <= kernel.config.n_trees,
        part.is_nan_spec() ==> info.batch_size == 1,
        !part.is_nan_spec() && 1 < info.batch_size ==> (2 * info.batch_size - 1) * unit_scale()
            <= 2 * part.scaled(),
        !part.is_nan_spec() && info.batch_size < kernel.config.n_trees ==> 2 * part.scaled() < (2
            * info.batch_size + 1) * unit_scale(),
{
    let n = kernel.config.n_trees as int;
    let part = choose|part: Binary64|
        {
            &&& #[trigger] is_product(
                &kernel.num,
                kernel.batch_fraction(before.tune),
                count_number(n as nat),
                part,
            )
            &&& info.batch_size == batch_size_of(part, n)
        };
    let one = unit_scale();
    let v = part.scaled();
    let b = info.batch_size as int;
    vstd::arithmetic::power2::lemma_pow2_pos(1074);
    vstd::arithmetic::power2::lemma_pow2_unfold(1075);
    assert(pow2(1075) == 2 * one);
    if !part.is_nan_spec() {
        if v > 0 {
            let q = (2 * v + one) / (2 * one);
            assert(q * (2 * one) <= 2 * v + one < (q + 1) * (2 * one)) by {
                vstd::arithmetic::div_mod::lemma_fundamental_div_mod(2 * v + one, 2 * one);
                vstd::arithmetic::div_mod::lemma_mod_bound(2 * v + one, 2 * one);
                assert((q + 1) * (2 * one) == q * (2 * one) + 2 * one) by (nonlinear_arith);
                assert((2 * one) * q == q * (2 * one)) by (nonlinear_arith);
            }
            if 1 < b {
                assert(b <= q);
                assert((2 * b - 1) * one <= 2 * v) by (nonlinear_arith)
                    requires
                        b <= q,
                        one > 0,
                        q * (2 * one) <= 2 * v + one,
                ;
            }
            if b < n {
                assert(q <= b);
                assert(2 * v < (2 * b + 1) * one) by (nonlinear_arith)
                    requires
                        q <= b,
                        one > 0,
                        2 * v + one < (q + 1) * (2 * one),
                ;
            }
        } else {
            assert(b == 1);
            assert(2 * v < (2 * b + 1) * one) by (nonlinear_arith)
                requires
                    v <= 0,
                    b == 1,
                    one > 0,
            ;
        }
    }
    part
}

} // verus!
