//! What holds of every run of the sampler.
use crate::binary64::Binary64;
use crate::kernel::{
    batch_size_of, split_count, turn, BartKernel,
};
use crate::matrix::Matrix;
use crate::numerics::Numerics;
use crate::predict::is_training_prediction;
use crate::resampling::ResamplingStrategy;
use crate::response::{lowercase, strategy_named, LeafKind, ResponseStrategies};
use crate::smc::SmcStepInfo;
use crate::splitting::SplitRule;
use crate::state::{BartInfo, StateModel};
use crate::tree_model::TreeModel;
use crate::weight::WeightFn;
use rand::rngs::SmallRng;
use vstd::prelude::*;

verus! {

/// A step renews at least one tree and at most all of them.
pub proof fn law_batch_size(part: Binary64, n_trees: int)
    requires
        n_trees >= 1,
    ensures
        1 <= batch_size_of(part, n_trees) <= n_trees,
        part.is_nan_spec() ==> batch_size_of(part, n_trees) == 1,
{
}

/// Trees that follow each other within one round have different turns.
pub proof fn law_turns_differ(start: int, j: int, k: int, n: int)
    requires
        0 <= j < k < j + n,
    ensures
        turn(start, j, n) != turn(start, k, n),
{
    vstd::arithmetic::div_mod::lemma_fundamental_div_mod(start + j, n);
    vstd::arithmetic::div_mod::lemma_fundamental_div_mod(start + k, n);
    let a = (start + j) / n;
    let b = (start + k) / n;
    if turn(start, j, n) == turn(start, k, n) {
        assert(n * b - n * a == k - j);
        assert(false) by (nonlinear_arith)
            requires
                n * b - n * a == k - j,
                0 < k - j < n,
        ;
    }
}

/// Every tree has its turn in each round.
pub proof fn law_every_tree_has_its_turn(start: int, i: int, n: int)
    requires
        0 <= i < n,
    ensures
        exists|j: int| 0 <= j < n && #[trigger] turn(start, j, n) == i,
{
    let j = (i - start) % n;
    vstd::arithmetic::div_mod::lemma_add_mod_noop_right(start, i - start, n);
    vstd::arithmetic::div_mod::lemma_mod_bound(i - start, n);
    vstd::arithmetic::div_mod::lemma_small_mod(i as nat, n as nat);
    assert(turn(start, j, n) == i);
}

/// A step starts with the tree after the last one of the step before.
pub proof fn law_steps_follow_each_other(start: int, size: int, j: int, n: int)
    requires
        n >= 1,
    ensures
        turn(turn(start, size, n), j, n) == turn(start, size + j, n),
{
    vstd::arithmetic::div_mod::lemma_add_mod_noop_right(j, start + size, n);
}

/// How many of some trees have no split.
pub open spec fn stumps(trees: Seq<TreeModel>) -> nat
    decreases trees.len(),
{
    if trees.len() == 0 {
        0
    } else {
        stumps(trees.drop_last()) + if trees.last().is_leaf(0) {
            1nat
        } else {
            0
        }
    }
}

/// A batch of `k` trees replaces those whose turn it is and no others. It counts one
/// iteration per tree, and each tree put in place that has no split as a stump. It leaves
/// the rest of the state to the step.
pub proof fn law_batch_keeps_other_trees<
    N: Numerics,
    S: SplitRule,
    R: ResamplingStrategy,
    W: WeightFn,
>(
    kernel: &BartKernel<N, S, R, W>,
    from: SmallRng,
    response: ResponseStrategies,
    start: StateModel,
    k: nat,
    state: StateModel,
    pred: Matrix,
    infos: Seq<SmcStepInfo>,
    trees: Seq<TreeModel>,
    to: SmallRng,
)
    requires
        start.forest.len() == kernel.config.n_trees,
        kernel.config.n_trees >= 1,
        kernel.is_batch(from, response, start, k, state, pred, infos, trees, to),
    ensures
        state.forest.len() == start.forest.len(),
        forall|i: int|
            0 <= i < start.forest.len() && (forall|j: int|
                0 <= j < k ==> #[trigger] turn(
                    start.next_tree_idx as int,
                    j,
                    kernel.config.n_trees as int,
                ) != i) ==> #[trigger] state.forest[i] == start.forest[i],
        state.iter == start.iter + k,
        state.tune == start.tune,
        state.next_tree_idx == start.next_tree_idx,
        state.variable_inclusion == start.variable_inclusion,
        state.stump_count == start.stump_count + stumps(trees),
        !start.tune ==> state.running_sd == start.running_sd && state.leaf_sd == start.leaf_sd,
        start.tune ==> state.running_sd.count == start.running_sd.count + k,
    decreases k,
{
    if k > 0 {
        let n = kernel.config.n_trees as int;
        let idx = turn(start.next_tree_idx as int, k - 1, n);
        let (before, before_pred, between) = choose|
            before: StateModel,
            before_pred: Matrix,
            between: SmallRng,
        |
            {
                &&& #[trigger] kernel.is_tree_step(
                    between,
                    response,
                    before,
                    before_pred,
                    idx,
                    state,
                    pred,
                    infos.last(),
                    to,
                )
                &&& kernel.is_batch_after(
                    from,
                    response,
                    start,
                    (k - 1) as nat,
                    before,
                    before_pred,
                    infos.drop_last(),
                    trees.drop_last(),
                    between,
                )
            };
        law_batch_keeps_other_trees(
            kernel,
            from,
            response,
            start,
            (k - 1) as nat,
            before,
            before_pred,
            infos.drop_last(),
            trees.drop_last(),
            between,
        );
        assert forall|i: int|
            0 <= i < start.forest.len() && (forall|j: int|
                0 <= j < k ==> #[trigger] turn(start.next_tree_idx as int, j, n)
                    != i) implies #[trigger] state.forest[i] == start.forest[i] by {
            assert(turn(start.next_tree_idx as int, k - 1, n) != i);
            assert(before.forest[i] == start.forest[i]);
        }
    }
}

/// A step replaces the trees of its batch and no others.
pub proof fn law_step_keeps_other_trees<
    N: Numerics,
    S: SplitRule,
    R: ResamplingStrategy,
    W: WeightFn,
>(
    kernel: &BartKernel<N, S, R, W>,
    from: SmallRng,
    before: StateModel,
    after: StateModel,
    info: BartInfo,
    to: SmallRng,
    i: int,
)
    requires
        before.forest.len() == kernel.config.n_trees,
        kernel.is_step(from, before, after, info, to),
        0 <= i < before.forest.len(),
        forall|j: int|
            0 <= j < info.batch_size ==> #[trigger] turn(
                info.batch_start as int,
                j,
                kernel.config.n_trees as int,
            ) != i,
    ensures
        after.forest[i] == before.forest[i],
{
    let (response, done, pred, infos, trees) = choose_batch(kernel, from, before, after, info, to);
    law_batch_keeps_other_trees(
        kernel,
        from,
        response,
        before,
        info.batch_size as nat,
        done,
        pred,
        infos,
        trees,
        to,
    );
}

/// The batch that a step consists of.
pub proof fn choose_batch<N: Numerics, S: SplitRule, R: ResamplingStrategy, W: WeightFn>(
    kernel: &BartKernel<N, S, R, W>,
    from: SmallRng,
    before: StateModel,
    after: StateModel,
    info: BartInfo,
    to: SmallRng,
) -> (r: (ResponseStrategies, StateModel, Matrix, Seq<SmcStepInfo>, Seq<TreeModel>))
    requires
        kernel.is_step(from, before, after, info, to),
    ensures
        strategy_named(lowercase(kernel.config.response@)) == Some(r.0),
        kernel.is_batch(from, r.0, before, info.batch_size as nat, r.1, r.2, r.3, r.4, to),
        kernel.is_report(r.3, r.4, info),
        kernel.are_inclusions(before.tune, r.4, after.variable_inclusion),
        after == (StateModel {
            next_tree_idx: turn(
                before.next_tree_idx as int,
                info.batch_size as int,
                kernel.config.n_trees as int,
            ) as usize,
            variable_inclusion: after.variable_inclusion,
            ..r.1
        }),
{
    choose|
        response: ResponseStrategies,
        done: StateModel,
        pred: Matrix,
        infos: Seq<SmcStepInfo>,
        trees: Seq<TreeModel>,
    |
        {
            &&& strategy_named(lowercase(kernel.config.response@)) == Some(response)
            &&& #[trigger] kernel.is_batch(
                from,
                response,
                before,
                info.batch_size as nat,
                done,
                pred,
                infos,
                trees,
                to,
            )
            &&& kernel.is_report(infos, trees, info)
            &&& kernel.are_inclusions(before.tune, trees, after.variable_inclusion)
            &&& after == (StateModel {
                next_tree_idx: turn(
                    before.next_tree_idx as int,
                    info.batch_size as int,
                    kernel.config.n_trees as int,
                ) as usize,
                variable_inclusion: after.variable_inclusion,
                ..done
            })
        }
}

/// While tuning no split is counted. Afterwards the standard deviations of the leaves stay
/// as they are.
pub proof fn law_tuning<N: Numerics, S: SplitRule, R: ResamplingStrategy, W: WeightFn>(
    kernel: &BartKernel<N, S, R, W>,
    from: SmallRng,
    before: StateModel,
    after: StateModel,
    info: BartInfo,
    to: SmallRng,
)
    requires
        before.forest.len() == kernel.config.n_trees,
        kernel.config.n_trees >= 1,
        kernel.is_step(from, before, after, info, to),
    ensures
        before.tune ==> after.variable_inclusion == Seq::new(
            kernel.data.x.width(),
            |f: int| 0u32,
        ),
        !before.tune ==> after.running_sd == before.running_sd && after.leaf_sd == before.leaf_sd,
        after.tune == before.tune,
        after.iter == before.iter + info.batch_size,
        info.tree_depths@.len() == info.batch_size,
{
    let (response, done, pred, infos, trees) = choose_batch(kernel, from, before, after, info, to);
    law_batch_keeps_other_trees(
        kernel,
        from,
        response,
        before,
        info.batch_size as nat,
        done,
        pred,
        infos,
        trees,
        to,
    );
    if before.tune {
        assert(after.variable_inclusion =~= Seq::new(kernel.data.x.width(), |f: int| 0u32));
    }
}

/// The tree that a batch puts in place at its turn `j` is still there at its end.
pub proof fn lemma_batch_trees_stay<N: Numerics, S: SplitRule, R: ResamplingStrategy, W: WeightFn>(
    kernel: &BartKernel<N, S, R, W>,
    from: SmallRng,
    response: ResponseStrategies,
    start: StateModel,
    k: nat,
    state: StateModel,
    pred: Matrix,
    infos: Seq<SmcStepInfo>,
    trees: Seq<TreeModel>,
    to: SmallRng,
    j: int,
)
    requires
        start.forest.len() == kernel.config.n_trees,
        kernel.config.n_trees >= 1,
        kernel.is_batch(from, response, start, k, state, pred, infos, trees, to),
        0 <= j < k <= kernel.config.n_trees,
    ensures
        state.forest[turn(start.next_tree_idx as int, j, kernel.config.n_trees as int)] == trees[j],
    decreases k,
{
    let n = kernel.config.n_trees as int;
    let idx = turn(start.next_tree_idx as int, k - 1, n);
    let (before, before_pred, between) = choose|
            before: StateModel,
            before_pred: Matrix,
            between: SmallRng,
        |
        {
            &&& #[trigger] kernel.is_tree_step(
                between,
                response,
                before,
                before_pred,
                idx,
                state,
                pred,
                infos.last(),
                to,
            )
            &&& kernel.is_batch_after(
                from,
                response,
                start,
                (k - 1) as nat,
                before,
                before_pred,
                infos.drop_last(),
                trees.drop_last(),
                between,
            )
        };
    law_batch_keeps_other_trees(
        kernel,
        from,
        response,
        start,
        (k - 1) as nat,
        before,
        before_pred,
        infos.drop_last(),
        trees.drop_last(),
        between,
    );
    if j < k - 1 {
        lemma_batch_trees_stay(
            kernel,
            from,
            response,
            start,
            (k - 1) as nat,
            before,
            before_pred,
            infos.drop_last(),
            trees.drop_last(),
            between,
            j,
        );
        law_turns_differ(start.next_tree_idx as int, j, k - 1, n);
    }
}

/// The trees that a step put in place, in turn.
pub open spec fn renewed(
    forest: Seq<TreeModel>,
    batch_start: int,
    batch_size: nat,
) -> Seq<TreeModel> {
    Seq::new(batch_size, |k: int| forest[turn(batch_start, k, forest.len() as int)])
}

/// A step tells of the trees that it put in place: it counts those without a split, reports
/// the depth of each, and counts their splits.
pub proof fn law_step_tells_of_new_trees<
    N: Numerics,
    S: SplitRule,
    R: ResamplingStrategy,
    W: WeightFn,
>(
    kernel: &BartKernel<N, S, R, W>,
    from: SmallRng,
    before: StateModel,
    after: StateModel,
    info: BartInfo,
    to: SmallRng,
)
    requires
        before.forest.len() == kernel.config.n_trees,
        kernel.config.n_trees >= 1,
        kernel.is_step(from, before, after, info, to),
    ensures
        after.stump_count == before.stump_count + stumps(
            renewed(after.forest, info.batch_start as int, info.batch_size as nat),
        ),
        kernel.are_depths(
            renewed(after.forest, info.batch_start as int, info.batch_size as nat),
            info.tree_depths@,
        ),
        kernel.are_inclusions(
            before.tune,
            renewed(after.forest, info.batch_start as int, info.batch_size as nat),
            after.variable_inclusion,
        ),
{
    let (response, done, pred, infos, trees) = choose_batch(kernel, from, before, after, info, to);
    let k = info.batch_size as nat;
    law_batch_keeps_other_trees(kernel, from, response, before, k, done, pred, infos, trees, to);
    let placed = renewed(after.forest, info.batch_start as int, k);
    assert forall|j: int| 0 <= j < k implies placed[j] == trees[j] by {
        lemma_batch_trees_stay(kernel, from, response, before, k, done, pred, infos, trees, to, j);
    }
    assert(placed =~= trees);
}

/// How many of the first `n` nodes are split.
pub open spec fn internal_count(t: TreeModel, n: nat) -> nat
    decreases n,
{
    if n == 0 {
        0
    } else {
        internal_count(t, (n - 1) as nat) + if t.is_internal(n - 1) {
            1nat
        } else {
            0
        }
    }
}

/// How many of the first `n` nodes are split on one of the first `width` features.
pub open spec fn split_total(t: TreeModel, n: nat, width: nat) -> nat
    decreases width,
{
    if width == 0 {
        0
    } else {
        split_total(t, n, (width - 1) as nat) + split_count(t, n, width - 1)
    }
}

/// The splits counted for all features together are the split nodes of the tree.
pub proof fn law_inclusions_count_split_nodes(t: TreeModel, n: nat, width: nat)
    requires
        t.uses_only(width),
    ensures
        split_total(t, n, width) == internal_count(t, n),
    decreases n,
{
    if n == 0 {
        lemma_split_total_of_nothing(t, width);
    } else {
        law_inclusions_count_split_nodes(t, (n - 1) as nat, width);
        lemma_split_total_of_one_more(t, n, width);
    }
}

proof fn lemma_split_total_of_nothing(t: TreeModel, width: nat)
    ensures
        split_total(t, 0, width) == 0,
    decreases width,
{
    if width > 0 {
        lemma_split_total_of_nothing(t, (width - 1) as nat);
    }
}

proof fn lemma_split_total_of_one_more(t: TreeModel, n: nat, width: nat)
    requires
        n > 0,
    ensures
        split_total(t, n, width) == split_total(t, (n - 1) as nat, width) + if t.is_internal(n - 1)
            && t.split_var[n - 1] < width {
            1nat
        } else {
            0
        },
    decreases width,
{
    if width > 0 {
        lemma_split_total_of_one_more(t, n, (width - 1) as nat);
    }
}

/// A single leaf predicts its value for every training sample.
pub proof fn law_root_predicts_its_value<N: Numerics>(
    num: &N,
    value: Binary64,
    max_depth: nat,
    n_outputs: nat,
    x: Matrix,
    before: Matrix,
    after: Matrix,
    o: int,
    s: int,
)
    requires
        ({
            let t = TreeModel::root(value, x.height(), max_depth, n_outputs);
            is_training_prediction(num, t, Some(&x), before, after)
        }),
        before.width() == x.height(),
        before.height() <= n_outputs,
        0 <= o < before.height(),
        0 <= s < before.width(),
    ensures
        after.at(o, s) == value,
{
    let t = TreeModel::root(value, x.height(), max_depth, n_outputs);
    assert(t.leaf_indices[s] == 0);
    assert(t.kind(0) == LeafKind::Gaussian);
}

} // verus!
