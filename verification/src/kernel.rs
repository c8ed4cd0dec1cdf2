//! The sampler: initial state and steps.
use crate::binary64::{count_number, Binary64, ONE_BITS, ZERO_BITS};
use crate::config::BartConfig;
use crate::data::{is_mean_response, OwnedData};
use crate::matrix::{
    can_allocate, flat, flattened, is_matrix_difference, is_matrix_sum, matrix_difference,
    matrix_sum, Matrix,
};
use crate::mutation::{can_choose_feature, SmcError};
use crate::node_laws::law_root_is_tidy;
use crate::numerics::{
    is_product, is_quotient, is_root, is_running_sum, is_spread, is_sum, Numerics,
};
use crate::particle::indexable;
use crate::predict::is_training_prediction;
use crate::prediction_laws::law_grown_tree_predicts_training;
use crate::resampling::ResamplingStrategy;
use crate::response::{lowercase, strategy_named, unknown_strategy, ResponseStrategies};
use crate::routing::{grown_on, law_root_is_grown};
use crate::running_sd::is_sd_update;
use crate::smc::{is_blank, smc_step, SmcInputs, SmcStepInfo};
use crate::splitting::SplitRule;
use crate::state::{tree_models, BartInfo, BartState, StateModel};
use crate::tree::{max_nodes_for_depth, TreeArrays, LEAF_SENTINEL};
use crate::tree_laws::law_max_nodes_by_depth;
use crate::tree_model::{max_nodes, node_depth, TreeModel};
use crate::weight::WeightFn;
use rand::rngs::SmallRng;
use vstd::prelude::*;

pub use crate::running_sd::RunningSd;

verus! {

/// The encoding of `3`.
pub const THREE_BITS: u64 = 0x4008_0000_0000_0000;

/// A sampler with its strategies.
pub struct BartKernel<N, S, R, W> {
    pub num: N,
    pub split_rules: Vec<S>,
    pub resampling: R,
    pub weight_fn: W,
    pub config: BartConfig,
    pub data: OwnedData,
}

/// All responses are zero or one.
pub open spec fn is_binary(y: Seq<Binary64>) -> bool {
    forall|i: int|
        0 <= i < y.len() ==> {
            ||| (#[trigger] y[i]).same_number_spec(Binary64 { bits: ZERO_BITS })
            ||| y[i].same_number_spec(Binary64 { bits: ONE_BITS })
        }
}

/// Whether all responses are zero or one.
pub fn all_binary(y: &Vec<Binary64>) -> (r: bool)
    ensures
        r == is_binary(y@),
{
    let zero = Binary64 { bits: ZERO_BITS };
    let one = Binary64 { bits: ONE_BITS };
    for i in 0..y.len()
        invariant
            zero == (Binary64 { bits: ZERO_BITS }),
            one == (Binary64 { bits: ONE_BITS }),
            forall|j: int|
                0 <= j < i ==> {
                    ||| (#[trigger] y@[j]).same_number_spec(zero)
                    ||| y@[j].same_number_spec(one)
                },
    {
        if !y[i].same_number(zero) && !y[i].same_number(one) {
            return false;
        }
    }
    true
}

/// `r` is the standard deviation that leaves start with: that of the responses, or `3` for
/// binary ones, over the root of the number of trees.
pub open spec fn is_initial_leaf_sd<N: Numerics>(
    num: &N,
    data: OwnedData,
    n_trees: nat,
    r: Binary64,
) -> bool {
    exists|spread: Binary64, scale: Binary64|
        {
            &&& is_response_spread(num, flattened(data.y), spread)
            &&& #[trigger] is_root(num, count_number(n_trees), scale)
            &&& #[trigger] is_quotient(num, spread, scale, r)
        }
}

/// `r` is `3` for binary responses, the standard deviation of others.
pub open spec fn is_response_spread<N: Numerics>(
    num: &N,
    y: Seq<Binary64>,
    r: Binary64,
) -> bool {
    if is_binary(y) {
        r == (Binary64 { bits: THREE_BITS })
    } else {
        is_spread(num, y, r)
    }
}

impl<N: Numerics, S: SplitRule, R: ResamplingStrategy, W: WeightFn> BartKernel<N, S, R, W> {
    /// Trees of the configured depth and outputs, and arrays with one row per output and
    /// one column per sample, can be held.
    pub open spec fn sized(&self) -> bool {
        &&& indexable(self.config.max_depth as nat)
        &&& can_allocate(self.config.n_outputs as int, self.data.x.height() as int)
        &&& max_nodes(self.config.max_depth as nat) * (if self.config.n_outputs == 0 {
            1
        } else {
            self.config.n_outputs as int
        }) <= usize::MAX
    }

    /// `state` may stand at the start: all trees are single leaves that share the mean
    /// response, which is what the forest predicts everywhere.
    pub open spec fn is_initial(&self, state: StateModel) -> bool {
        let n_samples = self.data.x.height();
        let n_outputs = self.config.n_outputs as nat;
        exists|mean: Binary64, value: Binary64|
            {
                &&& is_mean_response(&self.num, self.data.y, mean)
                &&& #[trigger] is_quotient(
                    &self.num,
                    mean,
                    count_number(self.config.n_trees as nat),
                    value,
                )
                &&& state.forest == Seq::new(
                    self.config.n_trees as nat,
                    |i: int|
                        TreeModel::root(
                            value,
                            n_samples,
                            self.config.max_depth as nat,
                            n_outputs,
                        ),
                )
                &&& state.predictions.height() == n_outputs
                &&& state.predictions.width() == n_samples
                &&& forall|o: int, s: int|
                    0 <= o < n_outputs && 0 <= s < n_samples
                        ==> #[trigger] state.predictions.at(o, s) == mean
            }
    }

    /// The rest of a state at the start.
    pub open spec fn is_untouched(&self, state: StateModel) -> bool {
        let n_samples = self.data.x.height();
        let n_outputs = self.config.n_outputs as nat;
        &&& state.variable_inclusion == Seq::new(self.data.x.width(), |f: int| 0u32)
        &&& state.next_tree_idx == 0
        &&& state.tune
        &&& state.running_sd.count == 0
        &&& state.running_sd.shape == n_outputs
        &&& is_blank(state.running_sd.mean, n_outputs, n_samples)
        &&& is_blank(state.running_sd.m2, n_outputs, n_samples)
        &&& state.leaf_sd@.len() == n_outputs
        &&& forall|o: int|
            0 <= o < n_outputs ==> is_initial_leaf_sd(
                &self.num,
                self.data,
                self.config.n_trees as nat,
                #[trigger] state.leaf_sd@[o],
            )
        &&& state.iter == 0
        &&& state.stump_count == 0
    }

    /// A tree of the forest: grown on the data to the configured depth and outputs.
    pub open spec fn tree_ok(&self, t: TreeModel) -> bool {
        &&& grown_on(t, self.data.x)
        &&& self.config.n_outputs <= t.n_outputs
        &&& t.max_depth == self.config.max_depth
    }

    /// The invariant of a state: its trees are grown on the data, and its arrays have the
    /// shape that outputs and samples ask for.
    pub open spec fn state_ok(&self, state: StateModel) -> bool {
        &&& state.forest.len() == self.config.n_trees
        &&& forall|i: int| 0 <= i < state.forest.len() ==> self.tree_ok(#[trigger] state.forest[i])
        &&& state.predictions.height() == self.config.n_outputs
        &&& state.predictions.width() == self.data.x.height()
        &&& state.running_sd.wf(self.data.x.height())
        &&& state.running_sd.shape == self.config.n_outputs
        &&& state.leaf_sd@.len() >= self.config.n_outputs
    }

    /// The nodes of every tree hold what they should.
    pub open spec fn forest_tidy(&self, state: StateModel) -> bool {
        forall|i: int| 0 <= i < state.forest.len() ==> (#[trigger] state.forest[i]).tidy()
    }

    /// A forest of single leaves.
    fn initial_forest(&self, value: Binary64) -> (r: Vec<TreeArrays>)
        requires
            self.sized(),
        ensures
            tree_models(r@) == Seq::new(
                self.config.n_trees as nat,
                |i: int|
                    TreeModel::root(
                        value,
                        self.data.x.height(),
                        self.config.max_depth as nat,
                        self.config.n_outputs as nat,
                    ),
            ),
            forall|i: int|
                0 <= i < r@.len() ==> self.tree_ok((#[trigger] r@[i])@) && r@[i]@.tidy(),
    {
        let n_samples = self.data.n_samples();
        let ghost root = TreeModel::root(
            value,
            self.data.x.height(),
            self.config.max_depth as nat,
            self.config.n_outputs as nat,
        );
        let mut r: Vec<TreeArrays> = Vec::new();
        for i in 0..self.config.n_trees
            invariant
                self.sized(),
                n_samples == self.data.x.height(),
                root == TreeModel::root(
                    value,
                    self.data.x.height(),
                    self.config.max_depth as nat,
                    self.config.n_outputs as nat,
                ),
                r@.len() == i,
                forall|j: int| 0 <= j < i ==> (#[trigger] r@[j])@ == root,
        {
            r.push(
                TreeArrays::new(value, n_samples, self.config.max_depth, self.config.n_outputs),
            );
        }
        proof {
            law_root_is_grown(
                value,
                self.config.max_depth as nat,
                self.config.n_outputs as nat,
                self.data.x,
            );
            law_root_is_tidy(
                value,
                self.data.x.height(),
                self.config.max_depth as nat,
                self.config.n_outputs as nat,
            );
            assert(tree_models(r@) =~= Seq::new(self.config.n_trees as nat, |i: int| root));
        }
        r
    }

    /// The standard deviation that leaves start with, once for each output.
    fn initial_leaf_sd(&self) -> (r: Vec<Binary64>)
        ensures
            r@.len() == self.config.n_outputs,
            forall|o: int|
                0 <= o < r@.len() ==> is_initial_leaf_sd(
                    &self.num,
                    self.data,
                    self.config.n_trees as nat,
                    #[trigger] r@[o],
                ),
    {
        let y = flat(&self.data.y);
        let spread = if all_binary(&y) {
            Binary64 { bits: THREE_BITS }
        } else {
            self.num.spread(&y)
        };
        assert(is_response_spread(&self.num, y@, spread));
        let scale = self.num.sqrt(Binary64::from_count(self.config.n_trees));
        assert(is_root(&self.num, count_number(self.config.n_trees as nat), scale));
        let value = self.num.over(spread, scale);
        assert(is_quotient(&self.num, spread, scale, value));
        let mut r: Vec<Binary64> = Vec::new();
        for o in 0..self.config.n_outputs
            invariant
                r@.len() == o,
                forall|k: int| 0 <= k < o ==> #[trigger] r@[k] == value,
        {
            r.push(value);
        }
        r
    }

    /// The state to start from.
    pub fn initial_state(&self) -> (r: BartState)
        requires
            self.sized(),
        ensures
            self.is_initial(r@),
            self.is_untouched(r@),
            self.state_ok(r@),
            self.forest_tidy(r@),
    {
        let n_samples = self.data.n_samples();
        let n_outputs = self.config.n_outputs;
        let y_mean = self.data.mean_response(&self.num);
        let value = self.num.over(y_mean, Binary64::from_count(self.config.n_trees));
        assert(is_quotient(
            &self.num,
            y_mean,
            count_number(self.config.n_trees as nat),
            value,
        ));
        let forest = self.initial_forest(value);
        let predictions = Matrix::filled(n_outputs, n_samples, y_mean);
        let variable_inclusion = zeros(self.data.n_features());
        let leaf_sd = self.initial_leaf_sd();
        let running_sd = RunningSd::new(n_outputs, n_samples);
        let r = BartState {
            forest,
            predictions,
            variable_inclusion,
            next_tree_idx: 0,
            tune: true,
            running_sd,
            leaf_sd,
            iter: 0,
            stump_count: 0,
        };
        assert forall|i: int| 0 <= i < r@.forest.len() implies self.tree_ok(
            #[trigger] r@.forest[i],
        ) && r@.forest[i].tidy() by {
            assert(r@.forest[i] == forest@[i]@);
        }
        r
    }
}

/// `n` zeros.
fn zeros(n: usize) -> (r: Vec<u32>)
    ensures
        r@ == Seq::new(n as nat, |f: int| 0u32),
{
    let mut r: Vec<u32> = Vec::new();
    for i in 0..n
        invariant
            r@.len() == i,
            forall|j: int| 0 <= j < i ==> #[trigger] r@[j] == 0,
    {
        r.push(0);
    }
    assert(r@ =~= Seq::new(n as nat, |f: int| 0u32));
    r
}

/// Why a step has no result.
#[derive(Clone, Debug)]
pub enum StepError {
    /// No response strategy goes by the configured name.
    UnknownResponse(String),
    /// A feature was split on more often than a counter can tell.
    CountOverflow,
    /// A tree could not be replaced.
    Smc(SmcError),
}

/// How many trees a step renews, given the part of the forest as a number of trees: at
/// least one, at most all.
pub open spec fn batch_size_of(part: Binary64, n_trees: int) -> int {
    let wanted = part.round_to_usize_spec();
    let some = if wanted < 1 {
        1
    } else {
        wanted
    };
    if some > n_trees {
        n_trees
    } else {
        some
    }
}

/// How many trees a step renews.
pub fn batch_size(part: Binary64, n_trees: usize) -> (r: usize)
    ensures
        r == batch_size_of(part, n_trees as int),
{
    let wanted = part.round_to_usize();
    let some: usize = if wanted < 1 {
        1
    } else {
        wanted
    };
    if some > n_trees {
        n_trees
    } else {
        some
    }
}

/// The depth of the deepest leaf among the first `n` nodes.
pub open spec fn leaf_depth(t: TreeModel, n: nat) -> nat
    decreases n,
{
    if n == 0 {
        0
    } else {
        let before = leaf_depth(t, (n - 1) as nat);
        if t.is_leaf(n - 1) && node_depth((n - 1) as nat) > before {
            node_depth((n - 1) as nat)
        } else {
            before
        }
    }
}

/// How many of the first `n` nodes are split on feature `f`.
pub open spec fn split_count(t: TreeModel, n: nat, f: int) -> nat
    decreases n,
{
    if n == 0 {
        0
    } else {
        split_count(t, (n - 1) as nat, f) + if t.is_internal(n - 1) && t.split_var[n - 1] == f {
            1nat
        } else {
            0
        }
    }
}

/// How many nodes of some trees are split on feature `f`.
pub open spec fn splits_on(trees: Seq<TreeModel>, f: int) -> nat
    decreases trees.len(),
{
    if trees.len() == 0 {
        0
    } else {
        splits_on(trees.drop_last(), f) + split_count(trees.last(), trees.last().size, f)
    }
}

/// Among more nodes no fewer are split.
proof fn lemma_split_count(t: TreeModel, m: nat, n: nat, f: int)
    requires
        m <= n,
    ensures
        split_count(t, m, f) <= split_count(t, n, f),
    decreases n,
{
    if m < n {
        lemma_split_count(t, m, (n - 1) as nat, f);
    }
}

/// The deepest leaf lies no deeper than the tree may.
pub proof fn law_leaf_depth(t: TreeModel, n: nat)
    requires
        n <= max_nodes(t.max_depth),
    ensures
        leaf_depth(t, n) <= t.max_depth,
    decreases n,
{
    if n > 0 {
        law_leaf_depth(t, (n - 1) as nat);
        law_max_nodes_by_depth((n - 1) as nat, t.max_depth);
    }
}

/// The depth of the deepest leaf of a tree.
pub fn tree_depth(tree: &TreeArrays) -> (r: u8)
    requires
        tree@.wf(),
    ensures
        r == leaf_depth(tree@, tree@.size),
{
    let ghost t = tree@;
    let mut r: u8 = 0;
    assert(tree.split_var.len() == t.len());
    for i in 0..tree.size
        invariant
            t == tree@,
            t.wf(),
            tree.size == t.len(),
            tree.size == tree.split_var.len(),
            r == leaf_depth(t, i as nat),
    {
        if tree.is_leaf(i) {
            let depth = tree.get_depth(i);
            proof {
                law_max_nodes_by_depth(i as nat, t.max_depth);
            }
            if depth as u8 > r {
                r = depth as u8;
            }
        }
    }
    r
}

/// Adds to `counts` how many nodes of a tree are split on each feature. Tells whether all
/// counts had room for it.
pub fn count_splits(tree: &TreeArrays, counts: &mut Vec<u32>) -> (r: bool)
    requires
        tree@.size == tree@.len(),
        tree@.uses_only(old(counts)@.len()),
    ensures
        r <==> forall|f: int|
            0 <= f < old(counts)@.len() ==> #[trigger] old(counts)@[f] + split_count(
                tree@,
                tree@.size,
                f,
            ) <= u32::MAX,
        final(counts)@.len() == old(counts)@.len(),
        r ==> forall|f: int|
            0 <= f < old(counts)@.len() ==> #[trigger] final(counts)@[f] == old(counts)@[f]
                + split_count(tree@, tree@.size, f),
{
    let ghost t = tree@;
    let ghost before = counts@;
    for i in 0..tree.size
        invariant
            t == tree@,
            tree.size == t.len(),
            t.uses_only(before.len()),
            before == old(counts)@,
            counts@.len() == before.len(),
            forall|f: int|
                0 <= f < before.len() ==> #[trigger] counts@[f] == before[f] + split_count(
                    t,
                    i as nat,
                    f,
                ),
    {
        let var: u32 = tree.split_var[i];
        if var != LEAF_SENTINEL {
            let ghost start = counts@;
            assert(t.is_internal(i as int));
            proof {
                lemma_split_count(t, (i + 1) as nat, t.size, var as int);
                assert(counts@[var as int] == before[var as int] + split_count(
                    t,
                    i as nat,
                    var as int,
                ));
            }
            let old_count: u32 = counts[var as usize];
            if old_count == u32::MAX {
                assert(before[var as int] + split_count(t, t.size, var as int) > u32::MAX);
                return false;
            }
            counts.set(var as usize, old_count + 1);
            assert forall|f: int| 0 <= f < before.len() implies #[trigger] counts@[f] == before[f]
                + split_count(t, (i + 1) as nat, f) by {
                assert(start[f] == before[f] + split_count(t, i as nat, f));
            }
        } else {
            assert forall|f: int| 0 <= f < before.len() implies #[trigger] counts@[f] == before[f]
                + split_count(t, (i + 1) as nat, f) by {
                assert(counts@[f] == before[f] + split_count(t, i as nat, f));
            }
        }
    }
    assert forall|f: int| 0 <= f < before.len() implies #[trigger] before[f] + split_count(
        t,
        t.size,
        f,
    ) <= u32::MAX by {
        assert(counts@[f] == before[f] + split_count(t, t.size, f));
    }
    true
}

impl<N: Numerics, S: SplitRule, R: ResamplingStrategy, W: WeightFn> BartKernel<N, S, R, W> {
    /// Data and settings fit together, so that trees can be grown.
    pub open spec fn ready(&self) -> bool {
        &&& self.sized()
        &&& self.data.x.height() <= u32::MAX
        &&& self.data.x.width() <= u32::MAX
        &&& can_choose_feature(self.config, self.data.x) || self.config.max_depth == 0
            || self.config.n_particles == 1
        &&& self.split_rules@.len() >= self.data.x.width()
        &&& self.config.n_trees >= 1
        &&& self.config.n_particles >= 1
    }

    /// What a step on one tree is given.
    pub open spec fn smc_inputs<'a>(
        &'a self,
        predictions: &'a Matrix,
        leaf_sd: &'a Vec<Binary64>,
        response: &'a ResponseStrategies,
    ) -> SmcInputs<'a, N, S, ResponseStrategies, R, W> {
        SmcInputs {
            num: &self.num,
            sum_trees: predictions,
            config: &self.config,
            data: &self.data,
            split_rules: &self.split_rules,
            resampling: &self.resampling,
            weight_fn: &self.weight_fn,
            leaf_sd,
            response,
        }
    }

    /// The standard deviations of the leaves follow the predictions `pred` of a new tree
    /// while tuning, the leaves themselves only once two trees have been seen.
    pub open spec fn is_tuned(&self, before: StateModel, pred: Matrix, after: StateModel) -> bool {
        if before.tune {
            exists|sd: Vec<Binary64>|
                {
                    &&& #[trigger] is_sd_update(
                        &self.num,
                        before.running_sd,
                        pred,
                        after.running_sd,
                        sd@,
                    )
                    &&& after.leaf_sd == if after.iter > 2 {
                        sd
                    } else {
                        before.leaf_sd
                    }
                }
        } else {
            &&& after.running_sd == before.running_sd
            &&& after.leaf_sd == before.leaf_sd
        }
    }

    /// `after` comes of `before` by replacing tree `idx`, and `info` tells of it. The
    /// predictions lose those of the old tree and gain those of the new one. A new tree
    /// without a split is counted as a stump. `pred` and
    /// `new_pred` are the predictions of a single tree before and after.
    pub open spec fn is_tree_step(
        &self,
        from: SmallRng,
        response: ResponseStrategies,
        before: StateModel,
        pred: Matrix,
        idx: int,
        after: StateModel,
        new_pred: Matrix,
        info: SmcStepInfo,
        to: SmallRng,
    ) -> bool {
        let tree = after.forest[idx];
        exists|old_pred: Matrix, others: Matrix|
            {
                &&& #[trigger] is_training_prediction(
                    &self.num,
                    before.forest[idx],
                    Some(&self.data.x),
                    pred,
                    old_pred,
                )
                &&& #[trigger] is_matrix_difference(
                    &self.num,
                    before.predictions,
                    old_pred,
                    others,
                )
                &&& self.smc_inputs(&before.predictions, &before.leaf_sd, &response).is_step(
                    from,
                    before.forest[idx],
                    tree,
                    info,
                    to,
                )
                &&& is_training_prediction(
                    &self.num,
                    tree,
                    Some(&self.data.x),
                    old_pred,
                    new_pred,
                )
                &&& is_matrix_sum(&self.num, others, new_pred, after.predictions)
                &&& after.iter == before.iter + 1
                &&& self.is_tuned(before, new_pred, after)
                &&& after.stump_count == before.stump_count + if tree.is_leaf(0) {
                    1int
                } else {
                    0
                }
                &&& after == StateModel {
                    forest: before.forest.update(idx, tree),
                    predictions: after.predictions,
                    running_sd: after.running_sd,
                    leaf_sd: after.leaf_sd,
                    iter: after.iter,
                    stump_count: after.stump_count,
                    ..before
                }
            }
    }

    /// Replaces one tree of the forest.
    fn update_tree(
        &self,
        rng: &mut SmallRng,
        response: &ResponseStrategies,
        state: &mut BartState,
        pred: &mut Matrix,
        idx: usize,
    ) -> (r: Result<SmcStepInfo, StepError>)
        requires
            self.ready(),
            self.state_ok(old(state)@),
            idx < old(state)@.forest.len(),
            old(pred).height() == self.config.n_outputs,
            old(pred).width() == self.data.x.height(),
            old(state).iter < usize::MAX,
            old(state).stump_count < usize::MAX,
            old(state).tune ==> {
                &&& old(state).running_sd.count < usize::MAX
                &&& self.data.x.height() > 0
            },
            max_nodes(self.config.max_depth as nat) * (self.config.n_particles - 1) <= usize::MAX,
        ensures
            match r {
                Ok(info) => {
                    &&& self.is_tree_step(
                        *old(rng),
                        *response,
                        old(state)@,
                        *old(pred),
                        idx as int,
                        final(state)@,
                        *final(pred),
                        info,
                        *final(rng),
                    )
                    &&& self.state_ok(final(state)@)
                    &&& self.forest_tidy(old(state)@) ==> self.forest_tidy(final(state)@)
                    &&& final(pred).same_shape(*old(pred))
                    &&& info.acceptance_count <= max_nodes(self.config.max_depth as nat) * (
                    self.config.n_particles - 1)
                },
                Err(StepError::Smc(e)) => self.smc_inputs(
                    &old(state).predictions,
                    &old(state).leaf_sd,
                    response,
                ).is_step_error(*old(rng), old(state)@.forest[idx as int], e, *final(rng)),
                Err(_) => false,
            },
    {
        let ghost before = state@;
        let ghost start_pred = *pred;
        let ghost x = self.data.x;
        assert(before.forest[idx as int] == state.forest@[idx as int]@);
        assert(self.tree_ok(before.forest[idx as int]));
        proof {
            law_grown_tree_predicts_training(
                before.forest[idx as int],
                x,
                self.config.n_outputs as nat,
            );
        }
        state.forest[idx].predict_training_into_multi(&self.num, pred, Some(&self.data.x));
        let ghost old_pred = *pred;
        let others = matrix_difference(&self.num, &state.predictions, pred);
        let current = state.forest[idx].clone();
        let (tree, info) = match smc_step(
            &self.num,
            rng,
            &state.predictions,
            &self.config,
            &self.data,
            &self.split_rules,
            &self.resampling,
            &self.weight_fn,
            current,
            &state.leaf_sd,
            response,
        ) {
            Ok(step) => step,
            Err(e) => {
                return Err(StepError::Smc(e));
            },
        };
        assert(self.tree_ok(tree@));
        proof {
            law_grown_tree_predicts_training(tree@, x, self.config.n_outputs as nat);
        }
        tree.predict_training_into_multi(&self.num, pred, Some(&self.data.x));
        state.predictions = matrix_sum(&self.num, &others, pred);
        state.iter = state.iter + 1;
        if state.tune {
            let sd = state.running_sd.update(&self.num, pred);
            if state.iter > 2 {
                state.leaf_sd = sd;
            }
        }
        if tree.is_leaf(0) {
            state.stump_count = state.stump_count + 1;
        }
        let ghost t = tree@;
        state.forest.set(idx, tree);
        proof {
            assert(state@.forest =~= before.forest.update(idx as int, t));
            assert(is_training_prediction(
                &self.num,
                before.forest[idx as int],
                Some(&self.data.x),
                start_pred,
                old_pred,
            ));
        }
        Ok(info)
    }
}

/// The log-likelihoods that some steps tell of.
pub open spec fn log_likelihoods(infos: Seq<SmcStepInfo>) -> Seq<Binary64> {
    infos.map_values(|info: SmcStepInfo| info.log_likelihood)
}

/// How many nodes some steps split.
pub open spec fn total_accepted(infos: Seq<SmcStepInfo>) -> nat
    decreases infos.len(),
{
    if infos.len() == 0 {
        0
    } else {
        total_accepted(infos.drop_last()) + infos.last().acceptance_count as nat
    }
}

/// The tree whose turn it is `k` trees after tree `start` of `n`.
pub open spec fn turn(start: int, k: int, n: int) -> int {
    (start + k) % n
}

impl<N: Numerics, S: SplitRule, R: ResamplingStrategy, W: WeightFn> BartKernel<N, S, R, W> {
    /// `state` stands after `k` trees have been replaced in turn, starting with the next
    /// one of `start`. `infos` and `trees` tell of each.
    pub open spec fn is_batch_after(
        &self,
        from: SmallRng,
        response: ResponseStrategies,
        start: StateModel,
        k: nat,
        state: StateModel,
        pred: Matrix,
        infos: Seq<SmcStepInfo>,
        trees: Seq<TreeModel>,
        to: SmallRng,
    ) -> bool
        decreases k,
    {
        &&& infos.len() == k
        &&& trees.len() == k
        &&& if k == 0 {
            &&& state == start
            &&& to == from
            &&& is_blank(pred, self.config.n_outputs as nat, self.data.x.height())
        } else {
            let idx = turn(start.next_tree_idx as int, k - 1, self.config.n_trees as int);
            &&& trees.last() == state.forest[idx]
            &&& exists|before: StateModel, before_pred: Matrix, between: SmallRng|
                {
                    &&& #[trigger] self.is_tree_step(
                        between,
                        response,
                        before,
                        before_pred,
                        idx,
                        state,
                        pred,
                        infos.last(),
                        to,
                    )
                    &&& self.is_batch_after(
                        from,
                        response,
                        start,
                        (k - 1) as nat,
                        before,
                        before_pred,
                        infos.drop_last(),
                        trees.drop_last(),
                        between,
                    )
                }
        }
    }

    /// `state` stands after `k` trees have been replaced in turn.
    pub open spec fn is_batch(
        &self,
        from: SmallRng,
        response: ResponseStrategies,
        start: StateModel,
        k: nat,
        state: StateModel,
        pred: Matrix,
        infos: Seq<SmcStepInfo>,
        trees: Seq<TreeModel>,
        to: SmallRng,
    ) -> bool {
        self.is_batch_after(from, response, start, k, state, pred, infos, trees, to)
    }

    /// The part of the forest that a step renews.
    pub open spec fn batch_fraction(&self, tune: bool) -> Binary64 {
        if tune {
            self.config.batch_tune
        } else {
            self.config.batch_post
        }
    }

    /// `size` is the number of trees that a step renews.
    pub open spec fn is_batch_size(&self, tune: bool, size: int) -> bool {
        exists|part: Binary64|
            {
                &&& #[trigger] is_product(
                    &self.num,
                    self.batch_fraction(tune),
                    count_number(self.config.n_trees as nat),
                    part,
                )
                &&& size == batch_size_of(part, self.config.n_trees as int)
            }
    }

    /// `counts` says how often each feature is split on in `trees`, nothing while tuning.
    pub open spec fn are_inclusions(
        &self,
        tune: bool,
        trees: Seq<TreeModel>,
        counts: Seq<u32>,
    ) -> bool {
        &&& counts.len() == self.data.x.width()
        &&& forall|f: int|
            0 <= f < counts.len() ==> #[trigger] counts[f] == if tune {
                0
            } else {
                splits_on(trees, f) as int
            }
    }

    /// Each of `depths` is the depth of its tree.
    pub open spec fn are_depths(&self, trees: Seq<TreeModel>, depths: Seq<u8>) -> bool {
        &&& depths.len() == trees.len()
        &&& forall|k: int|
            0 <= k < depths.len() ==> #[trigger] depths[k] == leaf_depth(trees[k], trees[k].size)
    }

    /// `info` tells of the steps `infos` that put `trees` in place.
    pub open spec fn is_report(
        &self,
        infos: Seq<SmcStepInfo>,
        trees: Seq<TreeModel>,
        info: BartInfo,
    ) -> bool {
        &&& is_running_sum(&self.num, log_likelihoods(infos), info.log_likelihood)
        &&& info.acceptance_count == total_accepted(infos)
        &&& self.are_depths(trees, info.tree_depths@)
    }

    /// `after` and `info` may come of a step: a batch of trees is replaced in turn.
    pub open spec fn is_step(
        &self,
        from: SmallRng,
        before: StateModel,
        after: StateModel,
        info: BartInfo,
        to: SmallRng,
    ) -> bool {
        &&& info.batch_start == before.next_tree_idx
        &&& self.is_batch_size(before.tune, info.batch_size as int)
        &&& exists|
            response: ResponseStrategies,
            done: StateModel,
            pred: Matrix,
            infos: Seq<SmcStepInfo>,
            trees: Seq<TreeModel>,
        |
            {
                &&& strategy_named(lowercase(self.config.response@)) == Some(response)
                &&& #[trigger] self.is_batch(
                    from,
                    response,
                    before,
                    info.batch_size as nat,
                    done,
                    pred,
                    infos,
                    trees,
                    to,
                )
                &&& self.is_report(infos, trees, info)
                &&& self.are_inclusions(before.tune, trees, after.variable_inclusion)
                &&& after == StateModel {
                    next_tree_idx: turn(
                        before.next_tree_idx as int,
                        info.batch_size as int,
                        self.config.n_trees as int,
                    ) as usize,
                    variable_inclusion: after.variable_inclusion,
                    ..done
                }
            }
    }

    /// A step from `before` that renews `size` trees fails with `e`: the next tree after a
    /// part of the batch cannot be replaced, or the splits of a part cannot be counted.
    pub open spec fn is_batch_error(
        &self,
        from: SmallRng,
        response: ResponseStrategies,
        before: StateModel,
        size: int,
        e: StepError,
        to: SmallRng,
    ) -> bool {
        let n = self.config.n_trees as int;
        exists|
            k: nat,
            done: StateModel,
            pred: Matrix,
            infos: Seq<SmcStepInfo>,
            trees: Seq<TreeModel>,
            between: SmallRng,
        |
            {
                &&& #[trigger] self.is_batch(
                    from,
                    response,
                    before,
                    k,
                    done,
                    pred,
                    infos,
                    trees,
                    between,
                )
                &&& match e {
                    StepError::Smc(e) => {
                        &&& k < size
                        &&& self.smc_inputs(
                            &done.predictions,
                            &done.leaf_sd,
                            &response,
                        ).is_step_error(
                            between,
                            done.forest[turn(before.next_tree_idx as int, k as int, n)],
                            e,
                            to,
                        )
                    },
                    StepError::CountOverflow => {
                        &&& k <= size
                        &&& !before.tune
                        &&& to == between
                        &&& self.is_uncountable(trees)
                    },
                    StepError::UnknownResponse(_) => false,
                }
            }
    }

    /// Some feature is split on more often than a counter can tell.
    pub open spec fn is_uncountable(&self, trees: Seq<TreeModel>) -> bool {
        exists|f: int| 0 <= f < self.data.x.width() && #[trigger] splits_on(trees, f) > u32::MAX
    }

    /// A step fails where no strategy goes by the configured name, or on its way through the
    /// batch.
    pub open spec fn is_failure(
        &self,
        from: SmallRng,
        before: StateModel,
        e: StepError,
        to: SmallRng,
    ) -> bool {
        let named = strategy_named(lowercase(self.config.response@));
        match e {
            StepError::UnknownResponse(message) => {
                &&& named is None
                &&& to == from
                &&& message@ == unknown_strategy(self.config.response@)
            },
            _ => {
                &&& named is Some
                &&& exists|size: int| #[trigger]
                    self.is_batch_size(before.tune, size) && self.is_batch_error(
                        from,
                        named->0,
                        before,
                        size,
                        e,
                        to,
                    )
            },
        }
    }

    /// The counters have room for a step from `state`, and its standard deviations are those
    /// of at least one sample.
    pub open spec fn counters_ok(&self, state: StateModel) -> bool {
        let m = max_nodes(self.config.max_depth as nat);
        &&& state.next_tree_idx + self.config.n_trees <= usize::MAX
        &&& state.iter + self.config.n_trees <= usize::MAX
        &&& state.stump_count + self.config.n_trees <= usize::MAX
        &&& state.tune ==> {
            &&& state.running_sd.count + self.config.n_trees <= usize::MAX
            &&& self.data.x.height() > 0
        }
        &&& self.config.n_trees * (m * (self.config.n_particles - 1)) <= usize::MAX
    }

    /// The sampler can move on from `state`.
    pub open spec fn can_step(&self, state: StateModel) -> bool {
        &&& self.ready()
        &&& self.state_ok(state)
        &&& self.counters_ok(state)
    }
}

/// One more log-likelihood in a sum.
proof fn lemma_sum_grows<N: Numerics>(
    num: &N,
    infos: Seq<SmcStepInfo>,
    info: SmcStepInfo,
    before: Binary64,
    after: Binary64,
)
    requires
        is_running_sum(num, log_likelihoods(infos), before),
        is_sum(num, before, info.log_likelihood, after),
    ensures
        is_running_sum(num, log_likelihoods(infos.push(info)), after),
{
    let all = log_likelihoods(infos.push(info));
    assert(all.drop_last() =~= log_likelihoods(infos));
    assert(all.last() == info.log_likelihood);
    assert(is_sum(num, before, all.last(), after));
}

impl<N: Numerics, S: SplitRule, R: ResamplingStrategy, W: WeightFn> BartKernel<N, S, R, W> {
    /// Replaces `size` trees in turn.
    fn replace_batch(
        &self,
        rng: &mut SmallRng,
        response: &ResponseStrategies,
        state: &mut BartState,
        size: usize,
    ) -> (r: Result<(BartInfo, Vec<u32>), StepError>)
        requires
            self.can_step(old(state)@),
            size <= self.config.n_trees,
        ensures
            match r {
                Ok((info, counts)) => {
                    &&& info.batch_start == old(state).next_tree_idx
                    &&& info.batch_size == size
                    &&& exists|
                        pred: Matrix,
                        infos: Seq<SmcStepInfo>,
                        trees: Seq<TreeModel>,
                    |
                        {
                            &&& #[trigger] self.is_batch(
                                *old(rng),
                                *response,
                                old(state)@,
                                size as nat,
                                final(state)@,
                                pred,
                                infos,
                                trees,
                                *final(rng),
                            )
                            &&& self.is_report(infos, trees, info)
                            &&& self.are_inclusions(old(state).tune, trees, counts@)
                        }
                    &&& self.state_ok(final(state)@)
                    &&& self.forest_tidy(old(state)@) ==> self.forest_tidy(final(state)@)
                    &&& final(state).next_tree_idx == old(state).next_tree_idx
                },
                Err(e) => {
                    &&& !(e is UnknownResponse)
                    &&& self.is_batch_error(
                        *old(rng),
                        *response,
                        old(state)@,
                        size as int,
                        e,
                        *final(rng),
                    )
                },
            },
    {
        let ghost start = state@;
        let ghost from = *rng;
        let n_trees = self.config.n_trees;
        let zero = Binary64 { bits: ZERO_BITS };
        let mut pred = Matrix::filled(self.config.n_outputs, self.data.n_samples(), zero);
        let mut log_likelihood = zero;
        let mut acceptance_count: usize = 0;
        let mut tree_depths: Vec<u8> = Vec::new();
        let mut counts = zeros(self.data.n_features());
        let ghost mut infos: Seq<SmcStepInfo> = Seq::empty();
        let ghost mut trees: Seq<TreeModel> = Seq::empty();
        let ghost m = max_nodes(self.config.max_depth as nat);
        let ghost most = m * (self.config.n_particles - 1);
        proof {
            assert(log_likelihoods(infos) =~= Seq::empty());
            assert(self.is_batch(from, *response, start, 0, state@, pred, infos, trees, *rng));
            vstd::arithmetic::power2::lemma_pow2_pos((self.config.max_depth + 1) as nat);
            assert(0 <= most) by (nonlinear_arith)
                requires
                    most == m * (self.config.n_particles - 1),
                    m >= 0,
                    self.config.n_particles >= 1,
            ;
        }
        for k in 0..size
            invariant
                self.can_step(start),
                n_trees == self.config.n_trees,
                size <= n_trees,
                m == max_nodes(self.config.max_depth as nat),
                m >= 0,
                most == m * (self.config.n_particles - 1),
                0 <= most,
                start == old(state)@,
                from == *old(rng),
                self.is_batch(from, *response, start, k as nat, state@, pred, infos, trees, *rng),
                self.state_ok(state@),
                self.forest_tidy(start) ==> self.forest_tidy(state@),
                state.next_tree_idx == start.next_tree_idx,
                state.tune == start.tune,
                state.iter == start.iter + k,
                state.stump_count <= start.stump_count + k,
                state.tune ==> state.running_sd.count == start.running_sd.count + k,
                pred.height() == self.config.n_outputs,
                pred.width() == self.data.x.height(),
                is_running_sum(&self.num, log_likelihoods(infos), log_likelihood),
                acceptance_count == total_accepted(infos),
                acceptance_count <= k * most,
                self.are_depths(trees, tree_depths@),
                self.are_inclusions(start.tune, trees, counts@),
        {
            let tree_idx: usize = (state.next_tree_idx + k) % n_trees;
            let ghost before = state@;
            let ghost before_pred = pred;
            let ghost before_infos = infos;
            let ghost before_trees = trees;
            let ghost between = *rng;
            proof {
                assert(most <= n_trees * most) by (nonlinear_arith)
                    requires
                        n_trees >= 1,
                        most >= 0,
                ;
                assert(k * most + most == (k + 1) * most) by (nonlinear_arith);
                assert((k + 1) * most <= n_trees * most) by (nonlinear_arith)
                    requires
                        k + 1 <= n_trees,
                        most >= 0,
                ;
            }
            let info = match self.update_tree(rng, response, state, &mut pred, tree_idx) {
                Ok(info) => info,
                Err(e) => {
                    assert(self.is_batch(
                        from,
                        *response,
                        start,
                        k as nat,
                        before,
                        before_pred,
                        before_infos,
                        before_trees,
                        between,
                    ));
                    return Err(e);
                },
            };
            let ghost t = state@.forest[tree_idx as int];
            proof {
                infos = infos.push(info);
                trees = trees.push(t);
                assert(infos.drop_last() =~= before_infos);
                assert(trees.drop_last() =~= before_trees);
                assert(self.is_tree_step(
                    between,
                    *response,
                    before,
                    before_pred,
                    tree_idx as int,
                    state@,
                    pred,
                    infos.last(),
                    *rng,
                ));
                assert(tree_idx == turn(start.next_tree_idx as int, k as int, n_trees as int));
                assert(self.is_batch_after(
                    from,
                    *response,
                    start,
                    k as nat,
                    before,
                    before_pred,
                    infos.drop_last(),
                    trees.drop_last(),
                    between,
                ));
                assert(((k + 1) as nat - 1) as nat == k as nat);
                assert(self.is_batch(
                    from,
                    *response,
                    start,
                    (k + 1) as nat,
                    state@,
                    pred,
                    infos,
                    trees,
                    *rng,
                ));
            }
            let sum = self.num.plus(log_likelihood, info.log_likelihood);
            proof {
                assert(is_sum(&self.num, log_likelihood, info.log_likelihood, sum));
                lemma_sum_grows(&self.num, before_infos, info, log_likelihood, sum);
            }
            log_likelihood = sum;
            acceptance_count = acceptance_count + info.acceptance_count;
            assert(t == state.forest@[tree_idx as int]@);
            assert(self.tree_ok(t));
            let depth = tree_depth(&state.forest[tree_idx]);
            tree_depths.push(depth);
            let ghost before_counts = counts@;
            if !state.tune && !count_splits(&state.forest[tree_idx], &mut counts) {
                proof {
                    let f = choose|f: int|
                        0 <= f < before_counts.len() && #[trigger] before_counts[f] + split_count(
                            t,
                            t.size,
                            f,
                        ) > u32::MAX;
                    assert(before_counts[f] == splits_on(before_trees, f));
                    assert(splits_on(trees, f) > u32::MAX);
                    assert(self.is_uncountable(trees));
                }
                return Err(StepError::CountOverflow);
            }
            assert forall|f: int| 0 <= f < counts@.len() implies #[trigger] counts@[f]
                == if start.tune {
                0
            } else {
                splits_on(trees, f) as int
            } by {
                assert(before_counts[f] == if start.tune {
                    0
                } else {
                    splits_on(before_trees, f) as int
                });
            }
        }
        let info = BartInfo {
            log_likelihood,
            acceptance_count,
            tree_depths,
            batch_start: state.next_tree_idx,
            batch_size: size,
        };
        assert(self.is_report(infos, trees, info));
        Ok((info, counts))
    }

    /// Replaces a batch of trees, the next ones in turn.
    pub fn take_step(&self, rng: &mut SmallRng, state: BartState) -> (r: Result<
        (BartState, BartInfo),
        StepError,
    >)
        requires
            self.can_step(state@),
        ensures
            match r {
                Ok((after, info)) => {
                    &&& self.is_step(*old(rng), state@, after@, info, *final(rng))
                    &&& self.state_ok(after@)
                    &&& self.forest_tidy(state@) ==> self.forest_tidy(after@)
                    &&& after.next_tree_idx < self.config.n_trees
                },
                Err(e) => self.is_failure(*old(rng), state@, e, *final(rng)),
            },
    {
        let ghost from = *rng;
        let ghost before = state@;
        let mut state = state;
        let n_trees = self.config.n_trees;
        let response = match ResponseStrategies::from_name(self.config.response.as_str()) {
            Ok(response) => response,
            Err(message) => {
                return Err(StepError::UnknownResponse(message));
            },
        };
        let fraction = if state.tune {
            self.config.batch_tune
        } else {
            self.config.batch_post
        };
        let part = self.num.times(fraction, Binary64::from_count(n_trees));
        assert(is_product(
            &self.num,
            self.batch_fraction(before.tune),
            count_number(n_trees as nat),
            part,
        ));
        let size = batch_size(part, n_trees);
        assert(self.is_batch_size(before.tune, size as int));
        let (info, counts) = match self.replace_batch(rng, &response, &mut state, size) {
            Ok(done) => done,
            Err(e) => {
                return Err(e);
            },
        };
        let ghost done = state@;
        state.variable_inclusion = counts;
        state.next_tree_idx = (state.next_tree_idx + size) % n_trees;
        proof {
            let (pred, infos, trees) = choose|
                pred: Matrix,
                infos: Seq<SmcStepInfo>,
                trees: Seq<TreeModel>,
            |
                {
                    &&& #[trigger] self.is_batch(
                        from,
                        response,
                        before,
                        size as nat,
                        done,
                        pred,
                        infos,
                        trees,
                        *rng,
                    )
                    &&& self.is_report(infos, trees, info)
                    &&& self.are_inclusions(before.tune, trees, counts@)
                };
            assert(self.is_batch(
                from,
                response,
                before,
                info.batch_size as nat,
                done,
                pred,
                infos,
                trees,
                *rng,
            ));
            assert(state@ =~= StateModel {
                next_tree_idx: turn(
                    before.next_tree_idx as int,
                    info.batch_size as int,
                    self.config.n_trees as int,
                ) as usize,
                variable_inclusion: state@.variable_inclusion,
                ..done
            });
        }
        Ok((state, info))
    }
}

/// An algorithm that moves a state from step to step.
pub trait SamplingAlgorithm {
    type State;

    type Info;

    type Error;

    /// The algorithm can make a state.
    spec fn can_init(&self) -> bool;

    /// `state` is one to start from.
    spec fn is_start(&self, state: Self::State) -> bool;

    /// What making a state does to the source of chance.
    spec fn is_init_rng(&self, before: SmallRng, after: SmallRng) -> bool;

    /// The algorithm can move on from `state`.
    spec fn can_move(&self, state: Self::State) -> bool;

    /// `r` may come of moving on from `state`, with draws that take the source of chance from
    /// `from` to `to`.
    spec fn is_move(
        &self,
        from: SmallRng,
        state: Self::State,
        r: Result<(Self::State, Self::Info), Self::Error>,
        to: SmallRng,
    ) -> bool;

    /// Makes a state to start from.
    fn init(&self, rng: &mut SmallRng) -> (r: Self::State)
        requires
            self.can_init(),
        ensures
            self.is_start(r),
            self.is_init_rng(*old(rng), *final(rng)),
    ;

    /// Moves on from a state.
    fn step(&self, rng: &mut SmallRng, state: Self::State) -> (r: Result<
        (Self::State, Self::Info),
        Self::Error,
    >)
        requires
            self.can_move(state),
        ensures
            self.is_move(*old(rng), state, r, *final(rng)),
    ;
}

impl<
    N: Numerics,
    S: SplitRule,
    R: ResamplingStrategy,
    W: WeightFn,
> SamplingAlgorithm for BartKernel<N, S, R, W> {
    type State = BartState;

    type Info = BartInfo;

    type Error = StepError;

    open spec fn can_init(&self) -> bool {
        self.sized()
    }

    open spec fn is_start(&self, state: BartState) -> bool {
        &&& self.is_initial(state@)
        &&& self.is_untouched(state@)
        &&& self.state_ok(state@)
        &&& self.forest_tidy(state@)
    }

    open spec fn is_init_rng(&self, before: SmallRng, after: SmallRng) -> bool {
        after == before
    }

    open spec fn can_move(&self, state: BartState) -> bool {
        self.can_step(state@)
    }

    open spec fn is_move(
        &self,
        from: SmallRng,
        state: BartState,
        r: Result<(BartState, BartInfo), StepError>,
        to: SmallRng,
    ) -> bool {
        match r {
            Ok((after, info)) => {
                &&& self.is_step(from, state@, after@, info, to)
                &&& self.state_ok(after@)
                &&& self.forest_tidy(state@) ==> self.forest_tidy(after@)
                &&& after.next_tree_idx < self.config.n_trees
            },
            Err(e) => self.is_failure(from, state@, e, to),
        }
    }

    fn init(&self, rng: &mut SmallRng) -> (r: BartState) {
        self.initial_state()
    }

    fn step(&self, rng: &mut SmallRng, state: BartState) -> (r: Result<
        (BartState, BartInfo),
        StepError,
    >) {
        self.take_step(rng, state)
    }
}

/// A sampler whose strategies are hidden.
pub trait ErasedKernel {
    /// The sampler can make a state.
    spec fn erased_can_init(&self) -> bool;

    /// `state` is one to start from.
    spec fn erased_is_start(&self, state: BartState) -> bool;

    /// What making a state does to the source of chance.
    spec fn erased_is_init_rng(&self, before: SmallRng, after: SmallRng) -> bool;

    /// The sampler can move on from `state`.
    spec fn erased_can_move(&self, state: BartState) -> bool;

    /// `r` may come of moving on from `state`, with draws that take the source of chance from
    /// `from` to `to`.
    spec fn erased_is_move(
        &self,
        from: SmallRng,
        state: BartState,
        r: Result<(BartState, BartInfo), StepError>,
        to: SmallRng,
    ) -> bool;

    /// Makes a state to start from.
    fn init(&self, rng: &mut SmallRng) -> (r: BartState)
        requires
            self.erased_can_init(),
        ensures
            self.erased_is_start(r),
            self.erased_is_init_rng(*old(rng), *final(rng)),
    ;

    /// Moves on from a state.
    fn step(&self, rng: &mut SmallRng, state: BartState) -> (r: Result<
        (BartState, BartInfo),
        StepError,
    >)
        requires
            self.erased_can_move(state),
        ensures
            self.erased_is_move(*old(rng), state, r, *final(rng)),
    ;
}

impl<
    N: Numerics,
    S: SplitRule,
    R: ResamplingStrategy,
    W: WeightFn,
> ErasedKernel for BartKernel<N, S, R, W> {
    open spec fn erased_can_init(&self) -> bool {
        self.can_init()
    }

    open spec fn erased_is_start(&self, state: BartState) -> bool {
        self.is_start(state)
    }

    open spec fn erased_is_init_rng(&self, before: SmallRng, after: SmallRng) -> bool {
        self.is_init_rng(before, after)
    }

    open spec fn erased_can_move(&self, state: BartState) -> bool {
        self.can_move(state)
    }

    open spec fn erased_is_move(
        &self,
        from: SmallRng,
        state: BartState,
        r: Result<(BartState, BartInfo), StepError>,
        to: SmallRng,
    ) -> bool {
        self.is_move(from, state, r, to)
    }

    fn init(&self, rng: &mut SmallRng) -> (r: BartState) {
        SamplingAlgorithm::init(self, rng)
    }

    fn step(&self, rng: &mut SmallRng, state: BartState) -> (r: Result<
        (BartState, BartInfo),
        StepError,
    >) {
        SamplingAlgorithm::step(self, rng, state)
    }
}

/// Whether a product stays within a limit.
fn product_within(a: usize, b: usize, limit: usize) -> (r: bool)
    ensures
        r == (a * b <= limit),
{
    match a.checked_mul(b) {
        Some(product) => product <= limit,
        None => false,
    }
}

/// Whether an array of this shape can be laid out in memory.
pub fn is_allocatable(rows: usize, columns: usize) -> (r: bool)
    ensures
        r == can_allocate(rows as int, columns as int),
{
    let a: usize = if rows == 0 {
        1
    } else {
        rows
    };
    let b: usize = if columns == 0 {
        1
    } else {
        columns
    };
    let limit: usize = isize::MAX as usize;
    assert(rows * columns * 8 <= isize::MAX <==> rows * columns <= limit / 8);
    product_within(a, b, limit) && product_within(rows, columns, limit / 8)
}

impl<N: Numerics, S: SplitRule, R: ResamplingStrategy, W: WeightFn> BartKernel<N, S, R, W> {
    /// Whether the trees and arrays that the settings ask for can be held.
    pub fn is_sized(&self) -> (r: bool)
        ensures
            r == self.sized(),
    {
        let depth = self.config.max_depth;
        if depth > 31 || depth as u32 + 1 >= usize::BITS {
            return false;
        }
        let nodes = max_nodes_for_depth(depth);
        let outputs: usize = if self.config.n_outputs == 0 {
            1
        } else {
            self.config.n_outputs
        };
        is_allocatable(self.config.n_outputs, self.data.n_samples()) && product_within(
            nodes,
            outputs,
            usize::MAX,
        )
    }

    /// Whether data and settings fit together, so that trees can be grown.
    pub fn is_ready(&self) -> (r: bool)
        ensures
            r == self.ready(),
    {
        let rows = self.data.n_samples();
        let columns = self.data.n_features();
        let probs = match &self.config.splitting_probs {
            Some(_) => true,
            None => false,
        };
        let can_choose = columns > 0 || probs || rows == 0 || self.config.max_depth == 0
            || self.config.n_particles == 1;
        self.is_sized() && rows <= u32::MAX as usize && columns <= u32::MAX as usize && can_choose
            && self.split_rules.len() >= columns && self.config.n_trees >= 1
            && self.config.n_particles >= 1
    }

    /// Whether the counters have room for a step.
    pub fn has_room(&self, state: &BartState) -> (r: bool)
        requires
            self.ready(),
        ensures
            r == self.counters_ok(state@),
    {
        let n: usize = self.config.n_trees;
        let nodes = max_nodes_for_depth(self.config.max_depth);
        if n > usize::MAX - state.next_tree_idx || n > usize::MAX - state.iter || n > usize::MAX
            - state.stump_count {
            return false;
        }
        if state.tune {
            if n > usize::MAX - state.running_sd.count || self.data.n_samples() == 0 {
                return false;
            }
        }
        match nodes.checked_mul(self.config.n_particles - 1) {
            Some(most) => product_within(n, most, usize::MAX),
            None => {
                proof {
                    let most = nodes * (self.config.n_particles - 1);
                    assert(n * most >= most) by (nonlinear_arith)
                        requires
                            n >= 1,
                            most >= 0,
                    ;
                }
                false
            },
        }
    }
}

} // verus!
