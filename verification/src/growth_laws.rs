//! What a replacement tree is grown, scored and drawn by.
use crate::binary64::{count_number, Binary64, ZERO_BITS};
use crate::config::BartConfig;
use crate::data::is_mean_response;
use crate::draws::{are_ancestors, is_weighted_draw, law_ancestors_draw, law_weighted_draw};
use crate::matrix::{
    flattened, flattened_rows, is_matrix_difference, is_matrix_sum, Matrix,
};
use crate::numerics::{is_difference, is_product, is_quotient, is_sum, Numerics};
use crate::particle::ParticleModel;
use crate::predict::{is_training_prediction, is_training_value};
use crate::resampling::ResamplingStrategy;
use crate::response::{LeafKind, ResponseStrategy};
use crate::smc::{
    are_normalized, count_set, descendants, fresh_particle, is_blank, is_tree_prediction,
    is_waiting, log_weights, trees_of, valid_ancestors, SmcInputs, SmcStepInfo,
};
use crate::smc_laws::{choose_outcome, choose_round, law_population_size};
use crate::splitting::SplitRule;
use crate::tree_model::{or_zero, TreeModel};
use crate::weight::{is_log_weight, WeightFn};
use rand::rngs::SmallRng;
use vstd::prelude::*;

verus! {

/// Tree `t` answers `v` as output `o` of training sample `s`: the stored value of the leaf
/// that the sample is in, or the point of the leaf's line at the sample, or the intercept
/// where the feature of the line is missing.
pub open spec fn answers<N: Numerics>(
    num: &N,
    t: TreeModel,
    x: Matrix,
    o: int,
    s: int,
    v: Binary64,
) -> bool {
    let leaf = t.leaf_indices[s] as int;
    let line = t.leaf_param_idx[leaf] as int;
    if LeafKind::of_code(t.leaf_kind[leaf]) == LeafKind::Gaussian {
        v == t.leaf_val[leaf * t.n_outputs + o]
    } else if t.leaf_param_idx[leaf] != usize::MAX {
        let feature = x.at(s, t.linear_var[line] as int);
        let intercept = or_zero(t.linear_intercept[line], o);
        if feature.is_nan_spec() {
            v == intercept
        } else {
            exists|rise: Binary64|
                {
                    &&& call_ensures(
                        N::times,
                        (num, or_zero(t.linear_slope[line], o), feature),
                        rise,
                    )
                    &&& #[trigger] call_ensures(N::plus, (num, intercept, rise), v)
                }
        }
    } else {
        true
    }
}

/// `r` is what the model is asked about for output `o` of sample `s`: what tree `t` answers
/// plus what all `others` predict.
pub open spec fn is_together<N: Numerics>(
    num: &N,
    t: TreeModel,
    x: Matrix,
    others: Matrix,
    o: int,
    s: int,
    r: Binary64,
) -> bool {
    exists|v: Binary64|
        {
            &&& #[trigger] answers(num, t, x, o, s, v)
            &&& call_ensures(N::plus, (num, v, others.at(o, s)), r)
        }
}

/// `r` is what all trees but `t` predict as output `o` of sample `s`: the sum of all minus
/// what `t` answers.
pub open spec fn is_without<N: Numerics>(
    num: &N,
    sum_trees: Matrix,
    t: TreeModel,
    x: Matrix,
    o: int,
    s: int,
    r: Binary64,
) -> bool {
    exists|v: Binary64|
        {
            &&& #[trigger] answers(num, t, x, o, s, v)
            &&& call_ensures(N::minus, (num, sum_trees.at(o, s), v), r)
        }
}

/// `others` is, number by number, the sum of the trees minus what `current` answers.
pub open spec fn is_rest<
    'a,
    N: Numerics,
    S: SplitRule,
    P: ResponseStrategy<N>,
    R: ResamplingStrategy,
    W: WeightFn,
>(inputs: SmcInputs<'a, N, S, P, R, W>, current: TreeModel, others: Matrix) -> bool {
    &&& others.same_shape(*inputs.sum_trees)
    &&& forall|o: int, s: int|
        0 <= o < others.height() && 0 <= s < others.width() ==> is_without(
            inputs.num,
            *inputs.sum_trees,
            current,
            inputs.data.x,
            o,
            s,
            #[trigger] others.at(o, s),
        )
}

/// `w` is what the model says of tree `t` in place of the current one: the log-weight of the
/// numbers that the tree answers plus what all `others` predict, row after row.
pub open spec fn is_score<
    'a,
    N: Numerics,
    S: SplitRule,
    P: ResponseStrategy<N>,
    R: ResamplingStrategy,
    W: WeightFn,
>(inputs: SmcInputs<'a, N, S, P, R, W>, others: Matrix, t: TreeModel, w: Binary64) -> bool {
    let rows = inputs.config.n_outputs as int;
    let columns = inputs.data.x.height() as int;
    exists|predictions: &Vec<Binary64>|
        {
            &&& #[trigger] call_ensures(W::log_weight, (inputs.weight_fn, predictions), w)
            &&& predictions@.len() == rows * columns
            &&& forall|o: int, s: int, k: int|
                #![trigger others.at(o, s), predictions@[k]]
                0 <= o < rows && 0 <= s < columns && k == o * columns + s ==> is_together(
                    inputs.num,
                    t,
                    inputs.data.x,
                    others,
                    o,
                    s,
                    predictions@[k],
                )
        }
}

/// The numbers of an array in one sequence: number `j` of row `i` comes after all rows before
/// and `j` numbers of its own.
proof fn lemma_flattened_at(m: Matrix, n: nat, i: int, j: int)
    requires
        0 <= i < n,
        0 <= j < m.width(),
    ensures
        flattened_rows(m, n).len() == n * m.width(),
        flattened_rows(m, n)[i * m.width() + j] == m.at(i, j),
        0 <= i * m.width() + j < n * m.width(),
    decreases n,
{
    let w = m.width() as int;
    lemma_flattened_len(m, (n - 1) as nat);
    lemma_flattened_len(m, n);
    assert(i * w >= 0) by (nonlinear_arith)
        requires
            i >= 0,
            w >= 0,
    ;
    if i < n - 1 {
        lemma_flattened_at(m, (n - 1) as nat, i, j);
        assert((n - 1) * w <= n * w) by (nonlinear_arith)
            requires
                w >= 0,
        ;
    } else {
        assert((n - 1) * w + w == n * w) by (nonlinear_arith);
        assert(flattened_rows(m, n)[i * w + j] == m.row(i)[j]);
    }
}

proof fn lemma_flattened_len(m: Matrix, n: nat)
    ensures
        flattened_rows(m, n).len() == n * m.width(),
    decreases n,
{
    if n > 0 {
        lemma_flattened_len(m, (n - 1) as nat);
        let w = m.width() as int;
        assert((n - 1) * w + w == n * w) by (nonlinear_arith);
    } else {
        assert(0 * m.width() == 0) by (nonlinear_arith);
    }
}

/// Predicting the training samples writes what the tree answers.
pub proof fn law_training_predictions_are_answers<N: Numerics>(
    num: &N,
    t: TreeModel,
    x: Matrix,
    before: Matrix,
    after: Matrix,
    o: int,
    s: int,
)
    requires
        is_training_prediction(num, t, Some(&x), before, after),
        0 <= o < after.height(),
        0 <= s < after.width(),
    ensures
        answers(num, t, x, o, s, after.at(o, s)),
{
    let leaf = t.leaf_indices[s] as int;
    assert(is_training_value(
        num,
        t,
        leaf,
        s,
        o,
        Some(&x),
        before.at(o, s),
        after.at(o, s),
    ));
    if t.has_line(leaf) && !x.at(s, t.line_var(leaf)).is_nan_spec() {
        let v = x.at(s, t.line_var(leaf));
        let p = choose|p: Binary64|
            is_product(num, t.line_slope(leaf, o), v, p) && #[trigger] is_sum(
                num,
                t.line_intercept(leaf, o),
                p,
                after.at(o, s),
            );
        assert(call_ensures(N::plus, (num, t.line_intercept(leaf, o), p), after.at(o, s)));
    }
}

/// What the log-weight of a tree is computed from.
proof fn lemma_log_weight_is_score<
    'a,
    N: Numerics,
    S: SplitRule,
    P: ResponseStrategy<N>,
    R: ResamplingStrategy,
    W: WeightFn,
>(inputs: SmcInputs<'a, N, S, P, R, W>, others: Matrix, t: TreeModel, w: Binary64)
    requires
        inputs.is_tree_log_weight(others, t, w),
    ensures
        is_score(inputs, others, t, w),
{
    let rows = inputs.config.n_outputs as nat;
    let x = inputs.data.x;
    let (pred, total) = choose|pred: Matrix, total: Matrix|
        {
            &&& #[trigger] is_tree_prediction(inputs.num, t, x, rows, pred)
            &&& #[trigger] is_matrix_sum(inputs.num, pred, others, total)
            &&& is_log_weight(inputs.weight_fn, flattened(total), w)
        };
    let blank = choose|blank: Matrix|
        #[trigger] is_blank(blank, rows, x.height()) && is_training_prediction(
            inputs.num,
            t,
            Some(&x),
            blank,
            pred,
        );
    let v = choose|v: &Vec<Binary64>|
        v@ == flattened(total) && #[trigger] call_ensures(
            W::log_weight,
            (inputs.weight_fn, v),
            w,
        );
    lemma_flattened_len(total, rows);
    let columns = x.height() as int;
    assert forall|o: int, s: int, k: int|
        #![trigger others.at(o, s), v@[k]]
        0 <= o < rows && 0 <= s < columns && k == o * columns + s implies is_together(
        inputs.num,
        t,
        x,
        others,
        o,
        s,
        v@[k],
    ) by {
        lemma_flattened_at(total, rows, o, s);
        law_training_predictions_are_answers(inputs.num, t, x, blank, pred, o, s);
        assert(is_sum(inputs.num, pred.at(o, s), others.at(o, s), total.at(o, s)));
    }
}

/// What all trees but the current one predict is the sum of all minus what it answers.
proof fn lemma_remainder_is_rest<
    'a,
    N: Numerics,
    S: SplitRule,
    P: ResponseStrategy<N>,
    R: ResamplingStrategy,
    W: WeightFn,
>(inputs: SmcInputs<'a, N, S, P, R, W>, current: TreeModel, others: Matrix)
    requires
        inputs.is_remainder(current, others),
        inputs.sum_trees.height() == inputs.config.n_outputs,
        inputs.sum_trees.width() == inputs.data.x.height(),
    ensures
        is_rest(inputs, current, others),
{
    let rows = inputs.config.n_outputs as nat;
    let x = inputs.data.x;
    let pred = choose|pred: Matrix|
        {
            &&& #[trigger] is_tree_prediction(inputs.num, current, x, rows, pred)
            &&& is_matrix_difference(inputs.num, *inputs.sum_trees, pred, others)
        };
    let blank = choose|blank: Matrix|
        #[trigger] is_blank(blank, rows, x.height()) && is_training_prediction(
            inputs.num,
            current,
            Some(&x),
            blank,
            pred,
        );
    assert forall|o: int, s: int|
        0 <= o < others.height() && 0 <= s < others.width() implies is_without(
        inputs.num,
        *inputs.sum_trees,
        current,
        x,
        o,
        s,
        #[trigger] others.at(o, s),
    ) by {
        law_training_predictions_are_answers(inputs.num, current, x, blank, pred, o, s);
        assert(is_difference(
            inputs.num,
            inputs.sum_trees.at(o, s),
            pred.at(o, s),
            others.at(o, s),
        ));
    }
}

/// What happens in a round.
pub struct RoundRecord {
    /// The particles after their visits.
    pub visited: Seq<ParticleModel>,
    /// Which of them were split.
    pub split: Seq<bool>,
    /// The log-weights that the weights are made of.
    pub log_weights: Seq<Binary64>,
    pub weights: Seq<Binary64>,
    pub ancestors: Seq<usize>,
    /// The state of the generator between the visits and the draw of the ancestors.
    pub visited_by: SmallRng,
}

/// What happens in a step.
pub struct StepRecord {
    /// What all trees but the current one predict.
    pub others: Matrix,
    /// The value of the fresh leaves.
    pub value: Binary64,
    /// The particles in the end.
    pub particles: Seq<ParticleModel>,
    /// The state of the generator then.
    pub grown: SmallRng,
    /// The scores of the current tree and of those of the particles.
    pub scores: Seq<Binary64>,
    pub weights: Seq<Binary64>,
    /// Which of them is drawn.
    pub drawn: usize,
}

/// A round resamples by the model: the resampler is asked with the normalised log-weights of
/// the particles. That of a particle which was split in the round is the score of its new
/// tree; one that was not keeps its tree and its log-weight. Each particle of the next round
/// is the one that the resampler names for its place.
pub proof fn law_round_resamples_by_scores<
    'a,
    N: Numerics,
    S: SplitRule,
    P: ResponseStrategy<N>,
    R: ResamplingStrategy,
    W: WeightFn,
>(
    inputs: SmcInputs<'a, N, S, P, R, W>,
    from: SmallRng,
    others: Matrix,
    before: Seq<ParticleModel>,
    after: Seq<ParticleModel>,
    count: nat,
    to: SmallRng,
) -> (r: RoundRecord)
    requires
        inputs.is_round(from, others, before, after, count, to),
    ensures
        inputs.are_all_visited(from, before, r.visited, r.split, r.visited_by),
        r.visited.len() == before.len(),
        r.split.len() == before.len(),
        r.log_weights.len() == before.len(),
        forall|i: int|
            #![trigger r.log_weights[i]]
            0 <= i < before.len() ==> if r.split[i] {
                is_score(inputs, others, r.visited[i].tree, r.log_weights[i])
            } else {
                r.visited[i].tree == before[i].tree && r.log_weights[i] == before[i].log_weight
            },
        are_normalized(inputs.num, r.log_weights, r.weights),
        exists|a: &mut SmallRng, weights: &Vec<Binary64>, ancestors: Vec<usize>|
            {
                &&& *a == r.visited_by
                &&& *final(a) == to
                &&& weights@ == r.weights
                &&& ancestors@ == r.ancestors
                &&& #[trigger] call_ensures(
                    R::resample,
                    (inputs.resampling, a, weights),
                    ancestors,
                )
            },
        after.len() == before.len(),
        r.ancestors.len() == before.len(),
        forall|i: int|
            #![trigger after[i]]
            0 <= i < before.len() ==> {
                &&& r.ancestors[i] < before.len()
                &&& after[i].tree == r.visited[r.ancestors[i] as int].tree
                &&& after[i].expandable == r.visited[r.ancestors[i] as int].expandable
                &&& after[i].log_weight == r.log_weights[r.ancestors[i] as int]
            },
        count == r.split.filter(|flag: bool| flag).len(),
{
    let (visited, accepted, visited_by, weighed, weights, ancestors) = choose|
        visited: Seq<ParticleModel>,
        accepted: Seq<bool>,
        visited_by: SmallRng,
        weighed: Seq<ParticleModel>,
        weights: Seq<Binary64>,
        ancestors: Seq<usize>,
    |
        {
            &&& #[trigger] inputs.are_all_visited(from, before, visited, accepted, visited_by)
            &&& #[trigger] inputs.are_weighed(others, visited, accepted, weighed)
            &&& #[trigger] are_normalized(inputs.num, log_weights(weighed), weights)
            &&& #[trigger] are_ancestors(inputs.resampling, weights, visited_by, ancestors, to)
            &&& valid_ancestors(ancestors, before.len())
            &&& after == descendants(weighed, ancestors)
            &&& count == count_set(accepted)
        };
    let states = choose|states: Seq<SmallRng>|
        {
            &&& #[trigger] inputs.are_visits(states, before, visited, accepted)
            &&& states[0] == from
            &&& states.last() == visited_by
        };
    let used = log_weights(weighed);
    assert forall|i: int| #![trigger used[i]] 0 <= i < before.len() implies if accepted[i] {
        is_score(inputs, others, visited[i].tree, used[i])
    } else {
        visited[i].tree == before[i].tree && used[i] == before[i].log_weight
    } by {
        assert(used[i] == weighed[i].log_weight);
        assert(inputs.is_visit(states[i], before[i], visited[i], accepted[i], states[i + 1]));
        if accepted[i] {
            assert(weighed[i] == (ParticleModel {
                log_weight: weighed[i].log_weight,
                ..visited[i]
            }));
            lemma_log_weight_is_score(inputs, others, visited[i].tree, used[i]);
        } else {
            assert(weighed[i] == visited[i]);
        }
    }
    assert forall|i: int| #![trigger after[i]] 0 <= i < before.len() implies {
        &&& ancestors[i] < before.len()
        &&& after[i].tree == visited[ancestors[i] as int].tree
        &&& after[i].expandable == visited[ancestors[i] as int].expandable
        &&& after[i].log_weight == used[ancestors[i] as int]
    } by {
        let j = ancestors[i] as int;
        assert(after[i] == weighed[j]);
        assert(used[j] == weighed[j].log_weight);
        if accepted[j] {
            assert(weighed[j] == (ParticleModel {
                log_weight: weighed[j].log_weight,
                ..visited[j]
            }));
        } else {
            assert(weighed[j] == visited[j]);
        }
    }
    law_ancestors_draw(inputs.resampling, weights, visited_by, ancestors, to);
    lemma_count_of_flags(accepted);
    RoundRecord {
        visited,
        split: accepted,
        log_weights: used,
        weights,
        ancestors,
        visited_by,
    }
}

proof fn lemma_count_of_flags(flags: Seq<bool>)
    ensures
        count_set(flags) == flags.filter(|flag: bool| flag).len(),
    decreases flags.len(),
{
    reveal(Seq::filter);
    if flags.len() > 0 {
        lemma_count_of_flags(flags.drop_last());
    }
}

/// A particle carries the score of its tree. One that has not been split yet has the single
/// leaf that it started with, and the log-weight zero.
pub open spec fn carries_its_score<
    'a,
    N: Numerics,
    S: SplitRule,
    P: ResponseStrategy<N>,
    R: ResamplingStrategy,
    W: WeightFn,
>(
    inputs: SmcInputs<'a, N, S, P, R, W>,
    others: Matrix,
    start: TreeModel,
    p: ParticleModel,
) -> bool {
    ||| is_score(inputs, others, p.tree, p.log_weight)
    ||| p.tree == start && p.log_weight == (Binary64 { bits: ZERO_BITS })
}

/// Every particle that a run comes to carries the score of its tree.
pub proof fn law_particles_carry_their_scores<
    'a,
    N: Numerics,
    S: SplitRule,
    P: ResponseStrategy<N>,
    R: ResamplingStrategy,
    W: WeightFn,
>(
    inputs: SmcInputs<'a, N, S, P, R, W>,
    from: SmallRng,
    others: Matrix,
    start: ParticleModel,
    rounds: nat,
    particles: Seq<ParticleModel>,
    count: nat,
    to: SmallRng,
)
    requires
        start.log_weight == (Binary64 { bits: ZERO_BITS }),
        inputs.is_population(from, others, start, rounds, particles, count, to),
    ensures
        forall|i: int|
            0 <= i < particles.len() ==> carries_its_score(
                inputs,
                others,
                start.tree,
                #[trigger] particles[i],
            ),
    decreases rounds,
{
    if rounds > 0 {
        let (before, more, between) = choose_round(
            inputs,
            from,
            others,
            start,
            rounds,
            particles,
            count,
            to,
        );
        law_particles_carry_their_scores(
            inputs,
            from,
            others,
            start,
            (rounds - 1) as nat,
            before,
            (count - more) as nat,
            between,
        );
        let r = law_round_resamples_by_scores(
            inputs,
            between,
            others,
            before,
            particles,
            more,
            to,
        );
        assert forall|i: int| 0 <= i < particles.len() implies carries_its_score(
            inputs,
            others,
            start.tree,
            #[trigger] particles[i],
        ) by {
            let j = r.ancestors[i] as int;
            assert(particles[i].log_weight == r.log_weights[j]);
            assert(carries_its_score(inputs, others, start.tree, before[j]));
        }
    }
}

/// A step replaces a tree by the model. All but the current tree are taken to predict the sum
/// of all minus what it answers. Fresh particles, single leaves with the share of one tree in
/// the mean response, grow by rounds, and every one carries the score of its tree. In the end
/// the current tree and those of the particles are scored, and one of them is drawn by the
/// normalised scores; the score of the drawn one is reported.
pub proof fn law_step_draws_by_scores<
    'a,
    N: Numerics,
    S: SplitRule,
    P: ResponseStrategy<N>,
    R: ResamplingStrategy,
    W: WeightFn,
>(
    inputs: SmcInputs<'a, N, S, P, R, W>,
    from: SmallRng,
    current: TreeModel,
    tree: TreeModel,
    info: SmcStepInfo,
    to: SmallRng,
) -> (r: StepRecord)
    requires
        inputs.is_step(from, current, tree, info, to),
        inputs.config.n_particles >= 1,
        inputs.sum_trees.height() == inputs.config.n_outputs,
        inputs.sum_trees.width() == inputs.data.x.height(),
    ensures
        is_rest(inputs, current, r.others),
        exists|mean: Binary64|
            is_mean_response(inputs.num, inputs.data.y, mean) && #[trigger] call_ensures(
                N::over,
                (inputs.num, mean, count_number(inputs.config.n_trees as nat)),
                r.value,
            ),
        exists|rounds: nat| #[trigger]
            inputs.is_population(
                from,
                r.others,
                fresh_particle(*inputs.config, inputs.data.x.height(), r.value),
                rounds,
                r.particles,
                info.acceptance_count as nat,
                r.grown,
            ),
        forall|i: int|
            0 <= i < r.particles.len() ==> (#[trigger] r.particles[i]).expandable.len() == 0,
        r.particles.len() == inputs.config.n_particles - 1,
        forall|i: int|
            0 <= i < r.particles.len() ==> carries_its_score(
                inputs,
                r.others,
                fresh_particle(*inputs.config, inputs.data.x.height(), r.value).tree,
                #[trigger] r.particles[i],
            ),
        r.scores.len() == inputs.config.n_particles,
        is_score(inputs, r.others, current, r.scores[0]),
        forall|i: int|
            0 <= i < r.particles.len() ==> is_score(
                inputs,
                r.others,
                (#[trigger] r.particles[i]).tree,
                r.scores[i + 1],
            ),
        are_normalized(inputs.num, r.scores, r.weights),
        exists|a: &mut SmallRng, weights: &Vec<Binary64>|
            {
                &&& *a == r.grown
                &&& *final(a) == to
                &&& weights@ == r.weights
                &&& #[trigger] call_ensures(
                    N::weighted_index,
                    (inputs.num, a, weights),
                    Some(r.drawn),
                )
            },
        r.drawn < inputs.config.n_particles,
        tree == if r.drawn == 0 {
            current
        } else {
            r.particles[r.drawn - 1].tree
        },
        info.log_likelihood == r.scores[r.drawn as int],
{
    let (others, value, particles, rounds, grown) = choose_outcome(
        inputs,
        from,
        current,
        tree,
        info,
        to,
    );
    let start = fresh_particle(*inputs.config, inputs.data.x.height(), value);
    let count = info.acceptance_count as nat;
    lemma_remainder_is_rest(inputs, current, others);
    law_population_size(inputs, from, others, start, rounds, particles, count, grown);
    law_particles_carry_their_scores(inputs, from, others, start, rounds, particles, count, grown);
    let trees = seq![current] + trees_of(particles);
    let (scores, weights, idx) = choose|
        scores: Seq<Binary64>,
        weights: Seq<Binary64>,
        idx: usize,
    |
        {
            &&& #[trigger] inputs.are_tree_log_weights(others, trees, scores)
            &&& #[trigger] are_normalized(inputs.num, scores, weights)
            &&& #[trigger] is_weighted_draw(inputs.num, weights, grown, Some(idx), to)
            &&& idx < trees.len()
            &&& tree == trees[idx as int]
            &&& info.log_likelihood == scores[idx as int]
        };
    law_weighted_draw(inputs.num, weights, grown, Some(idx), to);
    assert(inputs.is_tree_log_weight(others, trees[0], scores[0]));
    lemma_log_weight_is_score(inputs, others, current, scores[0]);
    assert forall|i: int| 0 <= i < particles.len() implies is_score(
        inputs,
        others,
        (#[trigger] particles[i]).tree,
        scores[i + 1],
    ) by {
        assert(trees[i + 1] == particles[i].tree);
        assert(inputs.is_tree_log_weight(others, trees[i + 1], scores[i + 1]));
        lemma_log_weight_is_score(inputs, others, particles[i].tree, scores[i + 1]);
    }
    let mean = choose|mean: Binary64|
        is_mean_response(inputs.num, inputs.data.y, mean) && #[trigger] is_quotient(
            inputs.num,
            mean,
            count_number(inputs.config.n_trees as nat),
            value,
        );
    assert(call_ensures(
        N::over,
        (inputs.num, mean, count_number(inputs.config.n_trees as nat)),
        value,
    ));
    let r = StepRecord { others, value, particles, grown, scores, weights, drawn: idx };
    assert(r.value == value && r.others == others && r.particles == particles);
    assert(r.grown == grown && Some(r.drawn) == Some(idx));
    r
}

/// What happens as a population grows: the particles and the generators before the first round
/// and after each, and how many nodes each round split.
pub struct PopulationRecord {
    pub populations: Seq<Seq<ParticleModel>>,
    pub generators: Seq<SmallRng>,
    pub splits: Seq<nat>,
}

/// Counts added up from the first on.
pub open spec fn in_all(counts: Seq<nat>) -> nat
    decreases counts.len(),
{
    if counts.len() == 0 {
        0
    } else {
        counts[0] + in_all(counts.skip(1))
    }
}

proof fn lemma_in_all(counts: Seq<nat>, more: nat)
    ensures
        in_all(counts.push(more)) == in_all(counts) + more,
    decreases counts.len(),
{
    let all = counts.push(more);
    if counts.len() == 0 {
        assert(all.skip(1) =~= Seq::empty());
        assert(in_all(all.skip(1)) == 0);
        assert(in_all(counts) == 0);
    } else {
        lemma_in_all(counts.skip(1), more);
        assert(all.skip(1) =~= counts.skip(1).push(more));
    }
}

/// A population grows by rounds, each from the particles and the generator that the one before
/// left. It starts with one particle less than are wanted, all alike, and a round is played
/// only where a node of some particle is waiting. The nodes that the rounds split are counted
/// together.
pub proof fn law_population_grows_by_rounds<
    'a,
    N: Numerics,
    S: SplitRule,
    P: ResponseStrategy<N>,
    R: ResamplingStrategy,
    W: WeightFn,
>(
    inputs: SmcInputs<'a, N, S, P, R, W>,
    from: SmallRng,
    others: Matrix,
    start: ParticleModel,
    rounds: nat,
    particles: Seq<ParticleModel>,
    count: nat,
    to: SmallRng,
) -> (r: PopulationRecord)
    requires
        inputs.is_population(from, others, start, rounds, particles, count, to),
        inputs.config.n_particles >= 1,
    ensures
        r.populations.len() == rounds + 1,
        r.generators.len() == rounds + 1,
        r.splits.len() == rounds,
        r.populations[0].len() == inputs.config.n_particles - 1,
        forall|i: int| 0 <= i < r.populations[0].len() ==> #[trigger] r.populations[0][i] == start,
        r.generators[0] == from,
        r.populations.last() == particles,
        r.generators.last() == to,
        in_all(r.splits) == count,
        forall|j: int|
            0 <= j < rounds ==> {
                &&& inputs.is_round(
                    r.generators[j],
                    others,
                    r.populations[j],
                    r.populations[j + 1],
                    #[trigger] r.splits[j],
                    r.generators[j + 1],
                )
                &&& has_waiting(r.populations[j])
            },
    decreases rounds,
{
    if rounds == 0 {
        let r = PopulationRecord {
            populations: seq![particles],
            generators: seq![from],
            splits: Seq::empty(),
        };
        r
    } else {
        let (before, more, between) = choose|
            before: Seq<ParticleModel>,
            more: nat,
            between: SmallRng,
        |
            {
                &&& more <= count
                &&& #[trigger] inputs.is_round(between, others, before, particles, more, to)
                &&& is_waiting(before)
                &&& inputs.is_population_after(
                    from,
                    others,
                    start,
                    (rounds - 1) as nat,
                    before,
                    (count - more) as nat,
                    between,
                )
            };
        let q = law_population_grows_by_rounds(
            inputs,
            from,
            others,
            start,
            (rounds - 1) as nat,
            before,
            (count - more) as nat,
            between,
        );
        lemma_in_all(q.splits, more);
        let r = PopulationRecord {
            populations: q.populations.push(particles),
            generators: q.generators.push(to),
            splits: q.splits.push(more),
        };
        assert(r.populations[0] == q.populations[0]);
        assert forall|j: int| 0 <= j < rounds implies {
            &&& inputs.is_round(
                r.generators[j],
                others,
                r.populations[j],
                r.populations[j + 1],
                #[trigger] r.splits[j],
                r.generators[j + 1],
            )
            &&& has_waiting(r.populations[j])
        } by {
            if j < rounds - 1 {
                assert(r.splits[j] == q.splits[j]);
            } else {
                assert(has_waiting(before));
            }
        }
        r
    }
}

/// A node of one of the particles is waiting.
pub open spec fn has_waiting(particles: Seq<ParticleModel>) -> bool {
    exists|i: int| 0 <= i < particles.len() && (#[trigger] particles[i]).expandable.len() > 0
}

/// A fresh particle is a single leaf that holds every sample and answers `value` everywhere.
/// Its only node waits, unless trees may have no depth at all.
pub proof fn law_fresh_particle_is_a_leaf<N: Numerics>(
    num: &N,
    config: BartConfig,
    x: Matrix,
    value: Binary64,
    o: int,
    s: int,
    v: Binary64,
)
    requires
        0 <= o < config.n_outputs,
        0 <= s < x.height(),
    ensures
        ({
            let p = fresh_particle(config, x.height(), value);
            &&& p.tree.split_var.len() == 1
            &&& p.tree.split_var[0] == u32::MAX
            &&& p.tree.max_depth == config.max_depth
            &&& p.tree.leaf_indices.len() == x.height()
            &&& answers(num, p.tree, x, o, s, v) ==> v == value
            &&& config.max_depth == 0 ==> p.expandable.len() == 0
            &&& config.max_depth > 0 ==> p.expandable.len() == 1 && p.expandable[0] == 0
            &&& p.log_weight == (Binary64 { bits: 0 })
        }),
{
    let t = fresh_particle(config, x.height(), value).tree;
    assert(t.leaf_indices[s] == 0);
    assert(t.leaf_val[0 * t.n_outputs + o] == value);
}

} // verus!
