//! What holds of two runs with the same inputs.
use crate::binary64::Binary64;
use crate::config::BartConfig;
use crate::draws::{
    are_ancestors, is_below_draw, is_threshold, is_uniform_draw, is_weighted_draw,
};
use crate::matrix::{
    flattened, flattened_rows, is_matrix_difference, is_matrix_sum, Matrix,
};
use crate::mutation::{
    has_positive_total, is_cut, is_decision, is_depth_draw, is_drawn_proposal, is_feature_choice,
    is_refusal_probability,
};
use crate::numerics::{
    is_determined, is_difference, is_exponential, is_mean, is_power, is_product,
    is_quotient, is_root, is_spread, is_sum, is_total, Numerics,
};
use crate::particle::{mutated, new_expandable, sample_numbers, ParticleModel};
use crate::predict::{is_training_prediction, is_training_value};
use crate::resampling::ResamplingStrategy;
use crate::response::{
    are_noise_draws, column_at, goes_left, left_samples, right_samples, row_at, LeafPayload,
    LeafProposal, ResponseStrategies, ResponseStrategy,
};
use crate::response_laws::{
    are_same_leaves, draws_normals_in_one_way, law_draws_fix_proposal, law_draws_repeat,
    totals_in_one_way,
};
use crate::smc::{
    are_normalized, are_quotients, are_relative_weights, count_set, descendants, fresh_particle,
    is_blank, is_relative_weight, is_tree_prediction, is_waiting, largest, log_weights, trees_of,
    valid_ancestors, SmcInputs, SmcStepInfo,
};
use crate::smc_laws::{choose_outcome, choose_round};
use crate::splitting::SplitRule;
use crate::tree_model::{node_depth, TreeModel};
use crate::update::MutationDecision;
use crate::weight::{is_log_weight, WeightFn};
use rand::rngs::SmallRng;
use vstd::prelude::*;

verus! {

/// Two arrays of one shape with the same numbers.
pub open spec fn alike(a: Matrix, b: Matrix) -> bool {
    &&& a.same_shape(b)
    &&& forall|i: int, j: int|
        #![trigger a.at(i, j)]
        #![trigger b.at(i, j)]
        a.at(i, j) == b.at(i, j)
}

/// The operations of `num` give one answer to each question.
pub open spec fn answers_in_one_way<N: Numerics>(num: &N) -> bool {
    &&& is_determined(num)
    &&& totals_in_one_way(num)
    &&& forall|a: Binary64, p: Binary64, q: Binary64| #[trigger]
        is_root(num, a, p) && #[trigger] is_root(num, a, q) ==> p == q
    &&& forall|a: Binary64, p: Binary64, q: Binary64| #[trigger]
        is_exponential(num, a, p) && #[trigger] is_exponential(num, a, q) ==> p == q
    &&& forall|a: Binary64, b: Binary64, p: Binary64, q: Binary64| #[trigger]
        is_power(num, a, b, p) && #[trigger] is_power(num, a, b, q) ==> p == q
    &&& forall|a: Seq<Binary64>, p: Binary64, q: Binary64| #[trigger]
        is_mean(num, a, p) && #[trigger] is_mean(num, a, q) ==> p == q
    &&& forall|a: Seq<Binary64>, p: Binary64, q: Binary64| #[trigger]
        is_spread(num, a, p) && #[trigger] is_spread(num, a, q) ==> p == q
}

/// What `num` draws depends on the state of the generator alone, and so does the state that
/// it leaves.
pub open spec fn draws_in_one_way<N: Numerics>(num: &N) -> bool {
    &&& draws_normals_in_one_way(num)
    &&& forall|from: SmallRng, p: Binary64, q: Binary64, to: SmallRng, other: SmallRng|
        {
            &&& #[trigger] is_uniform_draw(num, from, p, to)
            &&& #[trigger] is_uniform_draw(num, from, q, other)
        } ==> p == q && to == other
    &&& forall|
        weights: Seq<Binary64>,
        from: SmallRng,
        p: Option<usize>,
        q: Option<usize>,
        to: SmallRng,
        other: SmallRng,
    |
        {
            &&& #[trigger] is_weighted_draw(num, weights, from, p, to)
            &&& #[trigger] is_weighted_draw(num, weights, from, q, other)
        } ==> p == q && to == other
}

/// Draws of integers depend on the state of the generator alone.
pub open spec fn draws_integers_in_one_way() -> bool {
    forall|n: usize, from: SmallRng, p: usize, q: usize, to: SmallRng, other: SmallRng|
        {
            &&& #[trigger] is_below_draw(n, from, p, to)
            &&& #[trigger] is_below_draw(n, from, q, other)
        } ==> p == q && to == other
}

/// The thresholds that rules draw depend on the values and the state of the generator alone.
pub open spec fn splits_in_one_way<S: SplitRule>() -> bool {
    forall|
        rule: S,
        values: Seq<Binary64>,
        from: SmallRng,
        p: Option<Binary64>,
        q: Option<Binary64>,
        to: SmallRng,
        other: SmallRng,
    |
        {
            &&& #[trigger] is_threshold(rule, values, from, p, to)
            &&& #[trigger] is_threshold(rule, values, from, q, other)
        } ==> p == q && to == other
}

/// The ancestors that are drawn depend on the weights and the state of the generator alone.
pub open spec fn resamples_in_one_way<R: ResamplingStrategy>(resampling: &R) -> bool {
    forall|
        weights: Seq<Binary64>,
        from: SmallRng,
        p: Seq<usize>,
        q: Seq<usize>,
        to: SmallRng,
        other: SmallRng,
    |
        {
            &&& #[trigger] are_ancestors(resampling, weights, from, p, to)
            &&& #[trigger] are_ancestors(resampling, weights, from, q, other)
        } ==> p == q && to == other
}

/// The log-weight of predictions depends on them alone.
pub open spec fn scores_in_one_way<W: WeightFn>(weight_fn: &W) -> bool {
    forall|predictions: Seq<Binary64>, p: Binary64, q: Binary64| #[trigger]
        is_log_weight(weight_fn, predictions, p) && #[trigger] is_log_weight(
            weight_fn,
            predictions,
            q,
        ) ==> p == q
}

/// Arrays that agree where they hold numbers are alike.
pub proof fn lemma_alike(a: Matrix, b: Matrix)
    requires
        a.same_shape(b),
        forall|i: int, j: int|
            0 <= i < a.height() && 0 <= j < a.width() ==> #[trigger] a.at(i, j) == b.at(i, j),
    ensures
        alike(a, b),
{
}

/// The rows of arrays that are alike, one after the other.
proof fn lemma_alike_rows(a: Matrix, b: Matrix, n: nat)
    requires
        alike(a, b),
    ensures
        flattened_rows(a, n) == flattened_rows(b, n),
    decreases n,
{
    if n > 0 {
        lemma_alike_rows(a, b, (n - 1) as nat);
        assert(a.row(n - 1) =~= b.row(n - 1));
    }
}

pub proof fn lemma_alike_flattened(a: Matrix, b: Matrix)
    requires
        alike(a, b),
    ensures
        flattened(a) == flattened(b),
{
    lemma_alike_rows(a, b, a.height());
}

pub proof fn lemma_one_training_prediction<N: Numerics>(
    num: &N,
    t: TreeModel,
    x: Matrix,
    y: Matrix,
    before: Matrix,
    after: Matrix,
    other_before: Matrix,
    other_after: Matrix,
)
    requires
        is_determined(num),
        alike(x, y),
        alike(before, other_before),
        is_training_prediction(num, t, Some(&x), before, after),
        is_training_prediction(num, t, Some(&y), other_before, other_after),
    ensures
        alike(after, other_after),
{
    assert forall|o: int, s: int|
        0 <= o < after.height() && 0 <= s < after.width() implies #[trigger] after.at(o, s)
        == other_after.at(o, s) by {
        let leaf = t.leaf_indices[s] as int;
        let v = x.at(s, t.line_var(leaf));
        assert(v == y.at(s, t.line_var(leaf)));
        assert(is_training_value(
            num,
            t,
            leaf,
            s,
            o,
            Some(&x),
            before.at(o, s),
            after.at(o, s),
        ));
        assert(is_training_value(
            num,
            t,
            leaf,
            s,
            o,
            Some(&y),
            other_before.at(o, s),
            other_after.at(o, s),
        ));
    }
    lemma_alike(after, other_after);
}

proof fn lemma_one_tree_prediction<N: Numerics>(
    num: &N,
    t: TreeModel,
    x: Matrix,
    y: Matrix,
    n_outputs: nat,
    p: Matrix,
    q: Matrix,
)
    requires
        is_determined(num),
        alike(x, y),
        is_tree_prediction(num, t, x, n_outputs, p),
        is_tree_prediction(num, t, y, n_outputs, q),
    ensures
        alike(p, q),
{
    let a = choose|a: Matrix|
        #[trigger] is_blank(a, n_outputs, x.height()) && is_training_prediction(
            num,
            t,
            Some(&x),
            a,
            p,
        );
    let b = choose|b: Matrix|
        #[trigger] is_blank(b, n_outputs, y.height()) && is_training_prediction(
            num,
            t,
            Some(&y),
            b,
            q,
        );
    lemma_alike(a, b);
    lemma_one_training_prediction(num, t, x, y, a, p, b, q);
}

pub proof fn lemma_one_matrix_sum<N: Numerics>(
    num: &N,
    a: Matrix,
    b: Matrix,
    p: Matrix,
    c: Matrix,
    d: Matrix,
    q: Matrix,
)
    requires
        is_determined(num),
        alike(a, c),
        alike(b, d),
        is_matrix_sum(num, a, b, p),
        is_matrix_sum(num, c, d, q),
    ensures
        alike(p, q),
{
    assert forall|i: int, j: int|
        0 <= i < p.height() && 0 <= j < p.width() implies #[trigger] p.at(i, j) == q.at(
        i,
        j,
    ) by {
        assert(is_sum(num, a.at(i, j), b.at(i, j), p.at(i, j)));
        assert(is_sum(num, c.at(i, j), d.at(i, j), q.at(i, j)));
    }
    lemma_alike(p, q);
}

pub proof fn lemma_one_matrix_difference<N: Numerics>(
    num: &N,
    a: Matrix,
    b: Matrix,
    p: Matrix,
    c: Matrix,
    d: Matrix,
    q: Matrix,
)
    requires
        is_determined(num),
        alike(a, c),
        alike(b, d),
        is_matrix_difference(num, a, b, p),
        is_matrix_difference(num, c, d, q),
    ensures
        alike(p, q),
{
    assert forall|i: int, j: int|
        0 <= i < p.height() && 0 <= j < p.width() implies #[trigger] p.at(i, j) == q.at(
        i,
        j,
    ) by {
        assert(is_difference(num, a.at(i, j), b.at(i, j), p.at(i, j)));
        assert(is_difference(num, c.at(i, j), d.at(i, j), q.at(i, j)));
    }
    lemma_alike(p, q);
}

proof fn lemma_one_normalization<N: Numerics>(
    num: &N,
    log_weights: Seq<Binary64>,
    p: Seq<Binary64>,
    q: Seq<Binary64>,
)
    requires
        answers_in_one_way(num),
        are_normalized(num, log_weights, p),
        are_normalized(num, log_weights, q),
    ensures
        p == q,
{
    let (a, total) = choose|relative: Seq<Binary64>, total: Binary64|
        {
            &&& are_relative_weights(num, log_weights, relative)
            &&& is_total(num, relative, total)
            &&& #[trigger] are_quotients(num, relative, total, p)
        };
    let (b, other) = choose|relative: Seq<Binary64>, total: Binary64|
        {
            &&& are_relative_weights(num, log_weights, relative)
            &&& is_total(num, relative, total)
            &&& #[trigger] are_quotients(num, relative, total, q)
        };
    assert(a =~= b) by {
        assert forall|i: int| 0 <= i < a.len() implies a[i] == b[i] by {
            assert(is_relative_weight(num, log_weights[i], largest(log_weights), a[i]));
            assert(is_relative_weight(num, log_weights[i], largest(log_weights), b[i]));
        }
    }
    assert(total == other);
    assert(p =~= q) by {
        assert forall|i: int| 0 <= i < p.len() implies p[i] == q[i] by {
            assert(is_quotient(num, a[i], total, p[i]));
            assert(is_quotient(num, a[i], total, q[i]));
        }
    }
}

/// Weights that add up never fall: what is below a number comes first.
pub open spec fn is_cumulative(cdf: Seq<Binary64>) -> bool {
    forall|i: int, j: int, u: Binary64|
        0 <= i < j < cdf.len() && #[trigger] cdf[j].lt_spec(u) ==> #[trigger] cdf[i].lt_spec(u)
}

/// The weights of the features, where there are any, are cumulative.
pub open spec fn has_cumulative_probs(config: BartConfig) -> bool {
    config.splitting_probs matches Some(cdf) ==> is_cumulative(cdf@)
}

/// One split with the same leaves.
pub open spec fn are_same_proposals(p: LeafProposal, q: LeafProposal) -> bool {
    &&& p.node_idx == q.node_idx
    &&& p.split_var == q.split_var
    &&& p.split_val == q.split_val
    &&& are_same_leaves(p.left, q.left)
    &&& are_same_leaves(p.right, q.right)
}

/// Both reject, or both accept the same proposal.
pub open spec fn are_same_decisions(p: MutationDecision, q: MutationDecision) -> bool {
    match (p, q) {
        (MutationDecision::Reject, MutationDecision::Reject) => true,
        (MutationDecision::Accept(a), MutationDecision::Accept(b)) => are_same_proposals(
            a.leaf_proposal,
            b.leaf_proposal,
        ),
        _ => false,
    }
}

proof fn lemma_same_payload(t: TreeModel, node: int, p: LeafPayload, q: LeafPayload)
    requires
        are_same_leaves(p, q),
    ensures
        t.with_leaf(node, p) == t.with_leaf(node, q),
{
    assert(t.with_leaf(node, p) =~= t.with_leaf(node, q)) by {
        assert(t.with_leaf(node, p).leaf_val =~= t.with_leaf(node, q).leaf_val);
    }
}

proof fn lemma_same_mutation(t: TreeModel, p: LeafProposal, q: LeafProposal, x: Matrix, y: Matrix)
    requires
        are_same_proposals(p, q),
        alike(x, y),
    ensures
        mutated(t, p, x) == mutated(t, q, y),
{
    let leaf = p.node_idx as int;
    let grown = t.grown(2 * leaf + 3).with_split(leaf, p.split_var, p.split_val);
    lemma_same_payload(grown, 2 * leaf + 1, p.left, q.left);
    lemma_same_payload(grown.with_leaf(2 * leaf + 1, p.left), 2 * leaf + 2, p.right, q.right);
    let split = t.split(leaf, p.split_var, p.split_val, p.left, p.right);
    let samples = t.samples_below(leaf as u32, t.leaf_indices.len());
    let base = (2 * leaf + 1) as u32;
    assert(split.reassigned(base, p.split_var, p.split_val, samples, x) =~= split.reassigned(
        base,
        p.split_var,
        p.split_val,
        samples,
        y,
    ));
}

proof fn lemma_same_samples(x: Matrix, y: Matrix, var: u32, val: Binary64, samples: Seq<u32>)
    requires
        alike(x, y),
    ensures
        left_samples(x, var, val, samples) == left_samples(y, var, val, samples),
        right_samples(x, var, val, samples) == right_samples(y, var, val, samples),
{
    let f = |s: u32| goes_left(x, var, val, s);
    let g = |s: u32| goes_left(y, var, val, s);
    assert(f =~= g);
    let not_f = |s: u32| !goes_left(x, var, val, s);
    let not_g = |s: u32| !goes_left(y, var, val, s);
    assert(not_f =~= not_g);
}

proof fn lemma_same_rows(a: Matrix, b: Matrix, o: int, samples: Seq<u32>)
    requires
        alike(a, b),
    ensures
        row_at(a, o, samples) == row_at(b, o, samples),
        column_at(a, o, samples) == column_at(b, o, samples),
{
    assert(row_at(a, o, samples) =~= row_at(b, o, samples));
    assert(column_at(a, o, samples) =~= column_at(b, o, samples));
}

/// A strategy reads of its arrays only what they hold.
proof fn lemma_proposal_by_numbers<N: Numerics>(
    num: &N,
    node_samples: Seq<u32>,
    x: Matrix,
    y: Matrix,
    sum_trees: Matrix,
    other_sums: Matrix,
    leaf_sd: Seq<Binary64>,
    n_trees: nat,
    n_outputs: nat,
    split_val: Binary64,
    split_var: u32,
    node_idx: usize,
    left_draws: Seq<Binary64>,
    right_draws: Seq<Binary64>,
    strategy: ResponseStrategies,
    p: LeafProposal,
)
    requires
        alike(x, y),
        alike(sum_trees, other_sums),
        strategy.is_proposal(
            num,
            node_samples,
            y,
            other_sums,
            leaf_sd,
            n_trees,
            n_outputs,
            split_val,
            split_var,
            node_idx,
            left_draws,
            right_draws,
            p,
        ),
    ensures
        strategy.is_proposal(
            num,
            node_samples,
            x,
            sum_trees,
            leaf_sd,
            n_trees,
            n_outputs,
            split_val,
            split_var,
            node_idx,
            left_draws,
            right_draws,
            p,
        ),
{
    lemma_same_samples(x, y, split_var, split_val, node_samples);
    assert forall|o: int, samples: Seq<u32>| #[trigger]
        row_at(sum_trees, o, samples) == row_at(other_sums, o, samples) by {
        lemma_same_rows(sum_trees, other_sums, o, samples);
    }
    assert forall|o: int, samples: Seq<u32>| #[trigger]
        column_at(x, o, samples) == column_at(y, o, samples) by {
        lemma_same_rows(x, y, o, samples);
    }
}

proof fn lemma_one_depth_draw<N: Numerics>(
    num: &N,
    config: BartConfig,
    depth: nat,
    from: SmallRng,
    p: bool,
    to: SmallRng,
    q: bool,
    other: SmallRng,
)
    requires
        answers_in_one_way(num),
        draws_in_one_way(num),
        is_depth_draw(num, config, depth, from, p, to),
        is_depth_draw(num, config, depth, from, q, other),
    ensures
        p == q,
        to == other,
{
    if depth > 0 {
        let (u, a) = choose|u: Binary64, a: Binary64|
            {
                &&& is_uniform_draw(num, from, u, to)
                &&& #[trigger] is_refusal_probability(num, config.alpha, config.beta, depth, a)
                &&& p == #[trigger] u.lt_spec(a)
            };
        let (v, b) = choose|u: Binary64, a: Binary64|
            {
                &&& is_uniform_draw(num, from, u, other)
                &&& #[trigger] is_refusal_probability(num, config.alpha, config.beta, depth, a)
                &&& q == #[trigger] u.lt_spec(a)
            };
        assert(u == v);
        assert(a == b);
    }
}

proof fn lemma_one_feature<N: Numerics>(
    num: &N,
    probs: Option<Vec<Binary64>>,
    n_features: nat,
    from: SmallRng,
    p: int,
    to: SmallRng,
    q: int,
    other: SmallRng,
)
    requires
        answers_in_one_way(num),
        draws_in_one_way(num),
        draws_integers_in_one_way(),
        probs matches Some(cdf) ==> is_cumulative(cdf@),
        is_feature_choice(num, probs, n_features, from, p, to),
        is_feature_choice(num, probs, n_features, from, q, other),
    ensures
        p == q,
        to == other,
{
    if probs is Some {
        let cdf = probs->0@;
        if has_positive_total(cdf) {
            let (u, a) = choose|u: Binary64, part: Binary64|
                {
                    &&& is_uniform_draw(num, from, u, to)
                    &&& #[trigger] is_product(num, u, cdf.last(), part)
                    &&& is_cut(cdf, part, p)
                };
            let (v, b) = choose|u: Binary64, part: Binary64|
                {
                    &&& is_uniform_draw(num, from, u, other)
                    &&& #[trigger] is_product(num, u, cdf.last(), part)
                    &&& is_cut(cdf, part, q)
                };
            assert(u == v);
            assert(a == b);
            if p < q {
                assert(cdf[q - 1].lt_spec(a));
                assert(!cdf[p].lt_spec(a));
            } else if q < p {
                assert(cdf[p - 1].lt_spec(a));
                assert(!cdf[q].lt_spec(a));
            }
        }
    }
}

/// What is decided of a node depends on the tree, the data, the settings and the state of
/// the generator alone.
proof fn lemma_one_decision<N: Numerics, S: SplitRule>(
    num: &N,
    config: BartConfig,
    split_rules: Seq<S>,
    response: &ResponseStrategies,
    t: TreeModel,
    node: usize,
    x: Matrix,
    y: Matrix,
    sum_trees: Matrix,
    other_sums: Matrix,
    leaf_sd: Seq<Binary64>,
    from: SmallRng,
    p: MutationDecision,
    to: SmallRng,
    q: MutationDecision,
    other: SmallRng,
)
    requires
        answers_in_one_way(num),
        draws_in_one_way(num),
        draws_integers_in_one_way(),
        splits_in_one_way::<S>(),
        has_cumulative_probs(config),
        alike(x, y),
        alike(sum_trees, other_sums),
        is_decision(
            num,
            config,
            split_rules,
            response,
            t,
            node,
            x,
            sum_trees,
            leaf_sd,
            from,
            Ok(p),
            to,
        ),
        is_decision(
            num,
            config,
            split_rules,
            response,
            t,
            node,
            y,
            other_sums,
            leaf_sd,
            from,
            Ok(q),
            other,
        ),
    ensures
        are_same_decisions(p, q),
        to == other,
{
    let depth = node_depth(node as nat);
    let samples = sample_numbers(t, node as u32);
    assert forall|a: bool, b: bool, s: SmallRng, r: SmallRng|
        {
            &&& #[trigger] is_depth_draw(num, config, depth, from, a, s)
            &&& #[trigger] is_depth_draw(num, config, depth, from, b, r)
        } implies a == b && s == r by {
        lemma_one_depth_draw(num, config, depth, from, a, s, b, r);
    }
    assert forall|g: SmallRng, v: int, w: int, s: SmallRng, r: SmallRng|
        {
            &&& #[trigger] is_feature_choice(num, config.splitting_probs, x.width(), g, v, s)
            &&& #[trigger] is_feature_choice(num, config.splitting_probs, x.width(), g, w, r)
        } implies v == w && s == r by {
        lemma_one_feature(num, config.splitting_probs, x.width(), g, v, s, w, r);
    }
    assert forall|o: int| #[trigger] column_at(x, o, samples) == column_at(y, o, samples) by {
        lemma_same_rows(x, y, o, samples);
    }
    if p is Accept && q is Accept {
        let a = p->Accept_0.leaf_proposal;
        let b = q->Accept_0.leaf_proposal;
        let (d1, c1, s1) = choose|depth_drawn: SmallRng, chosen: SmallRng, parted: SmallRng|
            {
                &&& is_depth_draw(num, config, depth, from, false, depth_drawn)
                &&& #[trigger] is_feature_choice(
                    num,
                    config.splitting_probs,
                    x.width(),
                    depth_drawn,
                    a.split_var as int,
                    chosen,
                )
                &&& #[trigger] is_threshold(
                    split_rules[a.split_var as int],
                    column_at(x, a.split_var as int, samples),
                    chosen,
                    Some(a.split_val),
                    parted,
                )
                &&& is_drawn_proposal(
                    num,
                    response,
                    t,
                    node,
                    x,
                    sum_trees,
                    leaf_sd,
                    config.n_trees as nat,
                    config.n_outputs as nat,
                    parted,
                    a,
                    to,
                )
            };
        let (d2, c2, s2) = choose|depth_drawn: SmallRng, chosen: SmallRng, parted: SmallRng|
            {
                &&& is_depth_draw(num, config, depth, from, false, depth_drawn)
                &&& #[trigger] is_feature_choice(
                    num,
                    config.splitting_probs,
                    y.width(),
                    depth_drawn,
                    b.split_var as int,
                    chosen,
                )
                &&& #[trigger] is_threshold(
                    split_rules[b.split_var as int],
                    column_at(y, b.split_var as int, samples),
                    chosen,
                    Some(b.split_val),
                    parted,
                )
                &&& is_drawn_proposal(
                    num,
                    response,
                    t,
                    node,
                    y,
                    other_sums,
                    leaf_sd,
                    config.n_trees as nat,
                    config.n_outputs as nat,
                    parted,
                    b,
                    other,
                )
            };
        assert(d1 == d2);
        assert(a.split_var as int == b.split_var as int && c1 == c2);
        let var = a.split_var as int;
        assert(column_at(x, var, samples) == column_at(y, var, samples));
        assert(Some(a.split_val) == Some(b.split_val) && s1 == s2);
        lemma_one_drawn_proposal(
            num,
            config,
            response,
            t,
            node,
            x,
            y,
            sum_trees,
            other_sums,
            leaf_sd,
            s1,
            a,
            to,
            b,
            other,
        );
    }
}

proof fn lemma_one_drawn_proposal<N: Numerics>(
    num: &N,
    config: BartConfig,
    response: &ResponseStrategies,
    t: TreeModel,
    node: usize,
    x: Matrix,
    y: Matrix,
    sum_trees: Matrix,
    other_sums: Matrix,
    leaf_sd: Seq<Binary64>,
    from: SmallRng,
    p: LeafProposal,
    to: SmallRng,
    q: LeafProposal,
    other: SmallRng,
)
    requires
        answers_in_one_way(num),
        draws_in_one_way(num),
        alike(x, y),
        alike(sum_trees, other_sums),
        p.split_var == q.split_var,
        p.split_val == q.split_val,
        is_drawn_proposal(
            num,
            response,
            t,
            node,
            x,
            sum_trees,
            leaf_sd,
            config.n_trees as nat,
            config.n_outputs as nat,
            from,
            p,
            to,
        ),
        is_drawn_proposal(
            num,
            response,
            t,
            node,
            y,
            other_sums,
            leaf_sd,
            config.n_trees as nat,
            config.n_outputs as nat,
            from,
            q,
            other,
        ),
    ensures
        are_same_proposals(p, q),
        to == other,
{
    let n_trees = config.n_trees as nat;
    let n_outputs = config.n_outputs as nat;
    let samples = sample_numbers(t, node as u32);
    let (left, right) = choose|left: Seq<Binary64>, right: Seq<Binary64>|
        {
            &&& are_noise_draws(num, n_outputs, from, left, right, to)
            &&& #[trigger] response.is_proposal(
                num,
                samples,
                x,
                sum_trees,
                leaf_sd,
                n_trees,
                n_outputs,
                p.split_val,
                p.split_var,
                node,
                left,
                right,
                p,
            )
        };
    let (other_left, other_right) = choose|left: Seq<Binary64>, right: Seq<Binary64>|
        {
            &&& are_noise_draws(num, n_outputs, from, left, right, other)
            &&& #[trigger] response.is_proposal(
                num,
                samples,
                y,
                other_sums,
                leaf_sd,
                n_trees,
                n_outputs,
                q.split_val,
                q.split_var,
                node,
                left,
                right,
                q,
            )
        };
    law_draws_repeat(num, n_outputs, from, left, right, to, other_left, other_right, other);
    lemma_proposal_by_numbers(
        num,
        samples,
        x,
        y,
        sum_trees,
        other_sums,
        leaf_sd,
        n_trees,
        n_outputs,
        q.split_val,
        q.split_var,
        node,
        left,
        right,
        *response,
        q,
    );
    law_draws_fix_proposal(
        num,
        samples,
        x,
        sum_trees,
        leaf_sd,
        n_trees,
        n_outputs,
        p.split_val,
        p.split_var,
        node,
        left,
        right,
        *response,
        p,
        q,
    );
}

/// The host, the rules and the strategies answer and draw in one way.
pub open spec fn is_repeatable<N: Numerics, S: SplitRule, R: ResamplingStrategy, W: WeightFn>(
    num: &N,
    resampling: &R,
    weight_fn: &W,
) -> bool {
    &&& answers_in_one_way(num)
    &&& draws_in_one_way(num)
    &&& draws_integers_in_one_way()
    &&& splits_in_one_way::<S>()
    &&& resamples_in_one_way(resampling)
    &&& scores_in_one_way(weight_fn)
}

/// Inputs of two steps with the same numbers in them.
pub open spec fn are_alike_inputs<
    'a,
    N: Numerics,
    S: SplitRule,
    R: ResamplingStrategy,
    W: WeightFn,
>(
    a: SmcInputs<'a, N, S, ResponseStrategies, R, W>,
    b: SmcInputs<'a, N, S, ResponseStrategies, R, W>,
) -> bool {
    &&& *a.num == *b.num
    &&& *a.config == *b.config
    &&& a.split_rules@ == b.split_rules@
    &&& *a.resampling == *b.resampling
    &&& *a.weight_fn == *b.weight_fn
    &&& a.leaf_sd@ == b.leaf_sd@
    &&& *a.response == *b.response
    &&& alike(a.data.x, b.data.x)
    &&& alike(a.data.y, b.data.y)
    &&& alike(*a.sum_trees, *b.sum_trees)
}

proof fn lemma_one_log_weight<
    'a,
    N: Numerics,
    S: SplitRule,
    R: ResamplingStrategy,
    W: WeightFn,
>(
    a: SmcInputs<'a, N, S, ResponseStrategies, R, W>,
    b: SmcInputs<'a, N, S, ResponseStrategies, R, W>,
    others: Matrix,
    remainder: Matrix,
    t: TreeModel,
    p: Binary64,
    q: Binary64,
)
    requires
        is_repeatable::<N, S, R, W>(a.num, a.resampling, a.weight_fn),
        are_alike_inputs(a, b),
        alike(others, remainder),
        a.is_tree_log_weight(others, t, p),
        b.is_tree_log_weight(remainder, t, q),
    ensures
        p == q,
{
    let n = a.config.n_outputs as nat;
    let (pred, total) = choose|pred: Matrix, total: Matrix|
        {
            &&& #[trigger] is_tree_prediction(a.num, t, a.data.x, n, pred)
            &&& #[trigger] is_matrix_sum(a.num, pred, others, total)
            &&& is_log_weight(a.weight_fn, flattened(total), p)
        };
    let (other_pred, other_total) = choose|pred: Matrix, total: Matrix|
        {
            &&& #[trigger] is_tree_prediction(b.num, t, b.data.x, n, pred)
            &&& #[trigger] is_matrix_sum(b.num, pred, remainder, total)
            &&& is_log_weight(b.weight_fn, flattened(total), q)
        };
    lemma_one_tree_prediction(a.num, t, a.data.x, b.data.x, n, pred, other_pred);
    lemma_one_matrix_sum(a.num, pred, others, total, other_pred, remainder, other_total);
    lemma_alike_flattened(total, other_total);
}

proof fn lemma_one_visit<
    'a,
    N: Numerics,
    S: SplitRule,
    R: ResamplingStrategy,
    W: WeightFn,
>(
    a: SmcInputs<'a, N, S, ResponseStrategies, R, W>,
    b: SmcInputs<'a, N, S, ResponseStrategies, R, W>,
    from: SmallRng,
    before: ParticleModel,
    p: ParticleModel,
    accepted: bool,
    to: SmallRng,
    q: ParticleModel,
    other_accepted: bool,
    other: SmallRng,
)
    requires
        is_repeatable::<N, S, R, W>(a.num, a.resampling, a.weight_fn),
        has_cumulative_probs(*a.config),
        are_alike_inputs(a, b),
        a.is_visit(from, before, p, accepted, to),
        b.is_visit(from, before, q, other_accepted, other),
    ensures
        p == q,
        accepted == other_accepted,
        to == other,
{
    if before.expandable.len() > 0 {
        let node = before.expandable[0] as usize;
        let rest = before.expandable.drop_first();
        let first = choose|decision: MutationDecision|
            {
                &&& #[trigger] a.is_decision(from, before.tree, node, Ok(decision), to)
                &&& match decision {
                    MutationDecision::Reject => {
                        &&& !accepted
                        &&& p == ParticleModel { expandable: rest, ..before }
                    },
                    MutationDecision::Accept(proposal) => {
                        &&& accepted
                        &&& p == ParticleModel {
                            tree: mutated(before.tree, proposal.leaf_proposal, a.data.x),
                            expandable: rest + new_expandable(before.tree, node as int),
                            ..before
                        }
                    },
                }
            };
        let second = choose|decision: MutationDecision|
            {
                &&& #[trigger] b.is_decision(from, before.tree, node, Ok(decision), other)
                &&& match decision {
                    MutationDecision::Reject => {
                        &&& !other_accepted
                        &&& q == ParticleModel { expandable: rest, ..before }
                    },
                    MutationDecision::Accept(proposal) => {
                        &&& other_accepted
                        &&& q == ParticleModel {
                            tree: mutated(before.tree, proposal.leaf_proposal, b.data.x),
                            expandable: rest + new_expandable(before.tree, node as int),
                            ..before
                        }
                    },
                }
            };
        lemma_one_decision(
            a.num,
            *a.config,
            a.split_rules@,
            a.response,
            before.tree,
            node,
            a.data.x,
            b.data.x,
            *a.sum_trees,
            *b.sum_trees,
            a.leaf_sd@,
            from,
            first,
            to,
            second,
            other,
        );
        if first is Accept {
            lemma_same_mutation(
                before.tree,
                first->Accept_0.leaf_proposal,
                second->Accept_0.leaf_proposal,
                a.data.x,
                b.data.x,
            );
        }
    }
}

/// Two chains of visits agree on the first `k` particles.
proof fn lemma_visits_agree<
    'a,
    N: Numerics,
    S: SplitRule,
    R: ResamplingStrategy,
    W: WeightFn,
>(
    a: SmcInputs<'a, N, S, ResponseStrategies, R, W>,
    b: SmcInputs<'a, N, S, ResponseStrategies, R, W>,
    before: Seq<ParticleModel>,
    k: nat,
    states: Seq<SmallRng>,
    p: Seq<ParticleModel>,
    accepted: Seq<bool>,
    others: Seq<SmallRng>,
    q: Seq<ParticleModel>,
    other_accepted: Seq<bool>,
)
    requires
        is_repeatable::<N, S, R, W>(a.num, a.resampling, a.weight_fn),
        has_cumulative_probs(*a.config),
        are_alike_inputs(a, b),
        k <= before.len(),
        a.are_visits(states, before, p, accepted),
        b.are_visits(others, before, q, other_accepted),
        states[0] == others[0],
    ensures
        states[k as int] == others[k as int],
        forall|i: int| 0 <= i < k ==> #[trigger] p[i] == q[i] && accepted[i] == other_accepted[i],
    decreases k,
{
    if k > 0 {
        let i = k - 1;
        lemma_visits_agree(
            a,
            b,
            before,
            i as nat,
            states,
            p,
            accepted,
            others,
            q,
            other_accepted,
        );
        assert(a.is_visit(states[i], before[i], p[i], accepted[i], states[i + 1]));
        assert(b.is_visit(others[i], before[i], q[i], other_accepted[i], others[i + 1]));
        lemma_one_visit(
            a,
            b,
            states[i],
            before[i],
            p[i],
            accepted[i],
            states[i + 1],
            q[i],
            other_accepted[i],
            others[i + 1],
        );
    }
}

proof fn lemma_one_round_of_visits<
    'a,
    N: Numerics,
    S: SplitRule,
    R: ResamplingStrategy,
    W: WeightFn,
>(
    a: SmcInputs<'a, N, S, ResponseStrategies, R, W>,
    b: SmcInputs<'a, N, S, ResponseStrategies, R, W>,
    from: SmallRng,
    before: Seq<ParticleModel>,
    p: Seq<ParticleModel>,
    accepted: Seq<bool>,
    to: SmallRng,
    q: Seq<ParticleModel>,
    other_accepted: Seq<bool>,
    other: SmallRng,
)
    requires
        is_repeatable::<N, S, R, W>(a.num, a.resampling, a.weight_fn),
        has_cumulative_probs(*a.config),
        are_alike_inputs(a, b),
        a.are_all_visited(from, before, p, accepted, to),
        b.are_all_visited(from, before, q, other_accepted, other),
    ensures
        p == q,
        accepted == other_accepted,
        to == other,
{
    let states = choose|states: Seq<SmallRng>|
        {
            &&& #[trigger] a.are_visits(states, before, p, accepted)
            &&& states[0] == from
            &&& states.last() == to
        };
    let others = choose|states: Seq<SmallRng>|
        {
            &&& #[trigger] b.are_visits(states, before, q, other_accepted)
            &&& states[0] == from
            &&& states.last() == other
        };
    lemma_visits_agree(
        a,
        b,
        before,
        before.len(),
        states,
        p,
        accepted,
        others,
        q,
        other_accepted,
    );
    assert(p =~= q);
    assert(accepted =~= other_accepted) by {
        assert forall|i: int| 0 <= i < accepted.len() implies accepted[i]
            == other_accepted[i] by {
            assert(p[i] == q[i]);
        }
    }
}

proof fn lemma_one_weighing<
    'a,
    N: Numerics,
    S: SplitRule,
    R: ResamplingStrategy,
    W: WeightFn,
>(
    a: SmcInputs<'a, N, S, ResponseStrategies, R, W>,
    b: SmcInputs<'a, N, S, ResponseStrategies, R, W>,
    others: Matrix,
    remainder: Matrix,
    before: Seq<ParticleModel>,
    accepted: Seq<bool>,
    p: Seq<ParticleModel>,
    q: Seq<ParticleModel>,
)
    requires
        is_repeatable::<N, S, R, W>(a.num, a.resampling, a.weight_fn),
        are_alike_inputs(a, b),
        alike(others, remainder),
        a.are_weighed(others, before, accepted, p),
        b.are_weighed(remainder, before, accepted, q),
    ensures
        p == q,
{
    assert forall|i: int| 0 <= i < p.len() implies p[i] == q[i] by {
        if accepted[i] {
            assert(p[i] == (ParticleModel { log_weight: p[i].log_weight, ..before[i] }));
            assert(q[i] == (ParticleModel { log_weight: q[i].log_weight, ..before[i] }));
            lemma_one_log_weight(
                a,
                b,
                others,
                remainder,
                before[i].tree,
                p[i].log_weight,
                q[i].log_weight,
            );
        } else {
            assert(p[i] == before[i]);
            assert(q[i] == before[i]);
        }
    }
    assert(p =~= q);
}

proof fn lemma_one_round<
    'a,
    N: Numerics,
    S: SplitRule,
    R: ResamplingStrategy,
    W: WeightFn,
>(
    a: SmcInputs<'a, N, S, ResponseStrategies, R, W>,
    b: SmcInputs<'a, N, S, ResponseStrategies, R, W>,
    from: SmallRng,
    others: Matrix,
    remainder: Matrix,
    before: Seq<ParticleModel>,
    p: Seq<ParticleModel>,
    count: nat,
    to: SmallRng,
    q: Seq<ParticleModel>,
    other_count: nat,
    other: SmallRng,
)
    requires
        is_repeatable::<N, S, R, W>(a.num, a.resampling, a.weight_fn),
        has_cumulative_probs(*a.config),
        are_alike_inputs(a, b),
        alike(others, remainder),
        a.is_round(from, others, before, p, count, to),
        b.is_round(from, remainder, before, q, other_count, other),
    ensures
        p == q,
        count == other_count,
        to == other,
{
    let (v1, f1, s1, w1, n1, a1) = choose|
        visited: Seq<ParticleModel>,
        accepted: Seq<bool>,
        visited_by: SmallRng,
        weighed: Seq<ParticleModel>,
        weights: Seq<Binary64>,
        ancestors: Seq<usize>,
    |
        {
            &&& #[trigger] a.are_all_visited(from, before, visited, accepted, visited_by)
            &&& #[trigger] a.are_weighed(others, visited, accepted, weighed)
            &&& #[trigger] are_normalized(a.num, log_weights(weighed), weights)
            &&& #[trigger] are_ancestors(a.resampling, weights, visited_by, ancestors, to)
            &&& valid_ancestors(ancestors, before.len())
            &&& p == descendants(weighed, ancestors)
            &&& count == count_set(accepted)
        };
    let (v2, f2, s2, w2, n2, a2) = choose|
        visited: Seq<ParticleModel>,
        accepted: Seq<bool>,
        visited_by: SmallRng,
        weighed: Seq<ParticleModel>,
        weights: Seq<Binary64>,
        ancestors: Seq<usize>,
    |
        {
            &&& #[trigger] b.are_all_visited(from, before, visited, accepted, visited_by)
            &&& #[trigger] b.are_weighed(remainder, visited, accepted, weighed)
            &&& #[trigger] are_normalized(b.num, log_weights(weighed), weights)
            &&& #[trigger] are_ancestors(b.resampling, weights, visited_by, ancestors, other)
            &&& valid_ancestors(ancestors, before.len())
            &&& q == descendants(weighed, ancestors)
            &&& other_count == count_set(accepted)
        };
    lemma_one_round_of_visits(a, b, from, before, v1, f1, s1, v2, f2, s2);
    lemma_one_weighing(a, b, others, remainder, v1, f1, w1, w2);
    lemma_one_normalization(a.num, log_weights(w1), n1, n2);
}

/// After as many rounds, two runs stand at the same particles.
proof fn lemma_one_population<
    'a,
    N: Numerics,
    S: SplitRule,
    R: ResamplingStrategy,
    W: WeightFn,
>(
    a: SmcInputs<'a, N, S, ResponseStrategies, R, W>,
    b: SmcInputs<'a, N, S, ResponseStrategies, R, W>,
    from: SmallRng,
    others: Matrix,
    remainder: Matrix,
    start: ParticleModel,
    rounds: nat,
    p: Seq<ParticleModel>,
    count: nat,
    to: SmallRng,
    q: Seq<ParticleModel>,
    other_count: nat,
    other: SmallRng,
)
    requires
        is_repeatable::<N, S, R, W>(a.num, a.resampling, a.weight_fn),
        has_cumulative_probs(*a.config),
        are_alike_inputs(a, b),
        alike(others, remainder),
        a.is_population(from, others, start, rounds, p, count, to),
        b.is_population(from, remainder, start, rounds, q, other_count, other),
    ensures
        p == q,
        count == other_count,
        to == other,
    decreases rounds,
{
    if rounds > 0 {
        let (p1, m1, s1) = choose_round(a, from, others, start, rounds, p, count, to);
        let (p2, m2, s2) = choose_round(b, from, remainder, start, rounds, q, other_count, other);
        lemma_one_population(
            a,
            b,
            from,
            others,
            remainder,
            start,
            (rounds - 1) as nat,
            p1,
            (count - m1) as nat,
            s1,
            p2,
            (other_count - m2) as nat,
            s2,
        );
        lemma_one_round(a, b, s1, others, remainder, p1, p, m1, to, q, m2, other);
    }
}

/// A run of `rounds` rounds has waiting nodes after each part of them.
proof fn lemma_waits_before<
    'a,
    N: Numerics,
    S: SplitRule,
    R: ResamplingStrategy,
    W: WeightFn,
>(
    a: SmcInputs<'a, N, S, ResponseStrategies, R, W>,
    from: SmallRng,
    others: Matrix,
    start: ParticleModel,
    rounds: nat,
    p: Seq<ParticleModel>,
    count: nat,
    to: SmallRng,
    k: nat,
) -> (r: (Seq<ParticleModel>, nat, SmallRng))
    requires
        k < rounds,
        a.is_population(from, others, start, rounds, p, count, to),
    ensures
        a.is_population(from, others, start, k, r.0, r.1, r.2),
        is_waiting(r.0),
    decreases rounds,
{
    let (before, more, between) = choose_round(a, from, others, start, rounds, p, count, to);
    if k == rounds - 1 {
        (before, (count - more) as nat, between)
    } else {
        lemma_waits_before(
            a,
            from,
            others,
            start,
            (rounds - 1) as nat,
            before,
            (count - more) as nat,
            between,
            k,
        )
    }
}

/// Two runs that end with no node waiting end alike.
proof fn lemma_one_outcome<
    'a,
    N: Numerics,
    S: SplitRule,
    R: ResamplingStrategy,
    W: WeightFn,
>(
    a: SmcInputs<'a, N, S, ResponseStrategies, R, W>,
    b: SmcInputs<'a, N, S, ResponseStrategies, R, W>,
    from: SmallRng,
    others: Matrix,
    remainder: Matrix,
    start: ParticleModel,
    rounds: nat,
    p: Seq<ParticleModel>,
    count: nat,
    to: SmallRng,
    other_rounds: nat,
    q: Seq<ParticleModel>,
    other_count: nat,
    other: SmallRng,
)
    requires
        is_repeatable::<N, S, R, W>(a.num, a.resampling, a.weight_fn),
        has_cumulative_probs(*a.config),
        are_alike_inputs(a, b),
        alike(others, remainder),
        a.is_population(from, others, start, rounds, p, count, to),
        !is_waiting(p),
        b.is_population(from, remainder, start, other_rounds, q, other_count, other),
        !is_waiting(q),
    ensures
        p == q,
        count == other_count,
        to == other,
{
    if rounds < other_rounds {
        let (r, n, s) = lemma_waits_before(
            b,
            from,
            remainder,
            start,
            other_rounds,
            q,
            other_count,
            other,
            rounds,
        );
        lemma_one_population(a, b, from, others, remainder, start, rounds, p, count, to, r, n, s);
    } else if other_rounds < rounds {
        let (r, n, s) = lemma_waits_before(
            a,
            from,
            others,
            start,
            rounds,
            p,
            count,
            to,
            other_rounds,
        );
        lemma_one_population(
            a,
            b,
            from,
            others,
            remainder,
            start,
            other_rounds,
            r,
            n,
            s,
            q,
            other_count,
            other,
        );
    } else {
        lemma_one_population(
            a,
            b,
            from,
            others,
            remainder,
            start,
            rounds,
            p,
            count,
            to,
            q,
            other_count,
            other,
        );
    }
}

proof fn lemma_one_selection<
    'a,
    N: Numerics,
    S: SplitRule,
    R: ResamplingStrategy,
    W: WeightFn,
>(
    a: SmcInputs<'a, N, S, ResponseStrategies, R, W>,
    b: SmcInputs<'a, N, S, ResponseStrategies, R, W>,
    from: SmallRng,
    others: Matrix,
    remainder: Matrix,
    trees: Seq<TreeModel>,
    p: TreeModel,
    p_likelihood: Binary64,
    to: SmallRng,
    q: TreeModel,
    q_likelihood: Binary64,
    other: SmallRng,
)
    requires
        is_repeatable::<N, S, R, W>(a.num, a.resampling, a.weight_fn),
        are_alike_inputs(a, b),
        alike(others, remainder),
        a.is_selection(from, others, trees, p, p_likelihood, to),
        b.is_selection(from, remainder, trees, q, q_likelihood, other),
    ensures
        p == q,
        p_likelihood == q_likelihood,
        to == other,
{
    let (s1, w1, i1) = choose|scores: Seq<Binary64>, weights: Seq<Binary64>, idx: usize|
        {
            &&& #[trigger] a.are_tree_log_weights(others, trees, scores)
            &&& #[trigger] are_normalized(a.num, scores, weights)
            &&& #[trigger] is_weighted_draw(a.num, weights, from, Some(idx), to)
            &&& idx < trees.len()
            &&& p == trees[idx as int]
            &&& p_likelihood == scores[idx as int]
        };
    let (s2, w2, i2) = choose|scores: Seq<Binary64>, weights: Seq<Binary64>, idx: usize|
        {
            &&& #[trigger] b.are_tree_log_weights(remainder, trees, scores)
            &&& #[trigger] are_normalized(b.num, scores, weights)
            &&& #[trigger] is_weighted_draw(b.num, weights, from, Some(idx), other)
            &&& idx < trees.len()
            &&& q == trees[idx as int]
            &&& q_likelihood == scores[idx as int]
        };
    assert forall|i: int| 0 <= i < s1.len() implies s1[i] == s2[i] by {
        assert(a.is_tree_log_weight(others, trees[i], s1[i]));
        assert(b.is_tree_log_weight(remainder, trees[i], s2[i]));
        lemma_one_log_weight(a, b, others, remainder, trees[i], s1[i], s2[i]);
    }
    assert(s1 =~= s2);
    lemma_one_normalization(a.num, s1, w1, w2);
    assert(Some(i1) == Some(i2));
}

proof fn lemma_one_initial_value<
    'a,
    N: Numerics,
    S: SplitRule,
    R: ResamplingStrategy,
    W: WeightFn,
>(
    a: SmcInputs<'a, N, S, ResponseStrategies, R, W>,
    b: SmcInputs<'a, N, S, ResponseStrategies, R, W>,
    p: Binary64,
    q: Binary64,
)
    requires
        is_repeatable::<N, S, R, W>(a.num, a.resampling, a.weight_fn),
        are_alike_inputs(a, b),
        a.is_initial_value(p),
        b.is_initial_value(q),
    ensures
        p == q,
{
    lemma_alike_flattened(a.data.y, b.data.y);
}

/// A step that replaces a tree repeats itself: from inputs with the same numbers in them and
/// a generator in the same state come the same tree and the same report, and the generator
/// is left in the same state.
pub proof fn law_tree_repeats<
    'a,
    N: Numerics,
    S: SplitRule,
    R: ResamplingStrategy,
    W: WeightFn,
>(
    a: SmcInputs<'a, N, S, ResponseStrategies, R, W>,
    b: SmcInputs<'a, N, S, ResponseStrategies, R, W>,
    from: SmallRng,
    current: TreeModel,
    p: TreeModel,
    p_info: SmcStepInfo,
    to: SmallRng,
    q: TreeModel,
    q_info: SmcStepInfo,
    other: SmallRng,
)
    requires
        is_repeatable::<N, S, R, W>(a.num, a.resampling, a.weight_fn),
        has_cumulative_probs(*a.config),
        are_alike_inputs(a, b),
        a.is_step(from, current, p, p_info, to),
        b.is_step(from, current, q, q_info, other),
    ensures
        p == q,
        p_info == q_info,
        to == other,
{
    let (others, value, particles, rounds, grown) = choose_outcome(
        a,
        from,
        current,
        p,
        p_info,
        to,
    );
    let (remainder, other_value, other_particles, other_rounds, other_grown) = choose_outcome(
        b,
        from,
        current,
        q,
        q_info,
        other,
    );
    lemma_one_initial_value(a, b, value, other_value);
    let n = a.config.n_outputs as nat;
    let pred = choose|pred: Matrix|
        {
            &&& #[trigger] is_tree_prediction(a.num, current, a.data.x, n, pred)
            &&& is_matrix_difference(a.num, *a.sum_trees, pred, others)
        };
    let other_pred = choose|pred: Matrix|
        {
            &&& #[trigger] is_tree_prediction(b.num, current, b.data.x, n, pred)
            &&& is_matrix_difference(b.num, *b.sum_trees, pred, remainder)
        };
    lemma_one_tree_prediction(a.num, current, a.data.x, b.data.x, n, pred, other_pred);
    lemma_one_matrix_difference(
        a.num,
        *a.sum_trees,
        pred,
        others,
        *b.sum_trees,
        other_pred,
        remainder,
    );
    lemma_one_outcome(
        a,
        b,
        from,
        others,
        remainder,
        fresh_particle(*a.config, a.data.x.height(), value),
        rounds,
        particles,
        p_info.acceptance_count as nat,
        grown,
        other_rounds,
        other_particles,
        q_info.acceptance_count as nat,
        other_grown,
    );
    lemma_one_selection(
        a,
        b,
        grown,
        others,
        remainder,
        seq![current] + trees_of(particles),
        p,
        p_info.log_likelihood,
        to,
        q,
        q_info.log_likelihood,
        other,
    );
}

} // verus!
