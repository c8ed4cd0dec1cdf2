//! Proposing what to do with a node that could be split.
use crate::binary64::{count_number, Binary64, ONE_BITS, ZERO_BITS};
use crate::config::BartConfig;
use crate::data::OwnedData;
use crate::draws::{
    draw_below, draw_threshold, draw_uniform, is_below_draw, is_threshold, is_uniform_draw,
};
use crate::matrix::Matrix;
use crate::numerics::{is_difference, is_power, is_product, is_sum, Numerics};
use crate::particle::{sample_numbers, Particle};
use crate::response::{
    are_noise_draws, column_at, payload_variable, read_column, LeafProposal, ResponseStrategy,
};
use crate::splitting::SplitRule;
use crate::tree_laws::law_leaf_samples;
use crate::tree_model::{node_depth, TreeModel};
use crate::update::{MutationDecision, TreeProposal};
use rand::rngs::SmallRng;
use vstd::prelude::*;

verus! {

/// `p` is `1 - alpha * (1 + depth)^(-beta)`, the probability that a node is not split.
pub open spec fn is_refusal_probability<N: Numerics>(
    num: &N,
    alpha: Binary64,
    beta: Binary64,
    depth: nat,
    p: Binary64,
) -> bool {
    exists|base: Binary64, power: Binary64, product: Binary64|
        {
            &&& is_sum(num, Binary64 { bits: ONE_BITS }, count_number(depth), base)
            &&& #[trigger] is_power(num, base, beta.negated_spec(), power)
            &&& #[trigger] is_product(num, alpha, power, product)
            &&& is_difference(num, Binary64 { bits: ONE_BITS }, product, p)
        }
}

/// The probability that a node at the given depth is not split.
pub fn refusal_probability<N: Numerics>(
    num: &N,
    alpha: Binary64,
    beta: Binary64,
    depth: usize,
) -> (r: Binary64)
    ensures
        is_refusal_probability(num, alpha, beta, depth as nat, r),
{
    let one = Binary64 { bits: ONE_BITS };
    let base = num.plus(one, Binary64::from_count(depth));
    assert(is_sum(num, one, count_number(depth as nat), base));
    let power = num.powf(base, beta.negated());
    assert(is_power(num, base, beta.negated_spec(), power));
    let product = num.times(alpha, power);
    assert(is_product(num, alpha, power, product));
    let r = num.minus(one, product);
    assert(is_difference(num, one, product, r));
    r
}

/// `var` parts the increasing numbers `cdf` at `u`: what comes before lies below `u`, what
/// comes at `var` does not.
pub open spec fn is_cut(cdf: Seq<Binary64>, u: Binary64, var: int) -> bool {
    &&& 0 <= var <= cdf.len()
    &&& var > 0 ==> cdf[var - 1].lt_spec(u)
    &&& var < cdf.len() ==> !cdf[var].lt_spec(u)
}

/// Where the numbers below `u` come first there is one place to part them.
pub proof fn law_cut_is_unique(cdf: Seq<Binary64>, u: Binary64, var: int, k: int)
    requires
        is_cut(cdf, u, var),
        0 <= k <= cdf.len(),
        forall|i: int| 0 <= i < k ==> (#[trigger] cdf[i]).lt_spec(u),
        forall|i: int| k <= i < cdf.len() ==> !(#[trigger] cdf[i]).lt_spec(u),
    ensures
        var == k,
{
    if var < k {
        assert(cdf[var].lt_spec(u));
    } else if var > k {
        assert(!cdf[var - 1].lt_spec(u));
    }
}

/// The place of `u` among increasing numbers.
pub fn feature_at(cdf: &Vec<Binary64>, u: Binary64) -> (r: usize)
    ensures
        is_cut(cdf@, u, r as int),
{
    let mut low: usize = 0;
    let mut high: usize = cdf.len();
    while low < high
        invariant
            low <= high <= cdf@.len(),
            low > 0 ==> cdf@[low - 1].lt_spec(u),
            high < cdf@.len() ==> !cdf@[high as int].lt_spec(u),
        decreases high - low,
    {
        let middle: usize = low + (high - low) / 2;
        if cdf[middle].lt(u) {
            low = middle + 1;
        } else {
            high = middle;
        }
    }
    low
}

/// Cumulative weights have a total above zero.
pub open spec fn has_positive_total(cdf: Seq<Binary64>) -> bool {
    cdf.len() > 0 && (Binary64 { bits: ZERO_BITS }).lt_spec(cdf.last())
}

/// `var` is a feature drawn by the cumulative weights `cdf`: the place of a uniform part of
/// their total. It is the first one where the total is not positive, and nothing is drawn.
/// The draw takes the generator from `from` to `to`.
pub open spec fn is_feature_from_probs<N: Numerics>(
    num: &N,
    cdf: Seq<Binary64>,
    from: SmallRng,
    var: int,
    to: SmallRng,
) -> bool {
    if has_positive_total(cdf) {
        exists|u: Binary64, part: Binary64|
            {
                &&& is_uniform_draw(num, from, u, to)
                &&& #[trigger] is_product(num, u, cdf.last(), part)
                &&& is_cut(cdf, part, var)
            }
    } else {
        var == 0 && to == from
    }
}

/// Draws a feature by cumulative weights.
fn sample_feature_from_probs<N: Numerics>(num: &N, rng: &mut SmallRng, cdf: &Vec<Binary64>) -> (r:
    usize)
    ensures
        is_feature_from_probs(num, cdf@, *old(rng), r as int, *final(rng)),
{
    let ghost from = *rng;
    if cdf.len() == 0 {
        return 0;
    }
    let total = cdf[cdf.len() - 1];
    let zero = Binary64 { bits: ZERO_BITS };
    if !zero.lt(total) {
        return 0;
    }
    let u = draw_uniform(num, rng).value;
    assert(is_uniform_draw(num, from, u, *rng));
    let part = num.times(u, total);
    assert(is_product(num, u, cdf@.last(), part));
    feature_at(cdf, part)
}

/// `var` is a feature drawn to split on: by the cumulative weights where there are any, and
/// else any feature.
pub open spec fn is_feature_choice<N: Numerics>(
    num: &N,
    probs: Option<Vec<Binary64>>,
    n_features: nat,
    from: SmallRng,
    var: int,
    to: SmallRng,
) -> bool {
    match probs {
        Some(cdf) => is_feature_from_probs(num, cdf@, from, var, to),
        None => {
            &&& 0 <= var < n_features <= usize::MAX
            &&& is_below_draw(n_features as usize, from, var as usize, to)
        },
    }
}

/// Why no tree could be grown.
#[derive(Clone, Copy, Debug, PartialEq, Eq, Structural)]
pub enum SmcError {
    /// The cumulative weights of the features led to one that does not exist.
    NoSuchFeature,
    /// A proposal was asked of a response strategy that makes none.
    ResponseNotImplemented,
    /// The resampling strategy did not name one existing ancestor per particle.
    InvalidAncestors,
    /// No particle could be drawn by the weights.
    InvalidWeights,
}

/// The draw against the depth of a node came out so: nothing is drawn at the root, and one
/// number elsewhere.
pub open spec fn is_depth_draw<N: Numerics>(
    num: &N,
    config: BartConfig,
    depth: nat,
    from: SmallRng,
    refused: bool,
    to: SmallRng,
) -> bool {
    if depth == 0 {
        !refused && to == from
    } else {
        exists|u: Binary64, p: Binary64|
            {
                &&& is_uniform_draw(num, from, u, to)
                &&& #[trigger] is_refusal_probability(num, config.alpha, config.beta, depth, p)
                &&& refused == #[trigger] u.lt_spec(p)
            }
    }
}

/// Draws whether a node is refused for its depth.
fn refused_by_depth<N: Numerics>(
    num: &N,
    rng: &mut SmallRng,
    config: &BartConfig,
    depth: usize,
) -> (r: bool)
    ensures
        is_depth_draw(num, *config, depth as nat, *old(rng), r, *final(rng)),
{
    let ghost from = *rng;
    if depth == 0 {
        return false;
    }
    let p = refusal_probability(num, config.alpha, config.beta, depth);
    let u = draw_uniform(num, rng).value;
    assert(is_uniform_draw(num, from, u, *rng));
    u.lt(p)
}

/// `p` is what `response` proposes for node `node` of `t` with fresh draws, which take the
/// generator from `from` to `to`.
pub open spec fn is_drawn_proposal<N: Numerics, P: ResponseStrategy<N>>(
    num: &N,
    response: &P,
    t: TreeModel,
    node: usize,
    x: Matrix,
    sum_trees: Matrix,
    leaf_sd: Seq<Binary64>,
    n_trees: nat,
    n_outputs: nat,
    from: SmallRng,
    p: LeafProposal,
    to: SmallRng,
) -> bool {
    exists|left_draws: Seq<Binary64>, right_draws: Seq<Binary64>|
        {
            &&& are_noise_draws(num, n_outputs, from, left_draws, right_draws, to)
            &&& #[trigger] response.is_proposal(
                num,
                sample_numbers(t, node as u32),
                x,
                sum_trees,
                leaf_sd,
                n_trees,
                n_outputs,
                p.split_val,
                p.split_var,
                node,
                left_draws,
                right_draws,
                p,
            )
        }
}

/// What may come of a node that is next to be split.
///
/// It is rejected by the draw against its depth, or for want of samples, or because the
/// rule of the drawn feature has no threshold for their values. Otherwise it is accepted
/// with a threshold of that rule and a proposal of the response strategy. It fails where the
/// weights of the features lead to none, or where the strategy makes no proposals.
///
/// The draws are made in this order, and take the generator from `from` to `to`.
pub open spec fn is_decision<N: Numerics, S: SplitRule, P: ResponseStrategy<N>>(
    num: &N,
    config: BartConfig,
    split_rules: Seq<S>,
    response: &P,
    t: TreeModel,
    node: usize,
    x: Matrix,
    sum_trees: Matrix,
    leaf_sd: Seq<Binary64>,
    from: SmallRng,
    r: Result<MutationDecision, SmcError>,
    to: SmallRng,
) -> bool {
    let depth = node_depth(node as nat);
    let samples = sample_numbers(t, node as u32);
    match r {
        Ok(MutationDecision::Reject) => {
            ||| is_depth_draw(num, config, depth, from, true, to)
            ||| is_depth_draw(num, config, depth, from, false, to) && samples.len() == 0
            ||| samples.len() > 0 && exists|var: int, depth_drawn: SmallRng, chosen: SmallRng|
                {
                    &&& is_depth_draw(num, config, depth, from, false, depth_drawn)
                    &&& 0 <= var < x.width()
                    &&& #[trigger] is_feature_choice(
                        num,
                        config.splitting_probs,
                        x.width(),
                        depth_drawn,
                        var,
                        chosen,
                    )
                    &&& is_threshold(
                        split_rules[var],
                        column_at(x, var, samples),
                        chosen,
                        None,
                        to,
                    )
                }
        },
        Ok(MutationDecision::Accept(proposal)) => {
            let p = proposal.leaf_proposal;
            let var = p.split_var as int;
            &&& response.is_implemented()
            &&& samples.len() > 0
            &&& p.node_idx == node
            &&& var < x.width()
            &&& payload_variable(p.left, p.split_var)
            &&& payload_variable(p.right, p.split_var)
            &&& exists|depth_drawn: SmallRng, chosen: SmallRng, parted: SmallRng|
                {
                    &&& is_depth_draw(num, config, depth, from, false, depth_drawn)
                    &&& #[trigger] is_feature_choice(
                        num,
                        config.splitting_probs,
                        x.width(),
                        depth_drawn,
                        var,
                        chosen,
                    )
                    &&& #[trigger] is_threshold(
                        split_rules[var],
                        column_at(x, var, samples),
                        chosen,
                        Some(p.split_val),
                        parted,
                    )
                    &&& is_drawn_proposal(
                        num,
                        response,
                        t,
                        node,
                        x,
                        sum_trees,
                        leaf_sd,
                        config.n_trees as nat,
                        config.n_outputs as nat,
                        parted,
                        p,
                        to,
                    )
                }
        },
        Err(e) => {
            &&& samples.len() > 0
            &&& match e {
                SmcError::NoSuchFeature => config.splitting_probs is Some && exists|
                    var: int,
                    depth_drawn: SmallRng,
                |
                    {
                        &&& is_depth_draw(num, config, depth, from, false, depth_drawn)
                        &&& var >= x.width()
                        &&& #[trigger] is_feature_choice(
                            num,
                            config.splitting_probs,
                            x.width(),
                            depth_drawn,
                            var,
                            to,
                        )
                    },
                SmcError::ResponseNotImplemented => !response.is_implemented() && exists|
                    var: int,
                    val: Binary64,
                    depth_drawn: SmallRng,
                    chosen: SmallRng,
                |
                    {
                        &&& is_depth_draw(num, config, depth, from, false, depth_drawn)
                        &&& 0 <= var < x.width()
                        &&& #[trigger] is_feature_choice(
                            num,
                            config.splitting_probs,
                            x.width(),
                            depth_drawn,
                            var,
                            chosen,
                        )
                        &&& #[trigger] is_threshold(
                            split_rules[var],
                            column_at(x, var, samples),
                            chosen,
                            Some(val),
                            to,
                        )
                    },
                _ => false,
            }
        },
    }
}

/// There is a feature to choose wherever one is asked for.
pub open spec fn can_choose_feature(config: BartConfig, x: Matrix) -> bool {
    x.width() > 0 || config.splitting_probs is Some || x.height() == 0
}

/// Data, settings and scores fit together.
pub open spec fn smc_inputs_ok<S: SplitRule>(
    config: BartConfig,
    split_rules: Seq<S>,
    x: Matrix,
    sum_trees: Matrix,
    leaf_sd: Seq<Binary64>,
) -> bool {
    &&& x.height() <= u32::MAX
    &&& x.width() <= u32::MAX
    &&& can_choose_feature(config, x) || config.max_depth == 0 || config.n_particles == 1
    &&& split_rules.len() >= x.width()
    &&& sum_trees.height() == config.n_outputs
    &&& sum_trees.width() == x.height()
    &&& leaf_sd.len() >= config.n_outputs
}

/// Proposes what to do with a node of a particle.
pub fn propose_mutation<N: Numerics, S: SplitRule, P: ResponseStrategy<N>>(
    num: &N,
    rng: &mut SmallRng,
    particle: &Particle,
    node_idx: usize,
    sum_trees: &Matrix,
    config: &BartConfig,
    data: &OwnedData,
    split_rules: &Vec<S>,
    leaf_sd: &Vec<Binary64>,
    response: &P,
) -> (r: Result<MutationDecision, SmcError>)
    requires
        smc_inputs_ok(*config, split_rules@, data.x, *sum_trees, leaf_sd@),
        can_choose_feature(*config, data.x),
        particle.tree@.is_leaf(node_idx as int),
        particle.tree@.leaf_indices.len() == data.x.height(),
    ensures
        is_decision(
            num,
            *config,
            split_rules@,
            response,
            particle.tree@,
            node_idx,
            data.x,
            *sum_trees,
            leaf_sd@,
            *old(rng),
            r,
            *final(rng),
        ),
{
    let ghost t = particle.tree@;
    let ghost x = data.x;
    assert(particle.tree.split_var.len() == t.len());
    let depth = particle.tree.get_depth(node_idx);
    if refused_by_depth(num, rng, config, depth) {
        return Ok(MutationDecision::Reject);
    }
    let ghost depth_drawn = *rng;
    let node_samples = particle.leaf_samples(node_idx);
    if node_samples.len() == 0 {
        return Ok(MutationDecision::Reject);
    }
    proof {
        assert(particle.tree.leaf_indices.len() == t.leaf_indices.len());
        law_leaf_samples(t, node_idx as u32, t.leaf_indices.len());
        assert forall|k: int| 0 <= k < node_samples@.len() implies #[trigger] node_samples@[k]
            < x.height() by {
            let s = t.samples_below(node_idx as u32, t.leaf_indices.len())[k];
            assert(s < x.height());
        }
        assert(node_samples@[0] < x.height());
    }
    let split_var: usize = match &config.splitting_probs {
        Some(probs) => sample_feature_from_probs(num, rng, probs),
        None => {
            let drawn = draw_below(rng, data.n_features()).value;
            assert(is_below_draw(x.width() as usize, depth_drawn, drawn, *rng));
            drawn
        },
    };
    let ghost chosen = *rng;
    assert(is_feature_choice(
        num,
        config.splitting_probs,
        x.width(),
        depth_drawn,
        split_var as int,
        chosen,
    ));
    if split_var >= data.n_features() {
        return Err(SmcError::NoSuchFeature);
    }
    let values = read_column(&data.x, split_var, &node_samples);
    let threshold = draw_threshold(&split_rules[split_var], rng, &values).value;
    let ghost parted = *rng;
    assert(is_threshold(split_rules@[split_var as int], values@, chosen, threshold, parted));
    let split_val = match threshold {
        Some(v) => v,
        None => {
            return Ok(MutationDecision::Reject);
        },
    };
    if !response.can_propose() {
        return Err(SmcError::ResponseNotImplemented);
    }
    let leaf_proposal = response.sample_leaf_proposal(
        num,
        rng,
        &node_samples,
        &data.x,
        sum_trees,
        leaf_sd,
        config.n_trees,
        config.n_outputs,
        split_val,
        split_var as u32,
        node_idx,
    );
    Ok(MutationDecision::Accept(TreeProposal { leaf_proposal }))
}

} // verus!
