//! What decides whether and how a node is split.
use crate::binary64::{count_number, Binary64, ONE_BITS, ZERO_BITS};
use crate::config::BartConfig;
use crate::draws::{is_below_draw, is_threshold, is_uniform_draw};
use crate::matrix::Matrix;
use crate::mutation::{
    is_cut, is_decision, is_depth_draw, is_drawn_proposal, is_feature_choice,
    is_refusal_probability, SmcError,
};
use crate::numerics::{is_difference, is_power, is_product, is_sum, Numerics};
use crate::particle::{mutated, new_expandable, sample_numbers, ParticleModel};
use crate::repeat_laws::is_cumulative;
use crate::resampling::ResamplingStrategy;
use crate::response::{are_noise_draws, column_at, ResponseStrategy};
use crate::smc::SmcInputs;
use crate::splitting::SplitRule;
use crate::tree_laws::{
    law_child_depth, law_depth_is_logarithm, law_leaf_samples, law_max_nodes_by_depth,
};
use crate::tree_model::{node_depth, TreeModel};
use crate::update::MutationDecision;
use crate::weight::WeightFn;
use rand::rngs::SmallRng;
use vstd::arithmetic::power2::{lemma_pow2_strictly_increases, pow2};
use vstd::prelude::*;

verus! {

/// Node `node` lies `d` edges below the root: `d` is `floor(log2(node + 1))`.
pub open spec fn lies_at(node: int, d: nat) -> bool {
    pow2(d) <= node + 1 < pow2(d + 1)
}

/// `p` is the answer to `1 - alpha * (1 + d)^(-beta)`.
pub open spec fn is_prior_refusal<N: Numerics>(
    num: &N,
    alpha: Binary64,
    beta: Binary64,
    d: nat,
    p: Binary64,
) -> bool {
    let one = Binary64 { bits: ONE_BITS };
    exists|base: Binary64, power: Binary64, product: Binary64|
        {
            &&& call_ensures(N::plus, (num, one, count_number(d)), base)
            &&& #[trigger] call_ensures(N::powf, (num, base, beta.negated_spec()), power)
            &&& #[trigger] call_ensures(N::times, (num, alpha, power), product)
            &&& call_ensures(N::minus, (num, one, product), p)
        }
}

/// `samples` are the training samples in node `node`, in ascending order.
pub open spec fn are_samples_of(t: TreeModel, node: int, samples: Seq<u32>) -> bool {
    &&& forall|a: int, b: int| 0 <= a < b < samples.len() ==> samples[a] < samples[b]
    &&& forall|s: int|
        0 <= s < t.leaf_indices.len() ==> (#[trigger] t.leaf_indices[s] == node
            <==> samples.contains(s as u32))
    &&& forall|a: int|
        0 <= a < samples.len() ==> #[trigger] samples[a] < t.leaf_indices.len()
}

/// `var` is drawn by the cumulative weights where there are any: it is the first one that
/// reaches a uniform part of their total. Without a positive total it is the first feature,
/// without weights it is any, each as likely.
pub open spec fn is_feature_drawn<N: Numerics>(
    num: &N,
    probs: Option<Vec<Binary64>>,
    width: nat,
    from: SmallRng,
    var: int,
    to: SmallRng,
) -> bool {
    match probs {
        Some(cdf) => if cdf@.len() > 0 && (Binary64 { bits: ZERO_BITS }).lt_spec(
            cdf@[cdf@.len() - 1],
        ) {
            exists|u: Binary64, part: Binary64|
                {
                    &&& is_uniform_draw(num, from, u, to)
                    &&& #[trigger] call_ensures(
                        N::times,
                        (num, u, cdf@[cdf@.len() - 1]),
                        part,
                    )
                    &&& 0 <= var <= cdf@.len()
                    &&& var < cdf@.len() ==> !cdf@[var].lt_spec(part)
                    &&& is_cumulative(cdf@) ==> forall|i: int|
                        0 <= i < var ==> (#[trigger] cdf@[i]).lt_spec(part)
                }
        } else {
            var == 0 && to == from
        },
        None => {
            &&& 0 <= var < width
            &&& is_below_draw(width as usize, from, var as usize, to)
        },
    }
}

/// What comes of a node that its depth does not refuse, from the state `from` of the
/// generator on. Without samples it is rejected. Else a feature is drawn, and its rule is
/// asked for a threshold with the values of that feature in the samples of the node; without
/// one the node is rejected. With one, the strategy proposes leaves for this split of these
/// samples.
pub open spec fn is_attempt<N: Numerics, S: SplitRule, P: ResponseStrategy<N>>(
    num: &N,
    config: BartConfig,
    split_rules: Seq<S>,
    response: &P,
    x: Matrix,
    sum_trees: Matrix,
    leaf_sd: Seq<Binary64>,
    samples: Seq<u32>,
    node: usize,
    from: SmallRng,
    r: Result<MutationDecision, SmcError>,
    to: SmallRng,
) -> bool {
    if samples.len() == 0 {
        r == Ok::<MutationDecision, SmcError>(MutationDecision::Reject) && to == from
    } else {
        exists|var: int, chosen: SmallRng|
            {
                &&& #[trigger] is_feature_drawn(
                    num,
                    config.splitting_probs,
                    x.width(),
                    from,
                    var,
                    chosen,
                )
                &&& if var >= x.width() {
                    r == Err::<MutationDecision, SmcError>(SmcError::NoSuchFeature) && to == chosen
                } else {
                    is_split_attempt(
                        num,
                        config,
                        split_rules[var],
                        response,
                        x,
                        sum_trees,
                        leaf_sd,
                        samples,
                        node,
                        var,
                        chosen,
                        r,
                        to,
                    )
                }
            }
    }
}

/// What comes of a node for which feature `var` was drawn, from the state `from` on.
pub open spec fn is_split_attempt<N: Numerics, S: SplitRule, P: ResponseStrategy<N>>(
    num: &N,
    config: BartConfig,
    rule: S,
    response: &P,
    x: Matrix,
    sum_trees: Matrix,
    leaf_sd: Seq<Binary64>,
    samples: Seq<u32>,
    node: usize,
    var: int,
    from: SmallRng,
    r: Result<MutationDecision, SmcError>,
    to: SmallRng,
) -> bool {
    exists|values: Seq<Binary64>, threshold: Option<Binary64>, parted: SmallRng|
        {
            &&& #[trigger] is_threshold(rule, values, from, threshold, parted)
            &&& values.len() == samples.len()
            &&& forall|k: int|
                0 <= k < values.len() ==> #[trigger] values[k] == x.at(samples[k] as int, var)
            &&& match threshold {
                None => {
                    &&& r == Ok::<MutationDecision, SmcError>(MutationDecision::Reject)
                    &&& to == parted
                },
                Some(val) => if !response.is_implemented() {
                    &&& r == Err::<MutationDecision, SmcError>(SmcError::ResponseNotImplemented)
                    &&& to == parted
                } else {
                    is_split_proposed(
                        num,
                        config,
                        response,
                        x,
                        sum_trees,
                        leaf_sd,
                        samples,
                        node,
                        var,
                        val,
                        parted,
                        r,
                        to,
                    )
                },
            }
        }
}

/// The node is accepted with what the strategy proposes for a split of its samples by feature
/// `var` at `val`, with fresh draws.
pub open spec fn is_split_proposed<N: Numerics, P: ResponseStrategy<N>>(
    num: &N,
    config: BartConfig,
    response: &P,
    x: Matrix,
    sum_trees: Matrix,
    leaf_sd: Seq<Binary64>,
    samples: Seq<u32>,
    node: usize,
    var: int,
    val: Binary64,
    from: SmallRng,
    r: Result<MutationDecision, SmcError>,
    to: SmallRng,
) -> bool {
    &&& r matches Ok(MutationDecision::Accept(proposal))
    &&& {
        let p = proposal.leaf_proposal;
        &&& p.node_idx == node
        &&& p.split_var == var
        &&& p.split_val == val
        &&& exists|left: Seq<Binary64>, right: Seq<Binary64>|
            {
                &&& are_noise_draws(num, config.n_outputs as nat, from, left, right, to)
                &&& #[trigger] response.is_proposal(
                    num,
                    samples,
                    x,
                    sum_trees,
                    leaf_sd,
                    config.n_trees as nat,
                    config.n_outputs as nat,
                    val,
                    p.split_var,
                    node,
                    left,
                    right,
                    p,
                )
            }
    }
}

proof fn lemma_one_depth(node: nat, d: nat)
    requires
        lies_at(node as int, d),
    ensures
        d == node_depth(node),
{
    law_depth_is_logarithm(node);
    let e = node_depth(node);
    if d < e {
        if d + 1 < e {
            lemma_pow2_strictly_increases(d + 1, e);
        }
    } else if e < d {
        if e + 1 < d {
            lemma_pow2_strictly_increases(e + 1, d);
        }
    }
}

proof fn lemma_samples_of(t: TreeModel, node: usize)
    requires
        node <= u32::MAX,
        t.leaf_indices.len() <= u32::MAX,
        t.leaf_indices.len() <= usize::MAX,
    ensures
        are_samples_of(t, node as int, sample_numbers(t, node as u32)),
{
    let n = t.leaf_indices.len();
    law_leaf_samples(t, node as u32, n);
    let below = t.samples_below(node as u32, n);
    let samples = sample_numbers(t, node as u32);
    assert forall|s: int| 0 <= s < n implies (#[trigger] t.leaf_indices[s] == node
        <==> samples.contains(s as u32)) by {
        if t.leaf_indices[s] == node {
            assert(below.contains(s as usize));
            let a = choose|a: int| 0 <= a < below.len() && below[a] == s as usize;
            assert(samples[a] == s as u32);
        }
        if samples.contains(s as u32) {
            let a = choose|a: int| 0 <= a < samples.len() && samples[a] == s as u32;
            assert(below[a] < n);
            assert(below[a] == s as usize);
            assert(below.contains(s as usize));
        }
    }
    assert forall|a: int, b: int| 0 <= a < b < samples.len() implies samples[a] < samples[b] by {
        assert(below[a] < below[b]);
        assert(below[b] < n);
    }
    assert forall|a: int| 0 <= a < samples.len() implies #[trigger] samples[a] < n by {
        assert(below[a] < n);
    }
}

proof fn lemma_feature_drawn<N: Numerics>(
    num: &N,
    probs: Option<Vec<Binary64>>,
    width: nat,
    from: SmallRng,
    var: int,
    to: SmallRng,
)
    requires
        is_feature_choice(num, probs, width, from, var, to),
    ensures
        is_feature_drawn(num, probs, width, from, var, to),
{
    if probs is Some {
        let cdf = probs->0@;
        if cdf.len() > 0 && (Binary64 { bits: ZERO_BITS }).lt_spec(cdf.last()) {
            let (u, part) = choose|u: Binary64, part: Binary64|
                {
                    &&& is_uniform_draw(num, from, u, to)
                    &&& #[trigger] is_product(num, u, cdf.last(), part)
                    &&& is_cut(cdf, part, var)
                };
            assert(call_ensures(N::times, (num, u, cdf[cdf.len() - 1]), part));
            if is_cumulative(cdf) {
                assert forall|i: int| 0 <= i < var implies (#[trigger] cdf[i]).lt_spec(
                    part,
                ) by {
                    assert(cdf[var - 1].lt_spec(part));
                }
            }
        }
    }
}

/// The prior decides first: a node at depth `d` below the root is rejected right away where
/// one uniform draw lies below `1 - alpha * (1 + d)^(-beta)`, and only there. Nothing is drawn
/// for the root. A node that is not refused is attempted with the samples in it.
pub proof fn law_prior_decides_first<N: Numerics, S: SplitRule, P: ResponseStrategy<N>>(
    num: &N,
    config: BartConfig,
    split_rules: Seq<S>,
    response: &P,
    t: TreeModel,
    node: usize,
    x: Matrix,
    sum_trees: Matrix,
    leaf_sd: Seq<Binary64>,
    from: SmallRng,
    r: Result<MutationDecision, SmcError>,
    to: SmallRng,
    d: nat,
    samples: Seq<u32>,
)
    requires
        is_decision(
            num,
            config,
            split_rules,
            response,
            t,
            node,
            x,
            sum_trees,
            leaf_sd,
            from,
            r,
            to,
        ),
        lies_at(node as int, d),
        are_samples_of(t, node as int, samples),
        node <= u32::MAX,
        t.leaf_indices.len() <= u32::MAX,
        t.leaf_indices.len() <= usize::MAX,
    ensures
        d == 0 ==> is_attempt(
            num,
            config,
            split_rules,
            response,
            x,
            sum_trees,
            leaf_sd,
            samples,
            node,
            from,
            r,
            to,
        ),
        d > 0 ==> exists|u: Binary64, p: Binary64, drawn: SmallRng|
            {
                &&& #[trigger] is_uniform_draw(num, from, u, drawn)
                &&& #[trigger] is_prior_refusal(num, config.alpha, config.beta, d, p)
                &&& if u.lt_spec(p) {
                    &&& r == Ok::<MutationDecision, SmcError>(MutationDecision::Reject)
                    &&& to == drawn
                } else {
                    is_attempt(
                        num,
                        config,
                        split_rules,
                        response,
                        x,
                        sum_trees,
                        leaf_sd,
                        samples,
                        node,
                        drawn,
                        r,
                        to,
                    )
                }
            },
{
    lemma_one_depth(node as nat, d);
    lemma_samples_of(t, node);
    lemma_same_samples_of(t, node as int, samples, sample_numbers(t, node as u32));
    let probs = config.splitting_probs;
    assert forall|g: SmallRng, var: int, h: SmallRng| #[trigger]
        is_feature_choice(num, probs, x.width(), g, var, h) implies is_feature_drawn(
        num,
        probs,
        x.width(),
        g,
        var,
        h,
    ) by {
        lemma_feature_drawn(num, probs, x.width(), g, var, h);
    }
    let refused = is_depth_draw(num, config, d, from, true, to) && r == Ok::<
        MutationDecision,
        SmcError,
    >(MutationDecision::Reject);
    let reached = lemma_attempt(
        num,
        config,
        split_rules,
        response,
        t,
        node,
        x,
        sum_trees,
        leaf_sd,
        from,
        r,
        to,
    );
    if d > 0 {
        if refused {
            let (u, p) = choose|u: Binary64, p: Binary64|
                {
                    &&& is_uniform_draw(num, from, u, to)
                    &&& #[trigger] is_refusal_probability(num, config.alpha, config.beta, d, p)
                    &&& true == #[trigger] u.lt_spec(p)
                };
            lemma_prior_refusal(num, config.alpha, config.beta, d, p);
            assert(is_uniform_draw(num, from, u, to));
        } else {
            let (u, p) = choose|u: Binary64, p: Binary64|
                {
                    &&& is_uniform_draw(num, from, u, reached)
                    &&& #[trigger] is_refusal_probability(num, config.alpha, config.beta, d, p)
                    &&& false == #[trigger] u.lt_spec(p)
                };
            lemma_prior_refusal(num, config.alpha, config.beta, d, p);
            assert(is_uniform_draw(num, from, u, reached));
        }
    }
}

proof fn lemma_prior_refusal<N: Numerics>(
    num: &N,
    alpha: Binary64,
    beta: Binary64,
    d: nat,
    p: Binary64,
)
    requires
        is_refusal_probability(num, alpha, beta, d, p),
    ensures
        is_prior_refusal(num, alpha, beta, d, p),
{
    let one = Binary64 { bits: ONE_BITS };
    let (base, power, product) = choose|base: Binary64, power: Binary64, product: Binary64|
        {
            &&& is_sum(num, one, count_number(d), base)
            &&& #[trigger] is_power(num, base, beta.negated_spec(), power)
            &&& #[trigger] is_product(num, alpha, power, product)
            &&& is_difference(num, one, product, p)
        };
    assert(call_ensures(N::powf, (num, base, beta.negated_spec()), power));
    assert(call_ensures(N::times, (num, alpha, power), product));
}

/// There is one ascending list of the samples in a node.
proof fn lemma_same_samples_of(t: TreeModel, node: int, a: Seq<u32>, b: Seq<u32>)
    requires
        are_samples_of(t, node, a),
        are_samples_of(t, node, b),
        t.leaf_indices.len() <= u32::MAX,
    ensures
        a == b,
{
    lemma_prefix_of(t, node, a, b, a.len() as int);
    lemma_prefix_of(t, node, b, a, b.len() as int);
    assert(a =~= b);
}

/// The first `k` samples of one list are those of the other.
proof fn lemma_prefix_of(t: TreeModel, node: int, a: Seq<u32>, b: Seq<u32>, k: int)
    requires
        are_samples_of(t, node, a),
        are_samples_of(t, node, b),
        0 <= k <= a.len(),
        t.leaf_indices.len() <= u32::MAX,
    ensures
        k <= b.len(),
        forall|i: int| 0 <= i < k ==> a[i] == b[i],
    decreases k,
{
    if k > 0 {
        let i = k - 1;
        lemma_prefix_of(t, node, a, b, i);
        let s = a[i];
        assert(a.contains(s));
        assert(t.leaf_indices[s as int] == node);
        assert(b.contains(s));
        let j = choose|j: int| 0 <= j < b.len() && b[j] == s;
        if j < i {
            assert(a[j] == b[j]);
        } else if j > i {
            let u = b[i];
            assert(u < s);
            assert(b.contains(u));
            assert(t.leaf_indices[u as int] == node);
            assert(a.contains(u));
            let m = choose|m: int| 0 <= m < a.len() && a[m] == u;
            if m < i {
                assert(a[m] == b[m]);
            } else if m > i {
                assert(a[i] < a[m]);
            }
        }
    }
}

/// A decision is a refusal by depth, or an attempt from the state after that draw.
proof fn lemma_attempt<N: Numerics, S: SplitRule, P: ResponseStrategy<N>>(
    num: &N,
    config: BartConfig,
    split_rules: Seq<S>,
    response: &P,
    t: TreeModel,
    node: usize,
    x: Matrix,
    sum_trees: Matrix,
    leaf_sd: Seq<Binary64>,
    from: SmallRng,
    r: Result<MutationDecision, SmcError>,
    to: SmallRng,
) -> (g: SmallRng)
    requires
        is_decision(
            num,
            config,
            split_rules,
            response,
            t,
            node,
            x,
            sum_trees,
            leaf_sd,
            from,
            r,
            to,
        ),
    ensures
        ({
            let d = node_depth(node as nat);
            ||| {
                &&& is_depth_draw(num, config, d, from, true, to)
                &&& r == Ok::<MutationDecision, SmcError>(MutationDecision::Reject)
            }
            ||| {
                &&& is_depth_draw(num, config, d, from, false, g)
                &&& is_attempt(
                    num,
                    config,
                    split_rules,
                    response,
                    x,
                    sum_trees,
                    leaf_sd,
                    sample_numbers(t, node as u32),
                    node,
                    g,
                    r,
                    to,
                )
            }
        }),
{
    let d = node_depth(node as nat);
    let samples = sample_numbers(t, node as u32);
    let probs = config.splitting_probs;
    let refused = is_depth_draw(num, config, d, from, true, to);
    if r == Ok::<MutationDecision, SmcError>(MutationDecision::Reject) && refused {
        to
    } else if r is Ok && r->Ok_0 is Reject {
        if samples.len() == 0 {
            to
        } else {
            let (var, drawn, chosen) = choose|var: int, drawn: SmallRng, chosen: SmallRng|
                {
                    &&& is_depth_draw(num, config, d, from, false, drawn)
                    &&& 0 <= var < x.width()
                    &&& #[trigger] is_feature_choice(
                        num,
                        probs,
                        x.width(),
                        drawn,
                        var,
                        chosen,
                    )
                    &&& is_threshold(
                        split_rules[var],
                        column_at(x, var, samples),
                        chosen,
                        None,
                        to,
                    )
                };
            lemma_feature_drawn(num, probs, x.width(), drawn, var, chosen);
            assert(is_threshold(
                split_rules[var],
                column_at(x, var, samples),
                chosen,
                None::<Binary64>,
                to,
            ));
            assert(is_split_attempt(
                num,
                config,
                split_rules[var],
                response,
                x,
                sum_trees,
                leaf_sd,
                samples,
                node,
                var,
                chosen,
                r,
                to,
            ));
            drawn
        }
    } else if r is Ok {
        let p = r->Ok_0->Accept_0.leaf_proposal;
        let var = p.split_var as int;
        let (drawn, chosen, parted) = choose|
            drawn: SmallRng,
            chosen: SmallRng,
            parted: SmallRng,
        |
            {
                &&& is_depth_draw(num, config, d, from, false, drawn)
                &&& #[trigger] is_feature_choice(num, probs, x.width(), drawn, var, chosen)
                &&& #[trigger] is_threshold(
                    split_rules[var],
                    column_at(x, var, samples),
                    chosen,
                    Some(p.split_val),
                    parted,
                )
                &&& is_drawn_proposal(
                    num,
                    response,
                    t,
                    node,
                    x,
                    sum_trees,
                    leaf_sd,
                    config.n_trees as nat,
                    config.n_outputs as nat,
                    parted,
                    p,
                    to,
                )
            };
        lemma_feature_drawn(num, probs, x.width(), drawn, var, chosen);
        assert(is_split_proposed(
            num,
            config,
            response,
            x,
            sum_trees,
            leaf_sd,
            samples,
            node,
            var,
            p.split_val,
            parted,
            r,
            to,
        ));
        assert(is_split_attempt(
            num,
            config,
            split_rules[var],
            response,
            x,
            sum_trees,
            leaf_sd,
            samples,
            node,
            var,
            chosen,
            r,
            to,
        ));
        drawn
    } else if r->Err_0 == SmcError::NoSuchFeature {
        let (var, drawn) = choose|var: int, drawn: SmallRng|
            {
                &&& is_depth_draw(num, config, d, from, false, drawn)
                &&& var >= x.width()
                &&& #[trigger] is_feature_choice(num, probs, x.width(), drawn, var, to)
            };
        lemma_feature_drawn(num, probs, x.width(), drawn, var, to);
        drawn
    } else {
        let (var, val, drawn, chosen) = choose|
            var: int,
            val: Binary64,
            drawn: SmallRng,
            chosen: SmallRng,
        |
            {
                &&& is_depth_draw(num, config, d, from, false, drawn)
                &&& 0 <= var < x.width()
                &&& #[trigger] is_feature_choice(num, probs, x.width(), drawn, var, chosen)
                &&& #[trigger] is_threshold(
                    split_rules[var],
                    column_at(x, var, samples),
                    chosen,
                    Some(val),
                    to,
                )
            };
        lemma_feature_drawn(num, probs, x.width(), drawn, var, chosen);
        assert(is_split_attempt(
            num,
            config,
            split_rules[var],
            response,
            x,
            sum_trees,
            leaf_sd,
            samples,
            node,
            var,
            chosen,
            r,
            to,
        ));
        drawn
    }
}

/// Sums with one, powers with the exponent of the prior, products with its factor and
/// differences from one keep or turn the order, as they do in binary64 arithmetic where
/// `alpha` and `beta` are not negative.
pub open spec fn keeps_prior_order<N: Numerics>(num: &N, alpha: Binary64, beta: Binary64) -> bool {
    let one = Binary64 { bits: ONE_BITS };
    &&& forall|d: nat, e: nat, a: Binary64, b: Binary64|
        {
            &&& d <= e
            &&& #[trigger] call_ensures(N::plus, (num, one, count_number(d)), a)
            &&& #[trigger] call_ensures(N::plus, (num, one, count_number(e)), b)
        } ==> a.le_spec(b)
    &&& forall|a: Binary64, b: Binary64, p: Binary64, q: Binary64|
        {
            &&& a.le_spec(b)
            &&& #[trigger] call_ensures(N::powf, (num, a, beta.negated_spec()), p)
            &&& #[trigger] call_ensures(N::powf, (num, b, beta.negated_spec()), q)
        } ==> q.le_spec(p)
    &&& forall|a: Binary64, b: Binary64, p: Binary64, q: Binary64|
        {
            &&& a.le_spec(b)
            &&& #[trigger] call_ensures(N::times, (num, alpha, a), p)
            &&& #[trigger] call_ensures(N::times, (num, alpha, b), q)
        } ==> p.le_spec(q)
    &&& forall|a: Binary64, b: Binary64, p: Binary64, q: Binary64|
        {
            &&& a.le_spec(b)
            &&& #[trigger] call_ensures(N::minus, (num, one, a), p)
            &&& #[trigger] call_ensures(N::minus, (num, one, b), q)
        } ==> q.le_spec(p)
}

/// Deeper nodes are split more rarely: where the arithmetic keeps the order, a uniform draw
/// that refuses a node refuses every deeper node too.
pub proof fn law_deeper_nodes_are_refused<N: Numerics>(
    num: &N,
    config: BartConfig,
    node: nat,
    deeper: nat,
    from: SmallRng,
    to: SmallRng,
    refused: bool,
    other: SmallRng,
)
    requires
        keeps_prior_order(num, config.alpha, config.beta),
        forall|u: Binary64, v: Binary64, g: SmallRng, h: SmallRng|
            {
                &&& #[trigger] is_uniform_draw(num, from, u, g)
                &&& #[trigger] is_uniform_draw(num, from, v, h)
            } ==> u == v,
        0 < node_depth(node) <= node_depth(deeper),
        is_depth_draw(num, config, node_depth(node), from, true, to),
        is_depth_draw(num, config, node_depth(deeper), from, refused, other),
    ensures
        refused,
{
    let d = node_depth(node);
    let e = node_depth(deeper);
    let (u, p) = choose|u: Binary64, p: Binary64|
        {
            &&& is_uniform_draw(num, from, u, to)
            &&& #[trigger] is_refusal_probability(num, config.alpha, config.beta, d, p)
            &&& true == #[trigger] u.lt_spec(p)
        };
    let (v, q) = choose|u: Binary64, p: Binary64|
        {
            &&& is_uniform_draw(num, from, u, other)
            &&& #[trigger] is_refusal_probability(num, config.alpha, config.beta, e, p)
            &&& refused == #[trigger] u.lt_spec(p)
        };
    assert(u == v);
    law_refusals_grow(num, config.alpha, config.beta, d, e, p, q);
}

/// The probability of a refusal grows with the depth, where the arithmetic keeps the order.
pub proof fn law_refusals_grow<N: Numerics>(
    num: &N,
    alpha: Binary64,
    beta: Binary64,
    d: nat,
    e: nat,
    p: Binary64,
    q: Binary64,
)
    requires
        keeps_prior_order(num, alpha, beta),
        d <= e,
        is_refusal_probability(num, alpha, beta, d, p),
        is_refusal_probability(num, alpha, beta, e, q),
    ensures
        p.le_spec(q),
{
    lemma_prior_refusal(num, alpha, beta, d, p);
    lemma_prior_refusal(num, alpha, beta, e, q);
    let one = Binary64 { bits: ONE_BITS };
    let (a, b, c) = choose|base: Binary64, power: Binary64, product: Binary64|
        {
            &&& call_ensures(N::plus, (num, one, count_number(d)), base)
            &&& #[trigger] call_ensures(N::powf, (num, base, beta.negated_spec()), power)
            &&& #[trigger] call_ensures(N::times, (num, alpha, power), product)
            &&& call_ensures(N::minus, (num, one, product), p)
        };
    let (f, g, h) = choose|base: Binary64, power: Binary64, product: Binary64|
        {
            &&& call_ensures(N::plus, (num, one, count_number(e)), base)
            &&& #[trigger] call_ensures(N::powf, (num, base, beta.negated_spec()), power)
            &&& #[trigger] call_ensures(N::times, (num, alpha, power), product)
            &&& call_ensures(N::minus, (num, one, product), q)
        };
    assert(a.le_spec(f));
    assert(g.le_spec(b));
    assert(h.le_spec(c));
}

/// A visit takes the node that has waited longest off the queue and leaves the log-weight.
/// Where it is not split the tree stays. Where it is, the tree is mutated as accepted, and
/// those of its children that lie above the greatest depth wait behind all others.
pub proof fn law_visit_takes_the_first<
    'a,
    N: Numerics,
    S: SplitRule,
    P: ResponseStrategy<N>,
    R: ResamplingStrategy,
    W: WeightFn,
>(
    inputs: SmcInputs<'a, N, S, P, R, W>,
    from: SmallRng,
    before: ParticleModel,
    after: ParticleModel,
    accepted: bool,
    to: SmallRng,
)
    requires
        inputs.is_visit(from, before, after, accepted, to),
        forall|k: int|
            0 <= k < before.expandable.len() ==> 2 * #[trigger] before.expandable[k] + 2
                <= u32::MAX,
    ensures
        after.log_weight == before.log_weight,
        before.expandable.len() == 0 ==> !accepted && after == before && to == from,
        before.expandable.len() > 0 && !accepted ==> {
            &&& after.tree == before.tree
            &&& after.expandable == before.expandable.skip(1)
        },
        before.expandable.len() > 0 && accepted ==> {
            let node = before.expandable[0];
            let left = (2 * node + 1) as u32;
            let right = (2 * node + 2) as u32;
            &&& exists|decision: MutationDecision|
                {
                    &&& #[trigger] inputs.is_decision(
                        from,
                        before.tree,
                        node as usize,
                        Ok(decision),
                        to,
                    )
                    &&& decision matches MutationDecision::Accept(proposal)
                    &&& after.tree == mutated(
                        before.tree,
                        proposal.leaf_proposal,
                        inputs.data.x,
                    )
                }
            &&& after.expandable == before.expandable.skip(1) + if node_depth(left as nat)
                < before.tree.max_depth {
                seq![left, right]
            } else {
                Seq::empty()
            }
        },
        !accepted && before.expandable.len() > 0 ==> inputs.is_decision(
            from,
            before.tree,
            before.expandable[0] as usize,
            Ok(MutationDecision::Reject),
            to,
        ),
{
    if before.expandable.len() > 0 {
        let node = before.expandable[0] as usize;
        assert(before.expandable.drop_first() =~= before.expandable.skip(1));
        let decision = choose|decision: MutationDecision|
            {
                &&& #[trigger] inputs.is_decision(from, before.tree, node, Ok(decision), to)
                &&& match decision {
                    MutationDecision::Reject => {
                        &&& !accepted
                        &&& after == ParticleModel {
                            expandable: before.expandable.drop_first(),
                            ..before
                        }
                    },
                    MutationDecision::Accept(proposal) => {
                        &&& accepted
                        &&& after == ParticleModel {
                            tree: mutated(
                                before.tree,
                                proposal.leaf_proposal,
                                inputs.data.x,
                            ),
                            expandable: before.expandable.drop_first() + new_expandable(
                                before.tree,
                                node as int,
                            ),
                            ..before
                        }
                    },
                }
            };
        if accepted {
            let i = node as nat;
            let m = before.tree.max_depth;
            law_child_depth(i);
            law_child_depth(2 * i + 1);
            law_child_depth(2 * i + 2);
            law_max_nodes_by_depth(2 * (2 * i + 1) + 2, m);
            law_max_nodes_by_depth(2 * (2 * i + 2) + 2, m);
            let left = (2 * i + 1) as u32;
            let right = (2 * i + 2) as u32;
            assert(new_expandable(before.tree, node as int) =~= if node_depth(left as nat) < m {
                seq![left, right]
            } else {
                Seq::empty()
            });
        } else {
            assert(inputs.is_decision(
                from,
                before.tree,
                node,
                Ok(MutationDecision::Reject),
                to,
            ));
        }
    }
}

} // verus!
