//! One sequential Monte Carlo step: growing a new tree for the forest.
use crate::binary64::{count_number, Binary64, ZERO_BITS};
use crate::config::BartConfig;
use crate::data::{is_mean_response, OwnedData};
use crate::draws::{are_ancestors, draw_ancestors, draw_weighted, is_weighted_draw};
use crate::matrix::{
    can_allocate, flat, flattened, is_matrix_difference, is_matrix_sum, matrix_difference,
    matrix_sum, Matrix,
};
use crate::mutation::{is_decision, propose_mutation, smc_inputs_ok, SmcError};
use crate::numerics::{is_difference, is_exponential, is_quotient, is_total, Numerics};
use crate::particle::{
    has_room, indexable, lemma_full_size_of_root, lemma_potential_after_visit,
    lemma_potential_of_first, mutated, new_expandable, potential, proposal_fits, queue_ok,
    Particle, ParticleModel,
};
use crate::predict::is_training_prediction;
use crate::prediction_laws::law_grown_tree_predicts_training;
use crate::resampling::ResamplingStrategy;
use crate::response::ResponseStrategy;
use crate::routing::grown_on;
use crate::splitting::SplitRule;
use crate::tree::TreeArrays;
use crate::tree_model::{max_nodes, TreeModel};
use crate::update::MutationDecision;
use crate::weight::{is_log_weight, WeightFn};
use rand::rngs::SmallRng;
use vstd::prelude::*;

verus! {

/// The encoding of negative infinity.
pub const NEG_INFINITY_BITS: u64 = 0xfff0_0000_0000_0000;

/// The largest of `values`, negative infinity for none. A NaN does not count.
pub open spec fn largest(values: Seq<Binary64>) -> Binary64
    decreases values.len(),
{
    if values.len() == 0 {
        Binary64 { bits: NEG_INFINITY_BITS }
    } else {
        largest(values.drop_last()).max_spec(values.last())
    }
}

/// `r` is `e^(w - top)`.
pub open spec fn is_relative_weight<N: Numerics>(
    num: &N,
    w: Binary64,
    top: Binary64,
    r: Binary64,
) -> bool {
    exists|d: Binary64| is_difference(num, w, top, d) && #[trigger] is_exponential(num, d, r)
}

/// Each element of `r` is that of `log_weights` relative to the largest.
pub open spec fn are_relative_weights<N: Numerics>(
    num: &N,
    log_weights: Seq<Binary64>,
    r: Seq<Binary64>,
) -> bool {
    &&& r.len() == log_weights.len()
    &&& forall|i: int|
        0 <= i < r.len() ==> is_relative_weight(
            num,
            log_weights[i],
            largest(log_weights),
            #[trigger] r[i],
        )
}

/// Each element of `r` is that of `a` divided by `b`.
pub open spec fn are_quotients<N: Numerics>(
    num: &N,
    a: Seq<Binary64>,
    b: Binary64,
    r: Seq<Binary64>,
) -> bool {
    &&& r.len() == a.len()
    &&& forall|i: int| 0 <= i < r.len() ==> is_quotient(num, a[i], b, #[trigger] r[i])
}

/// `r` holds the weights with these logarithms, scaled to add up to one: relative to the
/// largest, then divided by their total.
pub open spec fn are_normalized<N: Numerics>(
    num: &N,
    log_weights: Seq<Binary64>,
    r: Seq<Binary64>,
) -> bool {
    exists|relative: Seq<Binary64>, total: Binary64|
        {
            &&& are_relative_weights(num, log_weights, relative)
            &&& is_total(num, relative, total)
            &&& #[trigger] are_quotients(num, relative, total, r)
        }
}

/// Turns log-weights into weights that add up to one.
pub fn normalize_weights_inplace<N: Numerics>(num: &N, weights: &mut Vec<Binary64>)
    ensures
        are_normalized(num, old(weights)@, final(weights)@),
{
    let ghost log_weights = weights@;
    let n: usize = weights.len();
    let mut top = Binary64 { bits: NEG_INFINITY_BITS };
    for i in 0..n
        invariant
            n == weights@.len(),
            weights@ == log_weights,
            top == largest(log_weights.take(i as int)),
    {
        top = top.max(weights[i]);
        proof {
            let next = log_weights.take(i + 1);
            assert(next.drop_last() =~= log_weights.take(i as int));
        }
    }
    assert(log_weights.take(n as int) =~= log_weights);
    for i in 0..n
        invariant
            n == weights@.len(),
            n == log_weights.len(),
            top == largest(log_weights),
            forall|j: int| i <= j < n ==> #[trigger] weights@[j] == log_weights[j],
            forall|j: int|
                0 <= j < i ==> is_relative_weight(num, log_weights[j], top, #[trigger] weights@[j]),
    {
        let d = num.minus(weights[i], top);
        assert(is_difference(num, log_weights[i as int], top, d));
        let e = num.exp(d);
        assert(is_exponential(num, d, e));
        weights.set(i, e);
    }
    let ghost relative = weights@;
    let total = num.total(weights);
    assert(is_total(num, relative, total));
    for i in 0..n
        invariant
            n == weights@.len(),
            n == relative.len(),
            forall|j: int| i <= j < n ==> #[trigger] weights@[j] == relative[j],
            forall|j: int|
                0 <= j < i ==> is_quotient(num, relative[j], total, #[trigger] weights@[j]),
    {
        let q = num.over(weights[i], total);
        assert(is_quotient(num, relative[i as int], total, q));
        weights.set(i, q);
    }
    assert(are_quotients(num, relative, total, weights@));
}

/// All that a step is given, but for the tree that it replaces.
pub struct SmcInputs<'a, N, S, P, R, W> {
    pub num: &'a N,
    pub sum_trees: &'a Matrix,
    pub config: &'a BartConfig,
    pub data: &'a OwnedData,
    pub split_rules: &'a Vec<S>,
    pub resampling: &'a R,
    pub weight_fn: &'a W,
    pub leaf_sd: &'a Vec<Binary64>,
    pub response: &'a P,
}

/// `m` is an array of zeros with one row per output and one column per sample.
pub open spec fn is_blank(m: Matrix, n_outputs: nat, n_samples: nat) -> bool {
    &&& m.height() == n_outputs
    &&& m.width() == n_samples
    &&& forall|i: int, j: int|
        0 <= i < n_outputs && 0 <= j < n_samples ==> #[trigger] m.at(i, j) == (Binary64 {
            bits: ZERO_BITS,
        })
}

/// `pred` is what a tree predicts for the training samples, written over zeros.
pub open spec fn is_tree_prediction<N: Numerics>(
    num: &N,
    t: TreeModel,
    x: Matrix,
    n_outputs: nat,
    pred: Matrix,
) -> bool {
    exists|blank: Matrix|
        #[trigger] is_blank(blank, n_outputs, x.height()) && is_training_prediction(
            num,
            t,
            Some(&x),
            blank,
            pred,
        )
}

/// The log-weights of some particles.
pub open spec fn log_weights(particles: Seq<ParticleModel>) -> Seq<Binary64> {
    particles.map_values(|p: ParticleModel| p.log_weight)
}

/// Some particle has a node waiting to be split.
pub open spec fn is_waiting(particles: Seq<ParticleModel>) -> bool {
    exists|i: int| 0 <= i < particles.len() && (#[trigger] particles[i]).expandable.len() > 0
}

/// How many of `flags` are set.
pub open spec fn count_set(flags: Seq<bool>) -> nat
    decreases flags.len(),
{
    if flags.len() == 0 {
        0
    } else {
        count_set(flags.drop_last()) + if flags.last() {
            1nat
        } else {
            0
        }
    }
}

/// One ancestor is named for each of `n` particles, and each of them exists.
pub open spec fn valid_ancestors(ancestors: Seq<usize>, n: nat) -> bool {
    &&& ancestors.len() == n
    &&& forall|i: int| 0 <= i < n ==> #[trigger] ancestors[i] < n
}

/// The particles that follow on `ancestors`.
pub open spec fn descendants(
    particles: Seq<ParticleModel>,
    ancestors: Seq<usize>,
) -> Seq<ParticleModel> {
    ancestors.map_values(|a: usize| particles[a as int])
}

/// A particle of one leaf that predicts `value`.
pub open spec fn fresh_particle(config: BartConfig, n_samples: nat, value: Binary64) -> ParticleModel {
    ParticleModel {
        tree: TreeModel::root(
            value,
            n_samples,
            config.max_depth as nat,
            config.n_outputs as nat,
        ),
        log_weight: Binary64 { bits: ZERO_BITS },
        expandable: if config.max_depth > 0 {
            seq![0u32]
        } else {
            Seq::empty()
        },
    }
}

impl<
    'a,
    N: Numerics,
    S: SplitRule,
    P: ResponseStrategy<N>,
    R: ResamplingStrategy,
    W: WeightFn,
> SmcInputs<'a, N, S, P, R, W> {
    /// The inputs fit together.
    pub open spec fn wf(self) -> bool {
        &&& smc_inputs_ok(
            *self.config,
            self.split_rules@,
            self.data.x,
            *self.sum_trees,
            self.leaf_sd@,
        )
        &&& indexable(self.config.max_depth as nat)
        &&& can_allocate(self.config.n_outputs as int, self.data.x.height() as int)
        &&& max_nodes(self.config.max_depth as nat) * (if self.config.n_outputs == 0 {
            1
        } else {
            self.config.n_outputs as int
        }) <= usize::MAX
    }

    /// A tree that was grown on the data and has the outputs that are wanted.
    pub open spec fn fits(self, t: TreeModel) -> bool {
        &&& grown_on(t, self.data.x)
        &&& self.config.n_outputs <= t.n_outputs
    }

    /// What a tree predicts for the training samples can be looked up.
    pub open spec fn readable(self, t: TreeModel) -> bool {
        is_training_readable(t, self.data.x, self.config.n_outputs as nat)
    }

    /// A particle whose tree fits, and which can grow as deep as the settings say.
    pub open spec fn particle_ok(self, p: ParticleModel) -> bool {
        &&& p.wf(self.data.x)
        &&& self.fits(p.tree)
        &&& p.tree.max_depth == self.config.max_depth
    }

    /// `decision` may come of the proposal for `node` of `t`, with draws that take the
    /// generator from `from` to `to`.
    pub open spec fn is_decision(
        self,
        from: SmallRng,
        t: TreeModel,
        node: usize,
        decision: Result<MutationDecision, SmcError>,
        to: SmallRng,
    ) -> bool {
        is_decision(
            self.num,
            *self.config,
            self.split_rules@,
            self.response,
            t,
            node,
            self.data.x,
            *self.sum_trees,
            self.leaf_sd@,
            from,
            decision,
            to,
        )
    }

    /// `after` comes of `before` by visiting its next node, which is split where `accepted`.
    pub open spec fn is_visit(
        self,
        from: SmallRng,
        before: ParticleModel,
        after: ParticleModel,
        accepted: bool,
        to: SmallRng,
    ) -> bool {
        if before.expandable.len() == 0 {
            after == before && !accepted && to == from
        } else {
            let node = before.expandable[0] as usize;
            exists|decision: MutationDecision|
                {
                    &&& #[trigger] self.is_decision(from, before.tree, node, Ok(decision), to)
                    &&& match decision {
                        MutationDecision::Reject => {
                            &&& !accepted
                            &&& after == ParticleModel {
                                expandable: before.expandable.drop_first(),
                                ..before
                            }
                        },
                        MutationDecision::Accept(proposal) => {
                            &&& accepted
                            &&& after == ParticleModel {
                                tree: mutated(before.tree, proposal.leaf_proposal, self.data.x),
                                expandable: before.expandable.drop_first() + new_expandable(
                                    before.tree,
                                    node as int,
                                ),
                                ..before
                            }
                        },
                    }
                }
        }
    }

    /// Visiting the next node of a particle fails with `e`.
    pub open spec fn is_visit_error(
        self,
        from: SmallRng,
        before: ParticleModel,
        e: SmcError,
        to: SmallRng,
    ) -> bool {
        &&& before.expandable.len() > 0
        &&& self.is_decision(from, before.tree, before.expandable[0] as usize, Err(e), to)
    }

    /// Each particle is visited once, one after the other. The visits take the generator
    /// through `states`.
    pub open spec fn are_visits(
        self,
        states: Seq<SmallRng>,
        before: Seq<ParticleModel>,
        after: Seq<ParticleModel>,
        accepted: Seq<bool>,
    ) -> bool {
        &&& after.len() == before.len()
        &&& accepted.len() == before.len()
        &&& states.len() == before.len() + 1
        &&& forall|i: int|
            0 <= i < before.len() ==> self.is_visit(
                states[i],
                before[i],
                #[trigger] after[i],
                accepted[i],
                states[i + 1],
            )
    }

    /// Each particle is visited once, with draws that take the generator from `from` to `to`.
    pub open spec fn are_all_visited(
        self,
        from: SmallRng,
        before: Seq<ParticleModel>,
        after: Seq<ParticleModel>,
        accepted: Seq<bool>,
        to: SmallRng,
    ) -> bool {
        exists|states: Seq<SmallRng>|
            {
                &&& #[trigger] self.are_visits(states, before, after, accepted)
                &&& states[0] == from
                &&& states.last() == to
            }
    }

    /// `r` is the log-weight of the predictions of tree `t` together with `others`.
    pub open spec fn is_tree_log_weight(self, others: Matrix, t: TreeModel, r: Binary64) -> bool {
        exists|pred: Matrix, total: Matrix|
            {
                &&& #[trigger] is_tree_prediction(
                    self.num,
                    t,
                    self.data.x,
                    self.config.n_outputs as nat,
                    pred,
                )
                &&& #[trigger] is_matrix_sum(self.num, pred, others, total)
                &&& is_log_weight(self.weight_fn, flattened(total), r)
            }
    }

    /// The particles that were split are weighed anew, the others keep their weight.
    pub open spec fn are_weighed(
        self,
        others: Matrix,
        before: Seq<ParticleModel>,
        accepted: Seq<bool>,
        after: Seq<ParticleModel>,
    ) -> bool {
        &&& after.len() == before.len()
        &&& forall|i: int|
            0 <= i < before.len() ==> if accepted[i] {
                &&& self.is_tree_log_weight(others, before[i].tree, after[i].log_weight)
                &&& #[trigger] after[i] == (ParticleModel {
                    log_weight: after[i].log_weight,
                    ..before[i]
                })
            } else {
                after[i] == before[i]
            }
    }

    /// One round: each particle is visited and weighed, then the ancestors of the next
    /// round are drawn by the weights.
    pub open spec fn is_round(
        self,
        from: SmallRng,
        others: Matrix,
        before: Seq<ParticleModel>,
        after: Seq<ParticleModel>,
        count: nat,
        to: SmallRng,
    ) -> bool {
        exists|
            visited: Seq<ParticleModel>,
            accepted: Seq<bool>,
            visited_by: SmallRng,
            weighed: Seq<ParticleModel>,
            weights: Seq<Binary64>,
            ancestors: Seq<usize>,
        |
            {
                &&& #[trigger] self.are_all_visited(from, before, visited, accepted, visited_by)
                &&& #[trigger] self.are_weighed(others, visited, accepted, weighed)
                &&& #[trigger] are_normalized(self.num, log_weights(weighed), weights)
                &&& #[trigger] are_ancestors(
                    self.resampling,
                    weights,
                    visited_by,
                    ancestors,
                    to,
                )
                &&& valid_ancestors(ancestors, before.len())
                &&& after == descendants(weighed, ancestors)
                &&& count == count_set(accepted)
            }
    }

    /// A round fails with `e`: a visit does, or the ancestors drawn by the weights of this
    /// round are of no use.
    pub open spec fn is_round_error(
        self,
        from: SmallRng,
        others: Matrix,
        before: Seq<ParticleModel>,
        e: SmcError,
        to: SmallRng,
    ) -> bool {
        if e == SmcError::InvalidAncestors {
            exists|
                visited: Seq<ParticleModel>,
                accepted: Seq<bool>,
                visited_by: SmallRng,
                weighed: Seq<ParticleModel>,
                weights: Seq<Binary64>,
                ancestors: Seq<usize>,
            |
                {
                    &&& #[trigger] self.are_all_visited(from, before, visited, accepted, visited_by)
                    &&& #[trigger] self.are_weighed(others, visited, accepted, weighed)
                    &&& #[trigger] are_normalized(self.num, log_weights(weighed), weights)
                    &&& #[trigger] are_ancestors(
                        self.resampling,
                        weights,
                        visited_by,
                        ancestors,
                        to,
                    )
                    &&& !valid_ancestors(ancestors, before.len())
                }
        } else {
            self.is_visits_error(from, before, e, to)
        }
    }

    /// The visit of a particle fails with `e`, after those before it have been visited.
    pub open spec fn is_visits_error(
        self,
        from: SmallRng,
        before: Seq<ParticleModel>,
        e: SmcError,
        to: SmallRng,
    ) -> bool {
        exists|
            i: int,
            visited: Seq<ParticleModel>,
            accepted: Seq<bool>,
            visited_by: SmallRng,
        |
            {
                &&& 0 <= i < before.len()
                &&& #[trigger] self.are_all_visited(
                    from,
                    before.take(i),
                    visited,
                    accepted,
                    visited_by,
                )
                &&& self.is_visit_error(visited_by, before[i], e, to)
            }
    }

    /// `particles` stands after `rounds` rounds, in which `count` nodes were split: a round
    /// is played as long as a node is waiting.
    pub open spec fn is_population_after(
        self,
        from: SmallRng,
        others: Matrix,
        start: ParticleModel,
        rounds: nat,
        particles: Seq<ParticleModel>,
        count: nat,
        to: SmallRng,
    ) -> bool
        decreases rounds,
    {
        if rounds == 0 {
            &&& particles == Seq::new(
                (self.config.n_particles - 1) as nat,
                |i: int| start,
            )
            &&& count == 0
            &&& to == from
        } else {
            exists|before: Seq<ParticleModel>, more: nat, between: SmallRng|
                {
                    &&& more <= count
                    &&& #[trigger] self.is_round(between, others, before, particles, more, to)
                    &&& is_waiting(before)
                    &&& self.is_population_after(
                        from,
                        others,
                        start,
                        (rounds - 1) as nat,
                        before,
                        (count - more) as nat,
                        between,
                    )
                }
        }
    }

    /// `particles` may stand after `rounds` rounds, in which `count` nodes were split.
    pub open spec fn is_population(
        self,
        from: SmallRng,
        others: Matrix,
        start: ParticleModel,
        rounds: nat,
        particles: Seq<ParticleModel>,
        count: nat,
        to: SmallRng,
    ) -> bool {
        self.is_population_after(from, others, start, rounds, particles, count, to)
    }
}

/// What tree `t` predicts for the rows of `x` as its training samples can be looked up.
pub open spec fn is_training_readable(t: TreeModel, x: Matrix, n_outputs: nat) -> bool {
    &&& t.leaf_indices.len() == x.height()
    &&& forall|s: int|
        0 <= s < t.leaf_indices.len() ==> t.training_readable(
            #[trigger] t.leaf_indices[s] as int,
            s,
            n_outputs,
            Some(&x),
        )
}

/// What a tree predicts for the training samples.
pub fn tree_prediction<N: Numerics>(
    num: &N,
    tree: &TreeArrays,
    x: &Matrix,
    n_outputs: usize,
) -> (r: Matrix)
    requires
        is_training_readable(tree@, *x, n_outputs as nat),
        can_allocate(n_outputs as int, x.height() as int),
    ensures
        is_tree_prediction(num, tree@, *x, n_outputs as nat, r),
        r.height() == n_outputs,
        r.width() == x.height(),
{
    let mut r = Matrix::filled(n_outputs, x.nrows(), Binary64 { bits: ZERO_BITS });
    let ghost blank = r;
    assert(is_blank(blank, n_outputs as nat, x.height()));
    tree.predict_training_into_multi(num, &mut r, Some(x));
    r
}

impl<
    'a,
    N: Numerics,
    S: SplitRule,
    P: ResponseStrategy<N>,
    R: ResamplingStrategy,
    W: WeightFn,
> SmcInputs<'a, N, S, P, R, W> {
    /// The log-weight of a tree together with what all others predict.
    fn tree_log_weight(&self, others: &Matrix, tree: &TreeArrays) -> (r: Binary64)
        requires
            self.wf(),
            self.readable(tree@),
            others.height() == self.config.n_outputs,
            others.width() == self.data.x.height(),
        ensures
            self.is_tree_log_weight(*others, tree@, r),
    {
        let pred = tree_prediction(self.num, tree, &self.data.x, self.config.n_outputs);
        let total = matrix_sum(self.num, &pred, others);
        let predictions = flat(&total);
        let r = self.weight_fn.log_weight(&predictions);
        assert(is_log_weight(self.weight_fn, flattened(total), r));
        r
    }

    /// Visits the next node of a particle and tells whether it was split.
    fn visit(&self, rng: &mut SmallRng, particle: &mut Particle) -> (r: Result<bool, SmcError>)
        requires
            self.wf(),
            self.config.n_particles > 1,
            self.particle_ok(old(particle)@),
        ensures
            match r {
                Ok(accepted) => {
                    &&& self.is_visit(
                        *old(rng),
                        old(particle)@,
                        final(particle)@,
                        accepted,
                        *final(rng),
                    )
                    &&& self.particle_ok(final(particle)@)
                    &&& if old(particle)@.expandable.len() > 0 {
                        final(particle)@.potential() < old(particle)@.potential()
                    } else {
                        final(particle)@.potential() == 0
                    }
                },
                Err(e) => self.is_visit_error(*old(rng), old(particle)@, e, *final(rng)),
            },
    {
        let ghost before = particle@;
        let ghost from = *rng;
        let node: u32 = match particle.peek_next_expandable() {
            Some(node) => node,
            None => {
                return Ok(false);
            },
        };
        let node_idx: usize = node as usize;
        proof {
            lemma_potential_after_visit(before.tree, before.expandable);
            assert(before.tree.is_leaf(before.expandable[0] as int));
            assert(has_room(before.tree, before.expandable[0] as int));
            assert(self.config.max_depth > 0) by {
                vstd::arithmetic::power2::lemma2_to64();
            }
        }
        let decision = propose_mutation(
            self.num,
            rng,
            &*particle,
            node_idx,
            self.sum_trees,
            self.config,
            self.data,
            self.split_rules,
            self.leaf_sd,
            self.response,
        );
        match decision {
            Err(e) => {
                assert(self.is_decision(from, before.tree, node_idx, Err(e), *rng));
                Err(e)
            },
            Ok(MutationDecision::Reject) => {
                assert(self.is_decision(
                    from,
                    before.tree,
                    node_idx,
                    Ok(MutationDecision::Reject),
                    *rng,
                ));
                particle.pop_next_expandable();
                assert(particle@ =~= ParticleModel {
                    expandable: before.expandable.drop_first(),
                    ..before
                });
                proof {
                    lemma_queue_without_first(before.tree, before.expandable);
                }
                Ok(false)
            },
            Ok(MutationDecision::Accept(proposal)) => {
                let ghost p = proposal.leaf_proposal;
                assert(self.is_decision(
                    from,
                    before.tree,
                    node_idx,
                    Ok(MutationDecision::Accept(proposal)),
                    *rng,
                ));
                particle.pop_next_expandable();
                proof {
                    lemma_queue_without_first(before.tree, before.expandable);
                    assert(proposal_fits(before.tree, p, self.data.x));
                }
                particle.apply_mutation(proposal, &self.data.x);
                assert(particle@ =~= ParticleModel {
                    tree: mutated(before.tree, p, self.data.x),
                    expandable: before.expandable.drop_first() + new_expandable(
                        before.tree,
                        node_idx as int,
                    ),
                    ..before
                });
                Ok(true)
            },
        }
    }
}

/// A queue stays in order when its first node is taken off, which is then in it no more.
proof fn lemma_queue_without_first(t: TreeModel, queue: Seq<u32>)
    requires
        queue_ok(t, queue),
        queue.len() > 0,
    ensures
        queue_ok(t, queue.drop_first()),
        !queue.drop_first().contains(queue[0]),
{
    let rest = queue.drop_first();
    assert forall|k: int| 0 <= k < rest.len() implies #[trigger] rest[k] == queue[k + 1] by {}
}

/// What each of some particles holds.
pub open spec fn models(particles: Seq<Particle>) -> Seq<ParticleModel> {
    particles.map_values(|p: Particle| p@)
}

/// No particle has more than `bound` nodes left to visit.
pub open spec fn bounded(particles: Seq<ParticleModel>, bound: int) -> bool {
    forall|i: int| 0 <= i < particles.len() ==> (#[trigger] particles[i]).potential() <= bound
}

/// How many of some flags are set.
fn number_set(flags: &Vec<bool>) -> (r: usize)
    ensures
        r == count_set(flags@),
        r <= flags@.len(),
{
    let mut r: usize = 0;
    for i in 0..flags.len()
        invariant
            r == count_set(flags@.take(i as int)),
            r <= i,
    {
        proof {
            let next = flags@.take(i + 1);
            assert(next.drop_last() =~= flags@.take(i as int));
        }
        if flags[i] {
            r = r + 1;
        }
    }
    assert(flags@.take(flags@.len() as int) =~= flags@);
    r
}

/// Whether some particle has a node waiting to be split.
fn any_waiting(particles: &Vec<Particle>) -> (r: bool)
    ensures
        r == is_waiting(models(particles@)),
{
    for i in 0..particles.len()
        invariant
            forall|j: int| 0 <= j < i ==> (#[trigger] particles@[j]).expandable@.len() == 0,
    {
        if particles[i].has_expandable_nodes() {
            assert(models(particles@)[i as int].expandable.len() > 0);
            return true;
        }
    }
    assert forall|j: int| 0 <= j < models(particles@).len() implies (
    #[trigger] models(particles@)[j]).expandable.len() == 0 by {
        assert(particles@[j].expandable@.len() == 0);
    }
    false
}

/// Whether one existing ancestor is named for each of `n` particles.
fn are_valid_ancestors(ancestors: &Vec<usize>, n: usize) -> (r: bool)
    ensures
        r == valid_ancestors(ancestors@, n as nat),
{
    if ancestors.len() != n {
        return false;
    }
    for i in 0..n
        invariant
            ancestors@.len() == n,
            forall|j: int| 0 <= j < i ==> #[trigger] ancestors@[j] < n,
    {
        if ancestors[i] >= n {
            return false;
        }
    }
    true
}

impl<
    'a,
    N: Numerics,
    S: SplitRule,
    P: ResponseStrategy<N>,
    R: ResamplingStrategy,
    W: WeightFn,
> SmcInputs<'a, N, S, P, R, W> {
    /// Every particle fits the inputs.
    pub open spec fn particles_ok(self, particles: Seq<ParticleModel>) -> bool {
        forall|i: int| 0 <= i < particles.len() ==> self.particle_ok(#[trigger] particles[i])
    }

    /// Visits the next node of each particle and tells which of them were split.
    fn visit_all(&self, rng: &mut SmallRng, particles: &mut Vec<Particle>) -> (r: Result<
        Vec<bool>,
        SmcError,
    >)
        requires
            self.wf(),
            self.config.n_particles > 1,
            self.particles_ok(models(old(particles)@)),
        ensures
            match r {
                Ok(accepted) => {
                    &&& self.are_all_visited(
                        *old(rng),
                        models(old(particles)@),
                        models(final(particles)@),
                        accepted@,
                        *final(rng),
                    )
                    &&& self.particles_ok(models(final(particles)@))
                    &&& forall|bound: int|
                        bound >= 1 && #[trigger] bounded(models(old(particles)@), bound)
                            ==> bounded(models(final(particles)@), bound - 1)
                },
                Err(e) => {
                    &&& e != SmcError::InvalidAncestors
                    &&& self.is_visits_error(
                        *old(rng),
                        models(old(particles)@),
                        e,
                        *final(rng),
                    )
                },
            },
    {
        let ghost before = models(particles@);
        let n: usize = particles.len();
        let mut accepted: Vec<bool> = Vec::new();
        let ghost mut states: Seq<SmallRng> = seq![*rng];
        for i in 0..n
            invariant
                self.wf(),
                self.config.n_particles > 1,
                before == models(old(particles)@),
                n == before.len(),
                n == particles@.len(),
                self.particles_ok(before),
                accepted@.len() == i,
                states.len() == i + 1,
                states[0] == *old(rng),
                states.last() == *rng,
                forall|j: int| i <= j < n ==> #[trigger] particles@[j]@ == before[j],
                forall|j: int|
                    0 <= j < i ==> {
                        &&& self.is_visit(
                            states[j],
                            before[j],
                            #[trigger] particles@[j]@,
                            accepted@[j],
                            states[j + 1],
                        )
                        &&& self.particle_ok(particles@[j]@)
                        &&& if before[j].expandable.len() > 0 {
                            particles@[j]@.potential() < before[j].potential()
                        } else {
                            particles@[j]@.potential() == 0
                        }
                    },
        {
            assert(particles@[i as int]@ == before[i as int]);
            let ghost whole = particles@;
            let outcome = self.visit(rng, &mut particles[i]);
            match outcome {
                Ok(flag) => {
                    accepted.push(flag);
                },
                Err(e) => {
                    proof {
                        let done = models(whole).take(i as int);
                        assert forall|j: int| 0 <= j < i implies self.is_visit(
                            states[j],
                            before.take(i as int)[j],
                            #[trigger] done[j],
                            accepted@[j],
                            states[j + 1],
                        ) by {
                            assert(done[j] == whole[j]@);
                        }
                        assert(self.are_visits(states, before.take(i as int), done, accepted@));
                        assert(self.are_all_visited(
                            states[0],
                            before.take(i as int),
                            done,
                            accepted@,
                            states.last(),
                        ));
                        assert(self.is_visit_error(states.last(), before[i as int], e, *rng));
                    }
                    return Err(e);
                },
            }
            proof {
                states = states.push(*rng);
            }
            assert forall|j: int| 0 <= j < n && j != i implies #[trigger] particles@[j]
                == whole[j] by {}
        }
        proof {
            let after = models(particles@);
            assert forall|j: int| 0 <= j < n implies {
                &&& self.is_visit(
                    states[j],
                    before[j],
                    #[trigger] after[j],
                    accepted@[j],
                    states[j + 1],
                )
                &&& self.particle_ok(after[j])
                &&& if before[j].expandable.len() > 0 {
                    after[j].potential() < before[j].potential()
                } else {
                    after[j].potential() == 0
                }
            } by {
                assert(after[j] == particles@[j]@);
            }
            assert(self.are_visits(states, before, after, accepted@));
        }
        Ok(accepted)
    }

    /// Weighs the particles that were split.
    fn weigh_all(&self, others: &Matrix, particles: &mut Vec<Particle>, accepted: &Vec<bool>)
        requires
            self.wf(),
            self.particles_ok(models(old(particles)@)),
            accepted@.len() == old(particles)@.len(),
            others.height() == self.config.n_outputs,
            others.width() == self.data.x.height(),
        ensures
            self.are_weighed(
                *others,
                models(old(particles)@),
                accepted@,
                models(final(particles)@),
            ),
            self.particles_ok(models(final(particles)@)),
            forall|bound: int| #[trigger]
                bounded(models(old(particles)@), bound) ==> bounded(
                    models(final(particles)@),
                    bound,
                ),
    {
        let ghost before = models(particles@);
        let n: usize = particles.len();
        for i in 0..n
            invariant
                self.wf(),
                n == before.len(),
                n == particles@.len(),
                accepted@.len() == n,
                self.particles_ok(before),
                others.height() == self.config.n_outputs,
                others.width() == self.data.x.height(),
                forall|j: int| i <= j < n ==> #[trigger] particles@[j]@ == before[j],
                forall|j: int|
                    0 <= j < i ==> if accepted@[j] {
                        &&& self.is_tree_log_weight(
                            *others,
                            before[j].tree,
                            particles@[j]@.log_weight,
                        )
                        &&& #[trigger] particles@[j]@ == (ParticleModel {
                            log_weight: particles@[j]@.log_weight,
                            ..before[j]
                        })
                    } else {
                        particles@[j]@ == before[j]
                    },
        {
            assert(particles@[i as int]@ == before[i as int]);
            let ghost whole = particles@;
            if accepted[i] {
                proof {
                    law_grown_tree_predicts_training(
                        before[i as int].tree,
                        self.data.x,
                        self.config.n_outputs as nat,
                    );
                }
                let w = self.tree_log_weight(others, &particles[i].tree);
                let one = &mut particles[i];
                one.log_weight = w;
                assert forall|j: int| 0 <= j < n && j != i implies #[trigger] particles@[j]
                    == whole[j] by {}
            }
        }
        proof {
            let after = models(particles@);
            assert forall|j: int| 0 <= j < n implies {
                &&& if accepted@[j] {
                    &&& self.is_tree_log_weight(*others, before[j].tree, after[j].log_weight)
                    &&& #[trigger] after[j] == (ParticleModel {
                        log_weight: after[j].log_weight,
                        ..before[j]
                    })
                } else {
                    after[j] == before[j]
                }
                &&& self.particle_ok(after[j])
                &&& after[j].potential() == before[j].potential()
            } by {
                assert(after[j] == particles@[j]@);
                assert(self.particle_ok(before[j]));
            }
        }
    }
}

/// Reads the log-weights of some particles.
fn read_log_weights(particles: &Vec<Particle>) -> (r: Vec<Binary64>)
    ensures
        r@ == log_weights(models(particles@)),
{
    let mut r: Vec<Binary64> = Vec::new();
    for i in 0..particles.len()
        invariant
            r@ == log_weights(models(particles@)).take(i as int),
    {
        r.push(particles[i].log_weight);
        assert(r@ =~= log_weights(models(particles@)).take(i + 1));
    }
    assert(r@ =~= log_weights(models(particles@)));
    r
}

/// Copies the particles that go on.
fn follow_ancestors(particles: &Vec<Particle>, ancestors: &Vec<usize>) -> (r: Vec<Particle>)
    requires
        valid_ancestors(ancestors@, particles@.len()),
    ensures
        models(r@) == descendants(models(particles@), ancestors@),
{
    let mut r: Vec<Particle> = Vec::new();
    let ghost wanted = descendants(models(particles@), ancestors@);
    for i in 0..ancestors.len()
        invariant
            valid_ancestors(ancestors@, particles@.len()),
            wanted == descendants(models(particles@), ancestors@),
            models(r@) == wanted.take(i as int),
    {
        let ghost before = r@;
        let ancestor: usize = ancestors[i];
        let particle = particles[ancestor].clone();
        r.push(particle);
        assert(wanted[i as int] == models(particles@)[ancestor as int]);
        assert(models(r@) =~= models(before).push(particle@));
        assert(models(r@) =~= wanted.take(i + 1));
    }
    assert(models(r@) =~= wanted);
    r
}

/// The particles that go on are some of those that there were.
proof fn lemma_descendants(particles: Seq<ParticleModel>, ancestors: Seq<usize>)
    requires
        valid_ancestors(ancestors, particles.len()),
    ensures
        descendants(particles, ancestors).len() == particles.len(),
        forall|i: int|
            0 <= i < particles.len() ==> #[trigger] descendants(particles, ancestors)[i]
                == particles[ancestors[i] as int],
{
}

impl<
    'a,
    N: Numerics,
    S: SplitRule,
    P: ResponseStrategy<N>,
    R: ResamplingStrategy,
    W: WeightFn,
> SmcInputs<'a, N, S, P, R, W> {
    /// Plays one round and tells how many particles were split.
    fn round(&self, rng: &mut SmallRng, others: &Matrix, particles: &mut Vec<Particle>) -> (r:
        Result<usize, SmcError>)
        requires
            self.wf(),
            self.config.n_particles > 1,
            self.particles_ok(models(old(particles)@)),
            others.height() == self.config.n_outputs,
            others.width() == self.data.x.height(),
        ensures
            match r {
                Ok(count) => {
                    &&& self.is_round(
                        *old(rng),
                        *others,
                        models(old(particles)@),
                        models(final(particles)@),
                        count as nat,
                        *final(rng),
                    )
                    &&& count <= old(particles)@.len()
                    &&& final(particles)@.len() == old(particles)@.len()
                    &&& self.particles_ok(models(final(particles)@))
                    &&& forall|bound: int|
                        bound >= 1 && #[trigger] bounded(models(old(particles)@), bound)
                            ==> bounded(models(final(particles)@), bound - 1)
                },
                Err(e) => {
                    &&& e != SmcError::InvalidWeights
                    &&& self.is_round_error(
                        *old(rng),
                        *others,
                        models(old(particles)@),
                        e,
                        *final(rng),
                    )
                },
            },
    {
        let ghost before = models(particles@);
        let n: usize = particles.len();
        let accepted = match self.visit_all(rng, particles) {
            Ok(accepted) => accepted,
            Err(e) => {
                return Err(e);
            },
        };
        let ghost visited = models(particles@);
        let ghost visited_by = *rng;
        self.weigh_all(others, particles, &accepted);
        let ghost weighed = models(particles@);
        let mut weights = read_log_weights(&*particles);
        normalize_weights_inplace(self.num, &mut weights);
        let ancestors = draw_ancestors(self.resampling, rng, &weights).value;
        assert(are_ancestors(self.resampling, weights@, visited_by, ancestors@, *rng));
        if !are_valid_ancestors(&ancestors, n) {
            return Err(SmcError::InvalidAncestors);
        }
        let next = follow_ancestors(&*particles, &ancestors);
        *particles = next;
        let count = number_set(&accepted);
        proof {
            lemma_descendants(weighed, ancestors@);
            let after = models(particles@);
            assert forall|bound: int| bound >= 1 && #[trigger] bounded(before, bound) implies bounded(
                after,
                bound - 1,
            ) by {
                assert(bounded(visited, bound - 1));
                assert(bounded(weighed, bound - 1));
                assert forall|i: int| 0 <= i < after.len() implies (
                #[trigger] after[i]).potential() <= bound - 1 by {
                    assert(after[i] == weighed[ancestors@[i] as int]);
                }
            }
            assert forall|i: int| 0 <= i < after.len() implies self.particle_ok(
                #[trigger] after[i],
            ) by {
                assert(after[i] == weighed[ancestors@[i] as int]);
            }
            assert(self.are_weighed(*others, visited, accepted@, weighed));
            assert(are_normalized(self.num, log_weights(weighed), weights@));
        }
        Ok(count)
    }
}

/// The trees of some particles.
pub open spec fn trees_of(particles: Seq<ParticleModel>) -> Seq<TreeModel> {
    particles.map_values(|p: ParticleModel| p.tree)
}

impl<
    'a,
    N: Numerics,
    S: SplitRule,
    P: ResponseStrategy<N>,
    R: ResamplingStrategy,
    W: WeightFn,
> SmcInputs<'a, N, S, P, R, W> {
    /// `others` is what all trees but `current` predict.
    pub open spec fn is_remainder(self, current: TreeModel, others: Matrix) -> bool {
        exists|pred: Matrix|
            {
                &&& #[trigger] is_tree_prediction(
                    self.num,
                    current,
                    self.data.x,
                    self.config.n_outputs as nat,
                    pred,
                )
                &&& is_matrix_difference(self.num, *self.sum_trees, pred, others)
            }
    }

    /// `value` is the share of one tree in the mean response.
    pub open spec fn is_initial_value(self, value: Binary64) -> bool {
        exists|mean: Binary64|
            is_mean_response(self.num, self.data.y, mean) && #[trigger] is_quotient(
                self.num,
                mean,
                count_number(self.config.n_trees as nat),
                value,
            )
    }

    /// Each of `r` is the log-weight of its tree.
    pub open spec fn are_tree_log_weights(
        self,
        others: Matrix,
        trees: Seq<TreeModel>,
        r: Seq<Binary64>,
    ) -> bool {
        &&& r.len() == trees.len()
        &&& forall|i: int|
            0 <= i < r.len() ==> self.is_tree_log_weight(others, trees[i], #[trigger] r[i])
    }

    /// `tree` is drawn from `trees` by their weights, and its log-weight is `log_likelihood`.
    pub open spec fn is_selection(
        self,
        from: SmallRng,
        others: Matrix,
        trees: Seq<TreeModel>,
        tree: TreeModel,
        log_likelihood: Binary64,
        to: SmallRng,
    ) -> bool {
        exists|scores: Seq<Binary64>, weights: Seq<Binary64>, idx: usize|
            {
                &&& #[trigger] self.are_tree_log_weights(others, trees, scores)
                &&& #[trigger] are_normalized(self.num, scores, weights)
                &&& #[trigger] is_weighted_draw(self.num, weights, from, Some(idx), to)
                &&& idx < trees.len()
                &&& tree == trees[idx as int]
                &&& log_likelihood == scores[idx as int]
            }
    }

    /// No tree could be drawn from `trees` by their weights.
    pub open spec fn is_selection_error(
        self,
        from: SmallRng,
        others: Matrix,
        trees: Seq<TreeModel>,
        to: SmallRng,
    ) -> bool {
        exists|scores: Seq<Binary64>, weights: Seq<Binary64>, r: Option<usize>|
            {
                &&& #[trigger] self.are_tree_log_weights(others, trees, scores)
                &&& #[trigger] are_normalized(self.num, scores, weights)
                &&& #[trigger] is_weighted_draw(self.num, weights, from, r, to)
                &&& r is None || r->0 >= trees.len()
            }
    }

    /// Fresh particles that predict `value` can come to be `particles`.
    pub open spec fn is_reached(
        self,
        from: SmallRng,
        others: Matrix,
        value: Binary64,
        particles: Seq<ParticleModel>,
        count: nat,
        to: SmallRng,
    ) -> bool {
        exists|rounds: nat| #[trigger]
            self.is_population(
                from,
                others,
                fresh_particle(*self.config, self.data.x.height(), value),
                rounds,
                particles,
                count,
                to,
            )
    }

    /// Fresh particles that predict `value` grow into `particles`, which have no node
    /// waiting.
    pub open spec fn is_outcome(
        self,
        from: SmallRng,
        others: Matrix,
        value: Binary64,
        particles: Seq<ParticleModel>,
        count: nat,
        to: SmallRng,
    ) -> bool {
        &&& !is_waiting(particles)
        &&& self.is_reached(from, others, value, particles, count, to)
    }

    /// A round that fresh particles come to fails with `e`.
    pub open spec fn is_growth_error(
        self,
        from: SmallRng,
        others: Matrix,
        value: Binary64,
        e: SmcError,
        to: SmallRng,
    ) -> bool {
        exists|particles: Seq<ParticleModel>, count: nat, between: SmallRng|
            {
                &&& #[trigger] self.is_reached(from, others, value, particles, count, between)
                &&& is_waiting(particles)
                &&& self.is_round_error(between, others, particles, e, to)
            }
    }

    /// Fresh particles grow to the end, and no tree can be drawn from them and `current`.
    pub open spec fn is_draw_error(
        self,
        from: SmallRng,
        current: TreeModel,
        others: Matrix,
        value: Binary64,
        to: SmallRng,
    ) -> bool {
        exists|particles: Seq<ParticleModel>, count: nat, grown: SmallRng|
            {
                &&& #[trigger] self.is_outcome(from, others, value, particles, count, grown)
                &&& self.is_selection_error(
                    grown,
                    others,
                    seq![current] + trees_of(particles),
                    to,
                )
            }
    }

    /// `tree` and `info` may come of a step that replaces `current`: fresh particles grow
    /// until none has a node waiting, and a tree is drawn from them and `current`. The draws
    /// take the generator from `from` to `to`.
    pub open spec fn is_step(
        self,
        from: SmallRng,
        current: TreeModel,
        tree: TreeModel,
        info: SmcStepInfo,
        to: SmallRng,
    ) -> bool {
        exists|others: Matrix, value: Binary64, particles: Seq<ParticleModel>, grown: SmallRng|
            {
                &&& self.is_remainder(current, others)
                &&& self.is_initial_value(value)
                &&& #[trigger] self.is_outcome(
                    from,
                    others,
                    value,
                    particles,
                    info.acceptance_count as nat,
                    grown,
                )
                &&& self.is_selection(
                    grown,
                    others,
                    seq![current] + trees_of(particles),
                    tree,
                    info.log_likelihood,
                    to,
                )
            }
    }

    /// A step that replaces `current` fails with `e`: on its way a round does, or no tree can
    /// be drawn by the weights in which it ends.
    pub open spec fn is_step_error(
        self,
        from: SmallRng,
        current: TreeModel,
        e: SmcError,
        to: SmallRng,
    ) -> bool {
        exists|others: Matrix, value: Binary64|
            {
                &&& #[trigger] self.is_remainder(current, others)
                &&& #[trigger] self.is_initial_value(value)
                &&& if e == SmcError::InvalidWeights {
                    self.is_draw_error(from, current, others, value, to)
                } else {
                    self.is_growth_error(from, others, value, e, to)
                }
            }
    }

    /// Fresh particles, one for each but the first.
    fn fresh_particles(&self, value: Binary64) -> (r: Vec<Particle>)
        requires
            self.wf(),
            self.config.n_particles >= 1,
        ensures
            models(r@) == Seq::new(
                (self.config.n_particles - 1) as nat,
                |i: int| fresh_particle(*self.config, self.data.x.height(), value),
            ),
            self.particles_ok(models(r@)),
            bounded(models(r@), max_nodes(self.config.max_depth as nat)),
    {
        let ghost start = fresh_particle(*self.config, self.data.x.height(), value);
        let n: usize = self.config.n_particles - 1;
        let n_samples = self.data.n_samples();
        let mut r: Vec<Particle> = Vec::new();
        for i in 0..n
            invariant
                self.wf(),
                n_samples == self.data.x.height(),
                start == fresh_particle(*self.config, self.data.x.height(), value),
                r@.len() == i,
                forall|j: int| 0 <= j < i ==> #[trigger] r@[j]@ == start,
                forall|j: int| 0 <= j < i ==> self.particle_ok(#[trigger] r@[j]@),
        {
            let particle = Particle::new(
                value,
                n_samples,
                self.config.max_depth,
                self.config.n_outputs,
            );
            assert(particle@ =~= start);
            assert(particle.wf(self.data.x));
            r.push(particle);
        }
        proof {
            let m = max_nodes(self.config.max_depth as nat);
            lemma_full_size_of_root(self.config.max_depth as nat);
            if self.config.max_depth > 0 {
                lemma_potential_of_first(start.expandable, m);
                assert(start.expandable.drop_first() =~= Seq::empty());
                assert(potential(start.expandable.drop_first(), m) == 0);
            } else {
                vstd::arithmetic::power2::lemma2_to64();
            }
            assert(start.potential() <= m);
            assert(models(r@) =~= Seq::new(n as nat, |i: int| start));
        }
        r
    }

    /// Plays rounds until no node is waiting.
    fn grow(&self, rng: &mut SmallRng, others: &Matrix, value: Binary64) -> (r: Result<
        (Vec<Particle>, usize),
        SmcError,
    >)
        requires
            self.wf(),
            self.config.n_particles >= 1,
            max_nodes(self.config.max_depth as nat) * (self.config.n_particles - 1) <= usize::MAX,
            others.height() == self.config.n_outputs,
            others.width() == self.data.x.height(),
        ensures
            match r {
                Ok((particles, count)) => {
                    &&& self.is_outcome(
                        *old(rng),
                        *others,
                        value,
                        models(particles@),
                        count as nat,
                        *final(rng),
                    )
                    &&& self.particles_ok(models(particles@))
                    &&& particles@.len() == self.config.n_particles - 1
                    &&& count <= max_nodes(self.config.max_depth as nat) * (
                    self.config.n_particles - 1)
                },
                Err(e) => {
                    &&& e != SmcError::InvalidWeights
                    &&& self.is_growth_error(*old(rng), *others, value, e, *final(rng))
                },
            },
    {
        let ghost from = *rng;
        let ghost start = fresh_particle(*self.config, self.data.x.height(), value);
        let mut particles = self.fresh_particles(value);
        let n: usize = self.config.n_particles - 1;
        let mut count: usize = 0;
        let ghost m = max_nodes(self.config.max_depth as nat);
        let ghost mut bound: int = m;
        let ghost mut rounds: nat = 0;
        proof {
            vstd::arithmetic::power2::lemma_pow2_pos((self.config.max_depth + 1) as nat);
            assert(particles@.len() == models(particles@).len());
            assert(self.is_population(from, *others, start, 0, models(particles@), 0, *rng));
        }
        while any_waiting(&particles)
            invariant
                self.wf(),
                m == max_nodes(self.config.max_depth as nat),
                n == particles@.len(),
                n == self.config.n_particles - 1,
                start == fresh_particle(*self.config, self.data.x.height(), value),
                m * n <= usize::MAX,
                self.particles_ok(models(particles@)),
                others.height() == self.config.n_outputs,
                others.width() == self.data.x.height(),
                0 <= bound <= m,
                bounded(models(particles@), bound),
                count <= (m - bound) * n,
                from == *old(rng),
                self.is_population(
                    from,
                    *others,
                    start,
                    rounds,
                    models(particles@),
                    count as nat,
                    *rng,
                ),
            decreases bound,
        {
            let ghost before = models(particles@);
            let ghost between = *rng;
            proof {
                let i = choose|i: int|
                    0 <= i < before.len() && (#[trigger] before[i]).expandable.len() > 0;
                assert(self.particle_ok(before[i]));
                assert(has_room(before[i].tree, before[i].expandable[0] as int));
                lemma_potential_after_visit(before[i].tree, before[i].expandable);
                assert(before[i].potential() >= 1);
                assert((m - bound) * n + n == (m - (bound - 1)) * n) by (nonlinear_arith);
                assert((m - (bound - 1)) * n <= m * n) by (nonlinear_arith)
                    requires
                        bound >= 1,
                        m >= bound,
                        n >= 0,
                ;
            }
            let more = match self.round(rng, others, &mut particles) {
                Ok(more) => more,
                Err(e) => {
                    proof {
                        assert(self.is_population(
                            from,
                            *others,
                            start,
                            rounds,
                            before,
                            count as nat,
                            between,
                        ));
                        assert(self.is_reached(
                            from,
                            *others,
                            value,
                            before,
                            count as nat,
                            between,
                        ));
                    }
                    return Err(e);
                },
            };
            count = count + more;
            proof {
                bound = bound - 1;
                rounds = rounds + 1;
                assert(self.is_round(
                    between,
                    *others,
                    before,
                    models(particles@),
                    more as nat,
                    *rng,
                ));
            }
        }
        assert((m - bound) * n <= m * n) by (nonlinear_arith)
            requires
                0 <= bound <= m,
                n >= 0,
        ;
        proof {
            let grown = models(particles@);
            assert(self.is_population(from, *others, start, rounds, grown, count as nat, *rng));
            assert(self.is_outcome(from, *others, value, grown, count as nat, *rng));
        }
        Ok((particles, count))
    }

    /// Draws a tree by the weights of all.
    fn select(&self, rng: &mut SmallRng, others: &Matrix, particles: &Vec<Particle>) -> (r: Result<
        (TreeArrays, Binary64),
        SmcError,
    >)
        requires
            self.wf(),
            others.height() == self.config.n_outputs,
            others.width() == self.data.x.height(),
            forall|i: int|
                0 <= i < particles@.len() ==> self.readable((#[trigger] particles@[i]).tree@),
        ensures
            match r {
                Ok((tree, log_likelihood)) => {
                    &&& self.is_selection(
                        *old(rng),
                        *others,
                        trees_of(models(particles@)),
                        tree@,
                        log_likelihood,
                        *final(rng),
                    )
                    &&& trees_of(models(particles@)).contains(tree@)
                },
                Err(e) => e == SmcError::InvalidWeights && self.is_selection_error(
                    *old(rng),
                    *others,
                    trees_of(models(particles@)),
                    *final(rng),
                ),
            },
    {
        let ghost from = *rng;
        let ghost trees = trees_of(models(particles@));
        let mut scores: Vec<Binary64> = Vec::new();
        for i in 0..particles.len()
            invariant
                self.wf(),
                others.height() == self.config.n_outputs,
                others.width() == self.data.x.height(),
                trees == trees_of(models(particles@)),
                scores@.len() == i,
                forall|j: int|
                    0 <= j < particles@.len() ==> self.readable((#[trigger] particles@[j]).tree@),
                forall|j: int|
                    0 <= j < i ==> self.is_tree_log_weight(*others, trees[j], #[trigger] scores@[j]),
        {
            let w = self.tree_log_weight(others, &particles[i].tree);
            assert(trees[i as int] == particles@[i as int].tree@);
            scores.push(w);
        }
        assert(self.are_tree_log_weights(*others, trees, scores@));
        let mut weights: Vec<Binary64> = scores.clone();
        assert(weights@ =~= scores@);
        normalize_weights_inplace(self.num, &mut weights);
        let drawn = draw_weighted(self.num, rng, &weights).value;
        assert(is_weighted_draw(self.num, weights@, from, drawn, *rng));
        let idx: usize = match drawn {
            Some(idx) => idx,
            None => {
                return Err(SmcError::InvalidWeights);
            },
        };
        if idx >= particles.len() {
            return Err(SmcError::InvalidWeights);
        }
        let tree = particles[idx].tree.clone();
        assert(trees[idx as int] == tree@);
        Ok((tree, scores[idx]))
    }

    /// Runs one step.
    fn step(&self, rng: &mut SmallRng, current_tree: TreeArrays) -> (r: Result<
        (TreeArrays, SmcStepInfo),
        SmcError,
    >)
        requires
            self.wf(),
            self.readable(current_tree@),
            self.config.n_particles >= 1,
            max_nodes(self.config.max_depth as nat) * (self.config.n_particles - 1) <= usize::MAX,
        ensures
            match r {
                Ok((tree, info)) => {
                    &&& self.is_step(*old(rng), current_tree@, tree@, info, *final(rng))
                    &&& tree@ == current_tree@ || {
                        &&& self.fits(tree@)
                        &&& tree@.max_depth == self.config.max_depth
                        &&& tree@.tidy()
                    }
                    &&& info.acceptance_count <= max_nodes(self.config.max_depth as nat) * (
                    self.config.n_particles - 1)
                },
                Err(e) => self.is_step_error(*old(rng), current_tree@, e, *final(rng)),
            },
    {
        let ghost from = *rng;
        let mean = self.data.mean_response(self.num);
        let value = self.num.over(mean, Binary64::from_count(self.config.n_trees));
        assert(is_quotient(self.num, mean, count_number(self.config.n_trees as nat), value));
        assert(self.is_initial_value(value));
        let current_pred = tree_prediction(
            self.num,
            &current_tree,
            &self.data.x,
            self.config.n_outputs,
        );
        let others = matrix_difference(self.num, self.sum_trees, &current_pred);
        assert(self.is_remainder(current_tree@, others));
        let (mut particles, acceptance_count) = match self.grow(rng, &others, value) {
            Ok(grown) => grown,
            Err(e) => {
                return Err(e);
            },
        };
        let ghost grown = models(particles@);
        let ghost grown_by = *rng;
        let reference = Particle::from_reference(current_tree);
        let mut all: Vec<Particle> = Vec::new();
        all.push(reference);
        all.append(&mut particles);
        let ghost trees = seq![current_tree@] + trees_of(grown);
        proof {
            assert(trees_of(models(all@)) =~= trees);
            assert forall|i: int| 0 <= i < all@.len() implies self.readable(
                (#[trigger] all@[i]).tree@,
            ) by {
                if i > 0 {
                    assert(all@[i]@ == grown[i - 1]);
                    law_grown_tree_predicts_training(
                        all@[i].tree@,
                        self.data.x,
                        self.config.n_outputs as nat,
                    );
                }
            }
        }
        match self.select(rng, &others, &all) {
            Ok((tree, log_likelihood)) => {
                let info = SmcStepInfo { log_likelihood, acceptance_count };
                proof {
                    assert(self.is_outcome(
                        from,
                        others,
                        value,
                        grown,
                        info.acceptance_count as nat,
                        grown_by,
                    ));
                    let i = choose|i: int| 0 <= i < trees.len() && trees[i] == tree@;
                    assert(trees[i] == all@[i].tree@);
                    if i > 0 {
                        assert(all@[i]@ == grown[i - 1]);
                    }
                }
                Ok((tree, info))
            },
            Err(e) => {
                assert(self.is_outcome(
                    from,
                    others,
                    value,
                    grown,
                    acceptance_count as nat,
                    grown_by,
                ));
                Err(e)
            },
        }
    }
}

/// Diagnostics of a single step.
#[derive(Clone, Copy, Debug)]
pub struct SmcStepInfo {
    /// The log-weight of the tree that was drawn.
    pub log_likelihood: Binary64,
    /// How many nodes were split.
    pub acceptance_count: usize,
}

/// Runs one step to produce a new tree in place of `current_tree`.
pub fn smc_step<
    N: Numerics,
    S: SplitRule,
    P: ResponseStrategy<N>,
    R: ResamplingStrategy,
    W: WeightFn,
>(
    num: &N,
    rng: &mut SmallRng,
    sum_trees: &Matrix,
    config: &BartConfig,
    data: &OwnedData,
    split_rules: &Vec<S>,
    resampling: &R,
    weight_fn: &W,
    current_tree: TreeArrays,
    leaf_sd: &Vec<Binary64>,
    response: &P,
) -> (r: Result<(TreeArrays, SmcStepInfo), SmcError>)
    requires
        ({
            let inputs = SmcInputs {
                num,
                sum_trees,
                config,
                data,
                split_rules,
                resampling,
                weight_fn,
                leaf_sd,
                response,
            };
            &&& inputs.wf()
            &&& inputs.readable(current_tree@)
        }),
        config.n_particles >= 1,
        max_nodes(config.max_depth as nat) * (config.n_particles - 1) <= usize::MAX,
    ensures
        ({
            let inputs = SmcInputs {
                num,
                sum_trees,
                config,
                data,
                split_rules,
                resampling,
                weight_fn,
                leaf_sd,
                response,
            };
            match r {
                Ok((tree, info)) => {
                    &&& inputs.is_step(*old(rng), current_tree@, tree@, info, *final(rng))
                    &&& tree@ == current_tree@ || {
                        &&& inputs.fits(tree@)
                        &&& tree@.max_depth == config.max_depth
                        &&& tree@.tidy()
                    }
                    &&& info.acceptance_count <= max_nodes(config.max_depth as nat) * (
                    config.n_particles - 1)
                },
                Err(e) => inputs.is_step_error(*old(rng), current_tree@, e, *final(rng)),
            }
        }),
{
    let inputs = SmcInputs {
        num,
        sum_trees,
        config,
        data,
        split_rules,
        resampling,
        weight_fn,
        leaf_sd,
        response,
    };
    inputs.step(rng, current_tree)
}

} // verus!
