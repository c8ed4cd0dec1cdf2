//! What holds of every step.
use crate::binary64::Binary64;
use crate::draws::are_ancestors;
use crate::matrix::Matrix;
use crate::mutation::SmcError;
use crate::numerics::Numerics;
use crate::particle::ParticleModel;
use crate::resampling::ResamplingStrategy;
use crate::response::ResponseStrategy;
use crate::smc::{
    are_normalized, count_set, descendants, fresh_particle, is_waiting, log_weights, trees_of,
    valid_ancestors, SmcInputs, SmcStepInfo,
};
use crate::splitting::SplitRule;
use crate::tree_model::TreeModel;
use crate::weight::WeightFn;
use rand::rngs::SmallRng;
use vstd::prelude::*;

verus! {

/// The last of some rounds, and where the particles stood before it.
pub proof fn choose_round<
    'a,
    N: Numerics,
    S: SplitRule,
    P: ResponseStrategy<N>,
    R: ResamplingStrategy,
    W: WeightFn,
>(
    inputs: SmcInputs<'a, N, S, P, R, W>,
    from: SmallRng,
    others: Matrix,
    start: ParticleModel,
    rounds: nat,
    particles: Seq<ParticleModel>,
    count: nat,
    to: SmallRng,
) -> (r: (Seq<ParticleModel>, nat, SmallRng))
    requires
        rounds > 0,
        inputs.is_population(from, others, start, rounds, particles, count, to),
    ensures
        r.1 <= count,
        inputs.is_round(r.2, others, r.0, particles, r.1, to),
        is_waiting(r.0),
        inputs.is_population(
            from,
            others,
            start,
            (rounds - 1) as nat,
            r.0,
            (count - r.1) as nat,
            r.2,
        ),
{
    let (before, more, between) = choose|
        before: Seq<ParticleModel>,
        more: nat,
        between: SmallRng,
    |
        {
            &&& more <= count
            &&& #[trigger] inputs.is_round(between, others, before, particles, more, to)
            &&& is_waiting(before)
            &&& inputs.is_population_after(
                from,
                others,
                start,
                (rounds - 1) as nat,
                before,
                (count - more) as nat,
                between,
            )
        };
    (before, more, between)
}

/// The number of particles stays the same from round to round.
pub proof fn law_population_size<
    'a,
    N: Numerics,
    S: SplitRule,
    P: ResponseStrategy<N>,
    R: ResamplingStrategy,
    W: WeightFn,
>(
    inputs: SmcInputs<'a, N, S, P, R, W>,
    from: SmallRng,
    others: Matrix,
    start: ParticleModel,
    rounds: nat,
    particles: Seq<ParticleModel>,
    count: nat,
    to: SmallRng,
)
    requires
        inputs.config.n_particles >= 1,
        inputs.is_population(from, others, start, rounds, particles, count, to),
    ensures
        particles.len() == inputs.config.n_particles - 1,
    decreases rounds,
{
    if rounds > 0 {
        let (before, more, between) = choose_round(
            inputs,
            from,
            others,
            start,
            rounds,
            particles,
            count,
            to,
        );
        law_population_size(
            inputs,
            from,
            others,
            start,
            (rounds - 1) as nat,
            before,
            (count - more) as nat,
            between,
        );
    }
}

/// The particles that a step draws from.
pub proof fn choose_outcome<
    'a,
    N: Numerics,
    S: SplitRule,
    P: ResponseStrategy<N>,
    R: ResamplingStrategy,
    W: WeightFn,
>(
    inputs: SmcInputs<'a, N, S, P, R, W>,
    from: SmallRng,
    current: TreeModel,
    tree: TreeModel,
    info: SmcStepInfo,
    to: SmallRng,
) -> (r: (Matrix, Binary64, Seq<ParticleModel>, nat, SmallRng))
    requires
        inputs.is_step(from, current, tree, info, to),
    ensures
        inputs.is_remainder(current, r.0),
        inputs.is_initial_value(r.1),
        !is_waiting(r.2),
        inputs.is_population(
            from,
            r.0,
            fresh_particle(*inputs.config, inputs.data.x.height(), r.1),
            r.3,
            r.2,
            info.acceptance_count as nat,
            r.4,
        ),
        inputs.is_selection(
            r.4,
            r.0,
            seq![current] + trees_of(r.2),
            tree,
            info.log_likelihood,
            to,
        ),
{
    let (others, value, particles, grown) = choose|
        others: Matrix,
        value: Binary64,
        particles: Seq<ParticleModel>,
        grown: SmallRng,
    |
        {
            &&& inputs.is_remainder(current, others)
            &&& inputs.is_initial_value(value)
            &&& #[trigger] inputs.is_outcome(
                from,
                others,
                value,
                particles,
                info.acceptance_count as nat,
                grown,
            )
            &&& inputs.is_selection(
                grown,
                others,
                seq![current] + trees_of(particles),
                tree,
                info.log_likelihood,
                to,
            )
        };
    let start = fresh_particle(*inputs.config, inputs.data.x.height(), value);
    let rounds = choose|rounds: nat| #[trigger]
        inputs.is_population(
            from,
            others,
            start,
            rounds,
            particles,
            info.acceptance_count as nat,
            grown,
        );
    (others, value, particles, rounds, grown)
}

/// With no particle but the one that keeps the current tree, a step keeps the tree.
pub proof fn law_single_particle_keeps_tree<
    'a,
    N: Numerics,
    S: SplitRule,
    P: ResponseStrategy<N>,
    R: ResamplingStrategy,
    W: WeightFn,
>(
    inputs: SmcInputs<'a, N, S, P, R, W>,
    from: SmallRng,
    current: TreeModel,
    tree: TreeModel,
    info: SmcStepInfo,
    to: SmallRng,
)
    requires
        inputs.config.n_particles == 1,
        inputs.is_step(from, current, tree, info, to),
    ensures
        tree == current,
{
    let (others, value, particles, rounds, grown) = choose_outcome(
        inputs,
        from,
        current,
        tree,
        info,
        to,
    );
    let start = fresh_particle(*inputs.config, inputs.data.x.height(), value);
    law_population_size(
        inputs,
        from,
        others,
        start,
        rounds,
        particles,
        info.acceptance_count as nat,
        grown,
    );
    assert(seq![current] + trees_of(particles) =~= seq![current]);
}

/// Particles that start with no node waiting are never split, and nothing is drawn for them.
proof fn lemma_no_rounds<
    'a,
    N: Numerics,
    S: SplitRule,
    P: ResponseStrategy<N>,
    R: ResamplingStrategy,
    W: WeightFn,
>(
    inputs: SmcInputs<'a, N, S, P, R, W>,
    from: SmallRng,
    others: Matrix,
    start: ParticleModel,
    rounds: nat,
    particles: Seq<ParticleModel>,
    count: nat,
    to: SmallRng,
)
    requires
        start.expandable.len() == 0,
        inputs.is_population(from, others, start, rounds, particles, count, to),
    ensures
        rounds == 0,
    decreases rounds,
{
    if rounds > 0 {
        let (before, more, between) = choose_round(
            inputs,
            from,
            others,
            start,
            rounds,
            particles,
            count,
            to,
        );
        lemma_no_rounds(
            inputs,
            from,
            others,
            start,
            (rounds - 1) as nat,
            before,
            (count - more) as nat,
            between,
        );
    }
}

/// No flag is set where none is counted.
proof fn lemma_none_set(flags: Seq<bool>)
    requires
        count_set(flags) == 0,
    ensures
        forall|i: int| 0 <= i < flags.len() ==> !(#[trigger] flags[i]),
    decreases flags.len(),
{
    if flags.len() > 0 {
        lemma_none_set(flags.drop_last());
        assert forall|i: int| 0 <= i < flags.len() implies !(#[trigger] flags[i]) by {
            if i < flags.len() - 1 {
                assert(flags.drop_last()[i] == flags[i]);
            }
        }
    }
}

/// Where no node is split, every particle keeps the tree that it started with.
proof fn lemma_no_splits<
    'a,
    N: Numerics,
    S: SplitRule,
    P: ResponseStrategy<N>,
    R: ResamplingStrategy,
    W: WeightFn,
>(
    inputs: SmcInputs<'a, N, S, P, R, W>,
    from: SmallRng,
    others: Matrix,
    start: ParticleModel,
    rounds: nat,
    particles: Seq<ParticleModel>,
    count: nat,
    to: SmallRng,
)
    requires
        count == 0,
        inputs.is_population(from, others, start, rounds, particles, count, to),
    ensures
        forall|i: int| 0 <= i < particles.len() ==> (#[trigger] particles[i]).tree == start.tree,
    decreases rounds,
{
    if rounds > 0 {
        let (before, more, between) = choose_round(
            inputs,
            from,
            others,
            start,
            rounds,
            particles,
            count,
            to,
        );
        lemma_no_splits(
            inputs,
            from,
            others,
            start,
            (rounds - 1) as nat,
            before,
            (count - more) as nat,
            between,
        );
        let (visited, accepted, visited_by, weighed, weights, ancestors) = choose|
            visited: Seq<ParticleModel>,
            accepted: Seq<bool>,
            visited_by: SmallRng,
            weighed: Seq<ParticleModel>,
            weights: Seq<Binary64>,
            ancestors: Seq<usize>,
        |
            {
                &&& #[trigger] inputs.are_all_visited(between, before, visited, accepted, visited_by)
                &&& #[trigger] inputs.are_weighed(others, visited, accepted, weighed)
                &&& #[trigger] are_normalized(inputs.num, log_weights(weighed), weights)
                &&& #[trigger] are_ancestors(
                    inputs.resampling,
                    weights,
                    visited_by,
                    ancestors,
                    to,
                )
                &&& valid_ancestors(ancestors, before.len())
                &&& particles == descendants(weighed, ancestors)
                &&& more == count_set(accepted)
            };
        let states = choose|states: Seq<SmallRng>|
            {
                &&& #[trigger] inputs.are_visits(states, before, visited, accepted)
                &&& states[0] == between
                &&& states.last() == visited_by
            };
        lemma_none_set(accepted);
        assert forall|i: int| 0 <= i < particles.len() implies (#[trigger] particles[i]).tree
            == start.tree by {
            let a = ancestors[i] as int;
            assert(particles[i] == weighed[a]);
            assert(!accepted[a]);
            assert(inputs.is_visit(
                states[a],
                before[a],
                visited[a],
                accepted[a],
                states[a + 1],
            ));
            assert(weighed[a] == visited[a]);
            assert(visited[a].tree == before[a].tree);
        }
    }
}

/// A step that splits no node keeps the current tree or takes a single leaf with its share of
/// the mean response.
pub proof fn law_no_split_no_growth<
    'a,
    N: Numerics,
    S: SplitRule,
    P: ResponseStrategy<N>,
    R: ResamplingStrategy,
    W: WeightFn,
>(
    inputs: SmcInputs<'a, N, S, P, R, W>,
    from: SmallRng,
    current: TreeModel,
    tree: TreeModel,
    info: SmcStepInfo,
    to: SmallRng,
)
    requires
        inputs.is_step(from, current, tree, info, to),
        info.acceptance_count == 0,
    ensures
        tree == current || exists|value: Binary64| #[trigger]
            inputs.is_initial_value(value) && tree == TreeModel::root(
                value,
                inputs.data.x.height(),
                inputs.config.max_depth as nat,
                inputs.config.n_outputs as nat,
            ),
{
    let (others, value, particles, rounds, grown) = choose_outcome(
        inputs,
        from,
        current,
        tree,
        info,
        to,
    );
    let start = fresh_particle(*inputs.config, inputs.data.x.height(), value);
    lemma_no_splits(inputs, from, others, start, rounds, particles, 0, grown);
    let trees = seq![current] + trees_of(particles);
    let i = choose|i: int| 0 <= i < trees.len() && trees[i] == tree;
    assert(trees.contains(tree));
    if i > 0 {
        assert(trees[i] == particles[i - 1].tree);
        assert(inputs.is_initial_value(value));
    }
}

/// Where trees may have no depth, a step splits no node: it keeps the current tree or takes
/// a single leaf with its share of the mean response.
pub proof fn law_no_depth_no_growth<
    'a,
    N: Numerics,
    S: SplitRule,
    P: ResponseStrategy<N>,
    R: ResamplingStrategy,
    W: WeightFn,
>(
    inputs: SmcInputs<'a, N, S, P, R, W>,
    from: SmallRng,
    current: TreeModel,
    tree: TreeModel,
    info: SmcStepInfo,
    to: SmallRng,
)
    requires
        inputs.config.max_depth == 0,
        inputs.is_step(from, current, tree, info, to),
    ensures
        info.acceptance_count == 0,
        tree == current || exists|value: Binary64| #[trigger]
            inputs.is_initial_value(value) && tree == TreeModel::root(
                value,
                inputs.data.x.height(),
                0,
                inputs.config.n_outputs as nat,
            ),
{
    let (others, value, particles, rounds, grown) = choose_outcome(
        inputs,
        from,
        current,
        tree,
        info,
        to,
    );
    let start = fresh_particle(*inputs.config, inputs.data.x.height(), value);
    lemma_no_rounds(
        inputs,
        from,
        others,
        start,
        rounds,
        particles,
        info.acceptance_count as nat,
        grown,
    );
    law_no_split_no_growth(inputs, from, current, tree, info, to);
}

/// Where nothing can grow, for want of depth or of particles, only the draw of a tree can
/// fail: no feature is chosen, nothing is proposed and no ancestor is drawn.
pub proof fn law_without_growth_only_the_draw_fails<
    'a,
    N: Numerics,
    S: SplitRule,
    P: ResponseStrategy<N>,
    R: ResamplingStrategy,
    W: WeightFn,
>(
    inputs: SmcInputs<'a, N, S, P, R, W>,
    from: SmallRng,
    current: TreeModel,
    e: SmcError,
    to: SmallRng,
)
    requires
        inputs.config.n_particles >= 1,
        inputs.config.n_particles == 1 || inputs.config.max_depth == 0,
        inputs.is_step_error(from, current, e, to),
    ensures
        e == SmcError::InvalidWeights,
{
    if e != SmcError::InvalidWeights {
        let (others, value) = choose|others: Matrix, value: Binary64|
            {
                &&& #[trigger] inputs.is_remainder(current, others)
                &&& #[trigger] inputs.is_initial_value(value)
                &&& inputs.is_growth_error(from, others, value, e, to)
            };
        let (particles, count, between) = choose|
            particles: Seq<ParticleModel>,
            count: nat,
            between: SmallRng,
        |
            {
                &&& #[trigger] inputs.is_reached(from, others, value, particles, count, between)
                &&& is_waiting(particles)
                &&& inputs.is_round_error(between, others, particles, e, to)
            };
        let start = fresh_particle(*inputs.config, inputs.data.x.height(), value);
        let rounds = choose|rounds: nat| #[trigger]
            inputs.is_population(from, others, start, rounds, particles, count, between);
        law_population_size(inputs, from, others, start, rounds, particles, count, between);
        if inputs.config.max_depth == 0 {
            lemma_no_rounds(inputs, from, others, start, rounds, particles, count, between);
        }
        let i = choose|i: int|
            0 <= i < particles.len() && (#[trigger] particles[i]).expandable.len() > 0;
        assert(particles[i] == start);
    }
}

} // verus!
