//! What a sampler is set up with.
use crate::binary64::Binary64;
use crate::columns::{
    are_repeats_jittered, are_whole, is_jittered_column, is_nanstd, is_repeat_jittered,
    is_repeated, TWELVE_BITS,
};
use crate::config::BartConfig;
use crate::draws::is_normal_draw;
use crate::kernel_laws::law_tuning;
use crate::matrix::Matrix;
use crate::numerics::{is_product, is_quotient, is_sum, Numerics};
use crate::random::is_seeded;
use crate::resampling::ResamplingStrategy;
use crate::sampler::{is_moved, with_tune, Sampler, SamplerError};
use crate::settings::{
    are_columns_prepared, are_completed_rules, are_flags, is_flag, is_prepared_column,
    PyBartSettings, SetupError,
};
use crate::splitting::SplitRule;
use crate::state::{tree_models, BartInfo, BartState, StateModel};
use crate::tree::TreeArrays;
use crate::weight::WeightFn;
use rand::rngs::SmallRng;
use vstd::prelude::*;

verus! {

/// Each setting goes to the sampler under its own name.
pub proof fn law_settings_keep_their_names(settings: PyBartSettings, config: BartConfig)
    requires
        call_ensures(PyBartSettings::to_config, (settings,), config),
    ensures
        config.n_trees == settings.n_trees,
        config.n_particles == settings.n_particles,
        config.max_depth == settings.max_depth,
        config.alpha == settings.alpha,
        config.beta == settings.beta,
        config.sigma == settings.sigma,
        config.n_outputs == settings.n_outputs,
        config.min_samples_leaf == 5,
        config.batch_tune == settings.batch_tune,
        config.batch_post == settings.batch_post,
        config.response@ == settings.response_rule@,
        settings.split_prior@.len() == 0 ==> config.splitting_probs is None,
        settings.split_prior@.len() > 0 ==> config.splitting_probs == Some(settings.split_prior),
{
}

/// A sampler works with what it was set up with: each setting under its own name, and the
/// responses, the arithmetic, the resampling and the model as they were given.
pub proof fn law_sampler_has_its_settings<
    N: Numerics,
    S: SplitRule,
    R: ResamplingStrategy,
    W: WeightFn,
>(
    num: N,
    x: Matrix,
    y: Matrix,
    split_rules: Vec<S>,
    resampling: R,
    weight_fn: W,
    settings: PyBartSettings,
    sampler: Sampler<N, S, R, W>,
)
    requires
        call_ensures(
            Sampler::<N, S, R, W>::init,
            (num, x, y, split_rules, resampling, weight_fn, settings),
            Ok::<Sampler<N, S, R, W>, SetupError>(sampler),
        ),
    ensures
        sampler.kernel.config.n_trees == settings.n_trees,
        sampler.kernel.config.n_particles == settings.n_particles,
        sampler.kernel.config.max_depth == settings.max_depth,
        sampler.kernel.config.alpha == settings.alpha,
        sampler.kernel.config.beta == settings.beta,
        sampler.kernel.config.sigma == settings.sigma,
        sampler.kernel.config.n_outputs == settings.n_outputs,
        sampler.kernel.config.min_samples_leaf == 5,
        sampler.kernel.config.batch_tune == settings.batch_tune,
        sampler.kernel.config.batch_post == settings.batch_post,
        sampler.kernel.config.response@ == settings.response_rule@,
        settings.split_prior@.len() == 0 ==> sampler.kernel.config.splitting_probs is None,
        settings.split_prior@.len() > 0 ==> sampler.kernel.config.splitting_probs == Some(
            settings.split_prior,
        ),
        sampler.kernel.num == num,
        sampler.kernel.resampling == resampling,
        sampler.kernel.weight_fn == weight_fn,
        sampler.kernel.data.y == y,
        sampler.kernel.data.x.same_shape(x),
        sampler.kernel.split_rules@.len() >= split_rules@.len(),
        sampler.kernel.split_rules@.len() >= x.width(),
        forall|j: int|
            0 <= j < split_rules@.len() ==> #[trigger] sampler.kernel.split_rules@[j]
                == split_rules@[j],
        forall|j: int|
            split_rules@.len() <= j < sampler.kernel.split_rules@.len() ==> call_ensures(
                S::continuous,
                (),
                #[trigger] sampler.kernel.split_rules@[j],
            ),
{
    let rules = sampler.kernel.split_rules@;
    assert(sampler.is_set_up(num, x, y, split_rules@, resampling, weight_fn, settings));
    assert(are_completed_rules(split_rules@, x.width(), rules));
    assert forall|j: int| 0 <= j < split_rules@.len() implies #[trigger] rules[j]
        == split_rules@[j] by {
        assert(rules.take(split_rules@.len() as int)[j] == rules[j]);
    }
}

/// `r` is a number of a column with noise: what the host answers to the number plus its answer
/// to a twelfth of `std` times a normal draw, which takes a generator from `from` to `to`.
pub open spec fn is_spread_out<N: Numerics>(
    num: &N,
    value: Binary64,
    std: Binary64,
    from: SmallRng,
    r: Binary64,
    to: SmallRng,
) -> bool {
    exists|scale: Binary64, z: Binary64, noise: Binary64|
        {
            &&& is_normal_draw(num, from, z, to)
            &&& call_ensures(
                N::over,
                (num, std, Binary64 { bits: 0x4028_0000_0000_0000 }),
                scale,
            )
            &&& #[trigger] call_ensures(N::times, (num, scale, z), noise)
            &&& call_ensures(N::plus, (num, value, noise), r)
        }
}

/// Number `i` of a column equals one that stands before it.
pub open spec fn comes_again(col: Seq<Binary64>, i: int) -> bool {
    exists|j: int| 0 <= j < i && (#[trigger] col[j]).same_number_spec(col[i])
}

/// In a column of whole numbers each number that equals an earlier one gets noise of its own,
/// a twelfth of `std` wide, and all others stay. The draws follow each other. A column with
/// another number in it stays as it is, and nothing is drawn.
pub proof fn law_repeats_are_spread_out<N: Numerics>(
    num: &N,
    col: Seq<Binary64>,
    std: Binary64,
    from: SmallRng,
    r: Seq<Binary64>,
    to: SmallRng,
) -> (states: Seq<SmallRng>)
    requires
        is_jittered_column(num, col, std, from, r, to),
    ensures
        r.len() == col.len(),
        states.len() == col.len() + 1,
        states[0] == from,
        states.last() == to,
        forall|i: int|
            0 <= i < col.len() ==> if comes_again(col, i) && forall|j: int|
                0 <= j < col.len() ==> (#[trigger] col[j]).is_nan_spec()
                    || col[j].is_whole_spec() {
                is_spread_out(num, col[i], std, states[i], #[trigger] r[i], states[i + 1])
            } else {
                r[i] == col[i] && states[i + 1] == states[i]
            },
{
    if are_whole(col) {
        let (scale, states) = choose|scale: Binary64, states: Seq<SmallRng>|
            {
                &&& is_quotient(
                    num,
                    std,
                    Binary64 { bits: TWELVE_BITS },
                    scale,
                )
                &&& #[trigger] are_repeats_jittered(num, col, scale, states, r)
                &&& states[0] == from
                &&& states.last() == to
            };
        assert forall|i: int| 0 <= i < col.len() implies if comes_again(col, i) {
            is_spread_out(num, col[i], std, states[i], #[trigger] r[i], states[i + 1])
        } else {
            r[i] == col[i] && states[i + 1] == states[i]
        } by {
            assert(is_repeat_jittered(num, col, scale, i, states[i], r[i], states[i + 1]));
            assert(comes_again(col, i) == is_repeated(col, i));
            if comes_again(col, i) {
                let (z, noise) = choose|z: Binary64, noise: Binary64|
                    {
                        &&& is_normal_draw(num, states[i], z, states[i + 1])
                        &&& #[trigger] is_product(num, scale, z, noise)
                        &&& is_sum(num, col[i], noise, r[i])
                    };
                assert(call_ensures(N::times, (num, scale, z), noise));
            }
        }
        states
    } else {
        let states = Seq::new(col.len() + 1, |i: int| from);
        states
    }
}

/// `after` is column `before` spread out by its own standard deviation.
pub open spec fn is_spread_by_own_deviation<N: Numerics>(
    num: &N,
    before: Seq<Binary64>,
    from: SmallRng,
    after: Seq<Binary64>,
    to: SmallRng,
) -> bool {
    exists|std: Binary64| #[trigger]
        is_nanstd(num, before, std) && is_jittered_column(num, before, std, from, after, to)
}

/// Feature `j` is ready for its rule: spread out where the rule says that it is a default one,
/// as it was given where the rule says that it is not.
pub open spec fn is_feature_ready<N: Numerics, S: SplitRule>(
    num: &N,
    rule: S,
    j: int,
    before: Matrix,
    from: SmallRng,
    after: Matrix,
    to: SmallRng,
) -> bool {
    ||| {
        &&& call_ensures(S::is_continuous, (&rule,), true)
        &&& j < before.width()
        &&& is_spread_by_own_deviation(num, before.column(j), from, after.column(j), to)
    }
    ||| {
        &&& call_ensures(S::is_continuous, (&rule,), false)
        &&& j < before.width() ==> after.column(j) == before.column(j)
        &&& to == from
    }
}

/// The features of a sampler are those that were given, of which the ones with a default rule
/// are spread out by their own standard deviations, one after the other.
pub proof fn law_default_features_are_spread_out<
    N: Numerics,
    S: SplitRule,
    R: ResamplingStrategy,
    W: WeightFn,
>(
    num: N,
    x: Matrix,
    y: Matrix,
    split_rules: Vec<S>,
    resampling: R,
    weight_fn: W,
    settings: PyBartSettings,
    sampler: Sampler<N, S, R, W>,
) -> (states: Seq<SmallRng>)
    requires
        call_ensures(
            Sampler::<N, S, R, W>::init,
            (num, x, y, split_rules, resampling, weight_fn, settings),
            Ok::<Sampler<N, S, R, W>, SetupError>(sampler),
        ),
    ensures
        states.len() == sampler.kernel.split_rules@.len() + 1,
        is_seeded(settings.seed, states[0]),
        states.last() == sampler.rng,
        forall|j: int|
            0 <= j < sampler.kernel.split_rules@.len() ==> is_feature_ready(
                &num,
                #[trigger] sampler.kernel.split_rules@[j],
                j,
                x,
                states[j],
                sampler.kernel.data.x,
                states[j + 1],
            ),
{
    let rules = sampler.kernel.split_rules@;
    let after = sampler.kernel.data.x;
    assert(sampler.is_set_up(num, x, y, split_rules@, resampling, weight_fn, settings));
    let (flags, states) = choose|flags: Seq<bool>, states: Seq<SmallRng>|
        {
            &&& #[trigger] are_flags(rules, flags)
            &&& forall|j: int| x.width() <= j < flags.len() ==> !(#[trigger] flags[j])
            &&& is_seeded(settings.seed, states[0])
            &&& #[trigger] are_columns_prepared(&num, x, flags, states, after)
            &&& states.last() == sampler.rng
        };
    assert forall|j: int| 0 <= j < rules.len() implies is_feature_ready(
        &num,
        #[trigger] rules[j],
        j,
        x,
        states[j],
        after,
        states[j + 1],
    ) by {
        assert(is_flag(rules[j], flags[j]));
        if j < x.width() && flags[j] {
            assert(is_prepared_column(
                &num,
                x.column(j),
                states[j],
                after.column(j),
                states[j + 1],
            ));
            assert(is_spread_by_own_deviation(
                &num,
                x.column(j),
                states[j],
                after.column(j),
                states[j + 1],
            ));
        } else if j < x.width() {
            assert(after.column(j) == x.column(j));
        }
    }
    states
}

/// A step of a sampler that succeeds sets the tuning as wanted, or leaves it, and moves the
/// state on from there. It hands out what the new state holds: the predictions, the trees and
/// the counts. The kernel stays.
pub proof fn law_step_moves_the_state<
    N: Numerics,
    S: SplitRule,
    R: ResamplingStrategy,
    W: WeightFn,
>(
    before: Sampler<N, S, R, W>,
    tune: Option<bool>,
    predictions: Matrix,
    trees: Vec<TreeArrays>,
    counts: Vec<u32>,
    after: Sampler<N, S, R, W>,
) -> (r: (BartState, BartState, BartInfo))
    requires
        before.wf(),
        exists|a: &mut Sampler<N, S, R, W>|
            {
                &&& *a == before
                &&& *final(a) == after
                &&& #[trigger] call_ensures(
                    Sampler::<N, S, R, W>::step,
                    (a, tune),
                    Ok::<(Matrix, Vec<TreeArrays>, Vec<u32>), SamplerError>(
                        (predictions, trees, counts),
                    ),
                )
            },
    ensures
        before.state == Some(r.0),
        after.state == Some(r.1),
        after.kernel == before.kernel,
        before.kernel.is_step(
            before.rng,
            StateModel {
                tune: match tune {
                    Some(wanted) => wanted,
                    None => r.0.tune,
                },
                ..r.0@
            },
            r.1@,
            r.2,
            after.rng,
        ),
        tune matches Some(wanted) ==> r.1.tune == wanted,
        tune is None ==> r.1.tune == r.0.tune,
        predictions.height() == r.1.predictions.height(),
        predictions.width() == r.1.predictions.width(),
        forall|o: int, s: int| #[trigger] predictions.at(o, s) == r.1.predictions.at(o, s),
        trees@.len() == r.1.forest@.len(),
        forall|i: int| 0 <= i < trees@.len() ==> (#[trigger] trees@[i])@ == r.1.forest@[i]@,
        counts@ == r.1.variable_inclusion@,
{
    let result = Ok::<(Matrix, Vec<TreeArrays>, Vec<u32>), SamplerError>(
        (predictions, trees, counts),
    );
    let a = choose|a: &mut Sampler<N, S, R, W>|
        {
            &&& *a == before
            &&& *final(a) == after
            &&& #[trigger] call_ensures(Sampler::<N, S, R, W>::step, (a, tune), result)
        };
    let old_state = before.state->0;
    let new_state = after.state->0;
    assert(before.state == Some(old_state));
    let start = with_tune(old_state@, tune);
    assert(is_moved(&before.kernel, before.rng, start, new_state@, after.rng));
    let info = choose|info: BartInfo| #[trigger]
        before.kernel.is_step(before.rng, start, new_state@, info, after.rng);
    law_tuning(&before.kernel, before.rng, start, new_state@, info, after.rng);
    assert(start =~= StateModel {
        tune: match tune {
            Some(wanted) => wanted,
            None => old_state.tune,
        },
        ..old_state@
    });
    assert forall|i: int| 0 <= i < trees@.len() implies (#[trigger] trees@[i])@
        == new_state.forest@[i]@ by {
        assert(tree_models(trees@)[i] == trees@[i]@);
        assert(new_state@.forest[i] == new_state.forest@[i]@);
    }
    assert(tree_models(trees@).len() == trees@.len());
    let r = (old_state, new_state, info);
    assert(r.0 == old_state && r.1 == new_state && r.2 == info);
    r
}

} // verus!
