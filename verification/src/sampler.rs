//! A sampler together with its state.
use crate::data::OwnedData;
use crate::kernel::{BartKernel, SamplingAlgorithm, StepError};
use crate::matrix::{can_allocate, Matrix};
use crate::mutation::SmcError;
use crate::numerics::Numerics;
use crate::random::{is_seeded, seeded};
use crate::resampling::ResamplingStrategy;
use crate::settings::{
    are_columns_prepared, are_completed_rules, are_flags, complete_rules, prepare_columns,
    PyBartSettings, SetupError,
};
use crate::splitting::SplitRule;
use crate::state::{tree_models, BartInfo, BartState, StateModel};
use crate::tree::TreeArrays;
use crate::tree_model::max_nodes;
use crate::weight::WeightFn;
use rand::rngs::SmallRng;
use vstd::prelude::*;

verus! {

/// A sampler together with its state and its source of chance.
pub struct Sampler<N, S, R, W> {
    pub kernel: BartKernel<N, S, R, W>,
    /// Missing after a step that failed.
    pub state: Option<BartState>,
    pub rng: SmallRng,
}

/// Why a sampler did not move on.
#[derive(Clone, Debug)]
pub enum SamplerError {
    /// The state was lost in an earlier step.
    StateMissing,
    /// Data and settings do not fit together, or a counter has no room for the step.
    OutOfRange,
    /// The step failed.
    Step(StepError),
}

impl SamplerError {
    /// The error in words.
    pub fn message(&self) -> (r: String)
        ensures
            r@ == match self {
                SamplerError::StateMissing => "Sampler state is missing (internal error)"@,
                SamplerError::OutOfRange => "Sampler settings are out of range"@,
                SamplerError::Step(StepError::UnknownResponse(message)) => message@,
                SamplerError::Step(StepError::CountOverflow) => {
                    "A feature was split on too often to be counted"@
                },
                SamplerError::Step(StepError::Smc(SmcError::ResponseNotImplemented)) => {
                    "Response strategy is not implemented"@
                },
                SamplerError::Step(StepError::Smc(_)) => "No tree could be grown"@,
            },
    {
        match self {
            SamplerError::StateMissing => "Sampler state is missing (internal error)".to_owned(),
            SamplerError::OutOfRange => "Sampler settings are out of range".to_owned(),
            SamplerError::Step(StepError::UnknownResponse(message)) => message.clone(),
            SamplerError::Step(StepError::CountOverflow) => {
                "A feature was split on too often to be counted".to_owned()
            },
            SamplerError::Step(StepError::Smc(SmcError::ResponseNotImplemented)) => {
                "Response strategy is not implemented".to_owned()
            },
            SamplerError::Step(StepError::Smc(_)) => "No tree could be grown".to_owned(),
        }
    }
}

/// A state that is tuning or not as wanted.
pub open spec fn with_tune(state: StateModel, tune: Option<bool>) -> StateModel {
    match tune {
        Some(tune) => StateModel { tune, ..state },
        None => state,
    }
}

/// `after` may come of a step from `before`, which takes a generator from `from` to `to`.
pub open spec fn is_moved<N: Numerics, S: SplitRule, R: ResamplingStrategy, W: WeightFn>(
    kernel: &BartKernel<N, S, R, W>,
    from: SmallRng,
    before: StateModel,
    after: StateModel,
    to: SmallRng,
) -> bool {
    exists|info: BartInfo| #[trigger] kernel.is_step(from, before, after, info, to)
}

/// Why no sampler can be set up: a default rule is left without a feature, or the trees or
/// arrays that are asked for cannot be held.
pub open spec fn is_setup_error<S: SplitRule>(
    x: Matrix,
    split_rules: Seq<S>,
    settings: PyBartSettings,
    e: SetupError,
) -> bool {
    match e {
        SetupError::NoSuchColumn => exists|rules: Seq<S>, flags: Seq<bool>, j: int|
            {
                &&& are_completed_rules(split_rules, x.width(), rules)
                &&& #[trigger] are_flags(rules, flags)
                &&& x.width() <= j < flags.len()
                &&& #[trigger] flags[j]
            },
        SetupError::TooLarge => {
            ||| settings.max_depth > 31
            ||| settings.max_depth + 1 >= usize::BITS
            ||| !can_allocate(settings.n_outputs as int, x.height() as int)
            ||| max_nodes(settings.max_depth as nat) * (if settings.n_outputs == 0 {
                1
            } else {
                settings.n_outputs as int
            }) > usize::MAX
        },
    }
}

impl<N: Numerics, S: SplitRule, R: ResamplingStrategy, W: WeightFn> Sampler<N, S, R, W> {
    /// The sampler is one for these data and settings: its rules are completed, the features
    /// that take default ones are jittered with a generator that starts from the seed, and it
    /// goes on with that generator from a state to start from.
    pub open spec fn is_set_up(
        self,
        num: N,
        x: Matrix,
        y: Matrix,
        split_rules: Seq<S>,
        resampling: R,
        weight_fn: W,
        settings: PyBartSettings,
    ) -> bool {
        let kernel = self.kernel;
        &&& kernel.num == num
        &&& kernel.resampling == resampling
        &&& kernel.weight_fn == weight_fn
        &&& settings.is_config(kernel.config)
        &&& kernel.sized()
        &&& kernel.data.y == y
        &&& are_completed_rules(split_rules, x.width(), kernel.split_rules@)
        &&& exists|flags: Seq<bool>, states: Seq<SmallRng>|
            {
                &&& #[trigger] are_flags(kernel.split_rules@, flags)
                &&& forall|j: int| x.width() <= j < flags.len() ==> !(#[trigger] flags[j])
                &&& is_seeded(settings.seed, states[0])
                &&& #[trigger] are_columns_prepared(&num, x, flags, states, kernel.data.x)
                &&& states.last() == self.rng
            }
        &&& self.state matches Some(state) && kernel.is_start(state)
    }

    /// The invariant: the state is one of the sampler's.
    pub open spec fn wf(self) -> bool {
        self.state matches Some(state) ==> {
            &&& self.kernel.state_ok(state@)
            &&& self.kernel.forest_tidy(state@)
        }
    }

    /// Sets a sampler up: completes the split rules, jitters the features that take
    /// default ones, and makes the state to start from.
    pub fn init(
        num: N,
        x: Matrix,
        y: Matrix,
        split_rules: Vec<S>,
        resampling: R,
        weight_fn: W,
        settings: PyBartSettings,
    ) -> (r: Result<Self, SetupError>)
        ensures
            match r {
                Ok(sampler) => {
                    &&& sampler.wf()
                    &&& sampler.is_set_up(
                        num,
                        x,
                        y,
                        split_rules@,
                        resampling,
                        weight_fn,
                        settings,
                    )
                },
                Err(e) => is_setup_error(x, split_rules@, settings, e),
            },
    {
        let ghost given = x;
        let mut x = x;
        let split_rules = complete_rules(split_rules, x.ncols());
        let mut rng = seeded(settings.seed);
        assert(is_seeded(settings.seed, rng));
        match prepare_columns(&num, &mut rng, &mut x, &split_rules) {
            Ok(_) => {},
            Err(e) => {
                proof {
                    let flags = choose|flags: Seq<bool>| #[trigger]
                        are_flags(split_rules@, flags) && exists|j: int|
                            given.width() <= j < flags.len() && #[trigger] flags[j];
                    let j = choose|j: int|
                        given.width() <= j < flags.len() && #[trigger] flags[j];
                    assert(flags[j]);
                }
                return Err(e);
            },
        }
        let config = settings.to_config();
        let data = OwnedData { x, y };
        let kernel = BartKernel { num, split_rules, resampling, weight_fn, config, data };
        if !kernel.is_sized() {
            return Err(SetupError::TooLarge);
        }
        let state = SamplingAlgorithm::init(&kernel, &mut rng);
        Ok(Sampler { kernel, state: Some(state), rng })
    }

    /// Moves on by one step, tuning or not as wanted. Returns the predictions, the trees
    /// and how often each feature was split on.
    pub fn step(&mut self, tune: Option<bool>) -> (r: Result<
        (Matrix, Vec<TreeArrays>, Vec<u32>),
        SamplerError,
    >)
        requires
            old(self).wf(),
        ensures
            final(self).wf(),
            final(self).kernel == old(self).kernel,
            match old(self).state {
                None => {
                    &&& r matches Err(e) && e is StateMissing
                    &&& final(self).state is None
                    &&& final(self).rng == old(self).rng
                },
                Some(state) => {
                    let kernel = old(self).kernel;
                    let before = with_tune(state@, tune);
                    match r {
                        Ok((predictions, trees, counts)) => {
                            &&& kernel.can_step(before)
                            &&& final(self).state matches Some(after) && {
                                &&& is_moved(
                                    &kernel,
                                    old(self).rng,
                                    before,
                                    after@,
                                    final(self).rng,
                                )
                                &&& predictions.same_shape(after.predictions)
                                &&& forall|o: int, s: int| #[trigger]
                                    predictions.at(o, s) == after.predictions.at(o, s)
                                &&& tree_models(trees@) == after@.forest
                                &&& counts@ == after@.variable_inclusion
                            }
                        },
                        Err(SamplerError::StateMissing) => false,
                        Err(SamplerError::OutOfRange) => {
                            &&& !kernel.can_step(before)
                            &&& final(self).state is None
                            &&& final(self).rng == old(self).rng
                        },
                        Err(SamplerError::Step(e)) => {
                            &&& kernel.can_step(before)
                            &&& kernel.is_failure(old(self).rng, before, e, final(self).rng)
                            &&& final(self).state is None
                        },
                    }
                },
            },
    {
        let mut state = match self.state.take() {
            Some(state) => state,
            None => {
                return Err(SamplerError::StateMissing);
            },
        };
        let ghost given = state@;
        if let Some(tune) = tune {
            state.tune = tune;
        }
        let ghost before = state@;
        assert(before == with_tune(given, tune));
        if !self.kernel.is_ready() || !self.kernel.has_room(&state) {
            return Err(SamplerError::OutOfRange);
        }
        let ghost from = self.rng;
        match self.kernel.take_step(&mut self.rng, state) {
            Ok((after, info)) => {
                assert(self.kernel.is_step(from, before, after@, info, self.rng));
                assert(is_moved(&self.kernel, from, before, after@, self.rng));
                let predictions = after.predictions.clone();
                let trees = copied_trees(&after.forest);
                let counts = after.get_variable_inclusion();
                self.state = Some(after);
                Ok((predictions, trees, counts))
            },
            Err(e) => Err(SamplerError::Step(e)),
        }
    }
}

/// Copies of some trees.
fn copied_trees(trees: &Vec<TreeArrays>) -> (r: Vec<TreeArrays>)
    ensures
        tree_models(r@) == tree_models(trees@),
{
    let mut r: Vec<TreeArrays> = Vec::new();
    for i in 0..trees.len()
        invariant
            tree_models(r@) == tree_models(trees@).take(i as int),
    {
        let ghost before = r@;
        let tree = trees[i].clone();
        r.push(tree);
        assert(tree_models(r@) =~= tree_models(before).push(tree@));
        assert(tree_models(r@) =~= tree_models(trees@).take(i + 1));
    }
    assert(tree_models(r@) =~= tree_models(trees@));
    r
}

} // verus!
