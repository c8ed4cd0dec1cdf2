//! What a sampler starts from.
use crate::binary64::{count_number, Binary64};
use crate::data::is_mean_response;
use crate::growth_laws::answers;
use crate::kernel::{is_binary, is_initial_leaf_sd, is_response_spread, BartKernel};
use crate::leaf_laws::{computes_exactly, fits_exactly, lemma_over_count};
use crate::matrix::{flattened, Matrix};
use crate::numerics::{is_mean, is_quotient, is_root, is_spread, Numerics};
use crate::resampling::ResamplingStrategy;
use crate::splitting::SplitRule;
use crate::state::BartState;
use crate::tree_model::TreeModel;
use crate::weight::WeightFn;
use vstd::prelude::*;

verus! {

/// `mean` is what the host answers to the mean of all responses, zero where there are none.
pub open spec fn is_mean_of_all<N: Numerics>(num: &N, y: Matrix, mean: Binary64) -> bool {
    if flattened(y).len() == 0 {
        mean == (Binary64 { bits: 0 })
    } else {
        exists|all: &Vec<Binary64>|
            all@ == flattened(y) && #[trigger] call_ensures(N::mean, (num, all), mean)
    }
}

/// At the start each of the trees is a single leaf, and answers everywhere the mean of all
/// responses divided by the number of trees, while the forest predicts the mean.
pub proof fn law_start_shares_the_mean<
    N: Numerics,
    S: SplitRule,
    R: ResamplingStrategy,
    W: WeightFn,
>(kernel: &BartKernel<N, S, R, W>, state: BartState) -> (mean: Binary64)
    requires
        call_ensures(BartKernel::<N, S, R, W>::initial_state, (kernel,), state),
    ensures
        is_mean_of_all(&kernel.num, kernel.data.y, mean),
        state@.forest.len() == kernel.config.n_trees,
        state@.predictions.height() == kernel.config.n_outputs,
        state@.predictions.width() == kernel.data.x.height(),
        forall|o: int, s: int|
            0 <= o < kernel.config.n_outputs && 0 <= s < kernel.data.x.height()
                ==> #[trigger] state@.predictions.at(o, s) == mean,
        forall|i: int|
            0 <= i < state@.forest.len() ==> {
                &&& (#[trigger] state@.forest[i]).split_var.len() == 1
                &&& state@.forest[i].split_var[0] == u32::MAX
                &&& state@.forest[i].max_depth == kernel.config.max_depth
            },
        forall|i: int, o: int, s: int, v: Binary64|
            0 <= i < state@.forest.len() && 0 <= o < kernel.config.n_outputs && 0 <= s
                < kernel.data.x.height() && #[trigger] answers(
                &kernel.num,
                state@.forest[i],
                kernel.data.x,
                o,
                s,
                v,
            ) ==> call_ensures(
                N::over,
                (&kernel.num, mean, count_number(kernel.config.n_trees as nat)),
                v,
            ),
{
    let num = &kernel.num;
    assert(kernel.is_initial(state@));
    let n_samples = kernel.data.x.height();
    let n_outputs = kernel.config.n_outputs as nat;
    let (mean, value) = choose|mean: Binary64, value: Binary64|
        {
            &&& is_mean_response(num, kernel.data.y, mean)
            &&& #[trigger] is_quotient(
                num,
                mean,
                count_number(kernel.config.n_trees as nat),
                value,
            )
            &&& state@.forest == Seq::new(
                kernel.config.n_trees as nat,
                |i: int|
                    TreeModel::root(
                        value,
                        n_samples,
                        kernel.config.max_depth as nat,
                        n_outputs,
                    ),
            )
            &&& forall|o: int, s: int|
                0 <= o < n_outputs && 0 <= s < n_samples
                    ==> #[trigger] state@.predictions.at(o, s) == mean
        };
    if flattened(kernel.data.y).len() > 0 {
        assert(is_mean(num, flattened(kernel.data.y), mean));
    }
    assert forall|i: int, o: int, s: int, v: Binary64|
        0 <= i < state@.forest.len() && 0 <= o < n_outputs && 0 <= s < n_samples
            && #[trigger] answers(num, state@.forest[i], kernel.data.x, o, s, v) implies v
        == value by {
        let t = state@.forest[i];
        assert(t.leaf_indices[s] == 0);
        assert(t.leaf_val[0 * t.n_outputs + o] == value);
    }
    mean
}

/// Where the arithmetic is exact, the answers of all trees at the start add up to what the
/// forest predicts: `n` trees answer an `n`th of it each.
pub proof fn law_start_answers_add_up<
    N: Numerics,
    S: SplitRule,
    R: ResamplingStrategy,
    W: WeightFn,
>(
    kernel: &BartKernel<N, S, R, W>,
    state: BartState,
    i: int,
    o: int,
    s: int,
    v: Binary64,
    share: int,
    unit: int,
    bound: int,
)
    requires
        call_ensures(BartKernel::<N, S, R, W>::initial_state, (kernel,), state),
        computes_exactly(&kernel.num, unit, bound),
        kernel.config.n_trees < 0x20_0000_0000_0000,
        0 <= i < state@.forest.len(),
        0 <= o < kernel.config.n_outputs,
        0 <= s < kernel.data.x.height(),
        answers(&kernel.num, state@.forest[i], kernel.data.x, o, s, v),
        state@.predictions.at(o, s).is_finite_spec(),
        state@.predictions.at(o, s).scaled() == kernel.config.n_trees * share,
        fits_exactly(share, unit, bound),
    ensures
        kernel.config.n_trees * v.scaled() == state@.predictions.at(o, s).scaled(),
{
    let mean = law_start_shares_the_mean(kernel, state);
    lemma_over_count(
        &kernel.num,
        mean,
        kernel.config.n_trees as nat,
        share,
        unit,
        bound,
        v,
    );
}

/// `r` is what the host answers to `spread` over its answer to the root of the number of
/// trees.
pub open spec fn is_spread_among<N: Numerics>(
    num: &N,
    spread: Binary64,
    n_trees: nat,
    r: Binary64,
) -> bool {
    exists|root: Binary64|
        {
            &&& #[trigger] call_ensures(N::sqrt, (num, count_number(n_trees)), root)
            &&& call_ensures(N::over, (num, spread, root), r)
        }
}

/// At the start the standard deviation of the leaves is, for every output, that of all
/// responses over the root of the number of trees. Responses that are all zero or one count
/// as having the standard deviation three. The sampler is tuning, with nothing seen yet, and
/// the first tree is the next.
pub proof fn law_start_deviations<N: Numerics, S: SplitRule, R: ResamplingStrategy, W: WeightFn>(
    kernel: &BartKernel<N, S, R, W>,
    state: BartState,
    o: int,
) -> (spread: Binary64)
    requires
        call_ensures(BartKernel::<N, S, R, W>::initial_state, (kernel,), state),
        0 <= o < kernel.config.n_outputs,
    ensures
        state@.leaf_sd@.len() == kernel.config.n_outputs,
        is_spread_among(
            &kernel.num,
            spread,
            kernel.config.n_trees as nat,
            state@.leaf_sd@[o],
        ),
        (forall|i: int|
            0 <= i < flattened(kernel.data.y).len() ==> {
                ||| (#[trigger] flattened(kernel.data.y)[i]).same_number_spec(Binary64 { bits: 0 })
                ||| flattened(kernel.data.y)[i].same_number_spec(
                    Binary64 { bits: 0x3ff0_0000_0000_0000 },
                )
            }) ==> spread == (Binary64 { bits: 0x4008_0000_0000_0000 }),
        (exists|i: int|
            {
                &&& 0 <= i < flattened(kernel.data.y).len()
                &&& !(#[trigger] flattened(kernel.data.y)[i]).same_number_spec(
                    Binary64 { bits: 0 },
                )
                &&& !flattened(kernel.data.y)[i].same_number_spec(
                    Binary64 { bits: 0x3ff0_0000_0000_0000 },
                )
            }) ==> exists|all: &Vec<Binary64>|
            all@ == flattened(kernel.data.y) && #[trigger] call_ensures(
                N::spread,
                (&kernel.num, all),
                spread,
            ),
        state@.tune,
        state@.next_tree_idx == 0,
        state@.iter == 0,
        state@.stump_count == 0,
        state@.running_sd.count == 0,
        state@.variable_inclusion.len() == kernel.data.x.width(),
        forall|f: int|
            0 <= f < state@.variable_inclusion.len() ==> #[trigger] state@.variable_inclusion[f]
                == 0,
        forall|s: int|
            0 <= s < kernel.data.x.height() ==> {
                &&& #[trigger] state@.running_sd.mean.at(o, s) == (Binary64 { bits: 0 })
                &&& state@.running_sd.m2.at(o, s) == (Binary64 { bits: 0 })
            },
{
    let num = &kernel.num;
    let y = flattened(kernel.data.y);
    let n = kernel.config.n_trees as nat;
    assert(kernel.is_untouched(state@));
    let r = state@.leaf_sd@[o];
    assert(is_initial_leaf_sd(num, kernel.data, n, r));
    let (spread, root) = choose|spread: Binary64, root: Binary64|
        {
            &&& is_response_spread(num, y, spread)
            &&& #[trigger] is_root(num, count_number(n), root)
            &&& #[trigger] is_quotient(num, spread, root, r)
        };
    assert(call_ensures(N::sqrt, (num, count_number(n)), root));
    if !is_binary(y) {
        assert(is_spread(num, y, spread));
    }
    spread
}

} // verus!
