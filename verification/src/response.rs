//! Leaf contents and the strategies that propose them.
use crate::binary64::{count_number, Binary64, ZERO_BITS};
use crate::draws::{draw_normal, is_normal_draw};
use crate::matrix::Matrix;
use crate::numerics::{
    are_differences, are_products, differences, is_difference, is_product, is_quotient,
    is_running_sum, is_shifted_quotient, is_total, products, running_sum, shifted_quotient,
    Numerics,
};
use rand::rngs::SmallRng;
use vstd::prelude::*;

verus! {

/// What a leaf predicts with.
#[derive(Clone, Copy, Debug, PartialEq, Eq, Structural)]
pub enum LeafKind {
    /// One value per output.
    Gaussian,
    /// A line per output in one feature.
    Linear,
}

impl LeafKind {
    /// The byte that stands for the kind in a tree's arrays.
    pub open spec fn code(self) -> u8 {
        match self {
            LeafKind::Gaussian => 0,
            LeafKind::Linear => 1,
        }
    }

    /// The kind a byte stands for: a line for one, a value for every other byte.
    pub open spec fn of_code(value: u8) -> LeafKind {
        if value == 1 {
            LeafKind::Linear
        } else {
            LeafKind::Gaussian
        }
    }

    pub fn as_u8(self) -> (r: u8)
        ensures
            r == self.code(),
    {
        match self {
            LeafKind::Gaussian => 0,
            LeafKind::Linear => 1,
        }
    }

    pub fn from_u8(value: u8) -> (r: LeafKind)
        ensures
            r == LeafKind::of_code(value),
    {
        match value {
            1 => LeafKind::Linear,
            _ => LeafKind::Gaussian,
        }
    }

    /// Reading back the byte of a kind gives the kind.
    pub proof fn law_code_round_trip(self)
        ensures
            LeafKind::of_code(self.code()) == self,
    {
    }
}

/// The contents of a new leaf.
#[derive(Clone, Debug)]
pub enum LeafPayload {
    Gaussian { value: Vec<Binary64> },
    Linear { intercept: Vec<Binary64>, slope: Vec<Binary64>, var: u32 },
}

/// A split of one node and the contents of the two leaves it makes.
#[derive(Clone, Debug)]
pub struct LeafProposal {
    pub node_idx: usize,
    pub split_var: u32,
    pub split_val: Binary64,
    pub left: LeafPayload,
    pub right: LeafPayload,
}

/// Sample `s` lies on the left of a split: its value does not exceed the threshold.
pub open spec fn goes_left(x: Matrix, var: u32, val: Binary64, s: u32) -> bool {
    x.at(s as int, var as int).le_spec(val)
}

/// The samples on the left of a split, in their order.
pub open spec fn left_samples(x: Matrix, var: u32, val: Binary64, samples: Seq<u32>) -> Seq<u32> {
    samples.filter(|s: u32| goes_left(x, var, val, s))
}

/// The samples that are not on the left of a split, in their order.
pub open spec fn right_samples(x: Matrix, var: u32, val: Binary64, samples: Seq<u32>) -> Seq<u32> {
    samples.filter(|s: u32| !goes_left(x, var, val, s))
}

/// Row `o` of `m` at the given samples.
pub open spec fn row_at(m: Matrix, o: int, samples: Seq<u32>) -> Seq<Binary64> {
    samples.map_values(|s: u32| m.at(o, s as int))
}

/// Column `j` of `m` at the given samples.
pub open spec fn column_at(m: Matrix, j: int, samples: Seq<u32>) -> Seq<Binary64> {
    samples.map_values(|s: u32| m.at(s as int, j))
}

/// Parts samples by a split.
fn part_samples(x: &Matrix, split_var: u32, split_val: Binary64, samples: &Vec<u32>) -> (r: (
    Vec<u32>,
    Vec<u32>,
))
    requires
        split_var < x.width(),
        forall|k: int| 0 <= k < samples@.len() ==> #[trigger] samples@[k] < x.height(),
    ensures
        r.0@ == left_samples(*x, split_var, split_val, samples@),
        r.1@ == right_samples(*x, split_var, split_val, samples@),
{
    let mut left: Vec<u32> = Vec::new();
    let mut right: Vec<u32> = Vec::new();
    proof {
        reveal(Seq::filter);
    }
    for k in 0..samples.len()
        invariant
            split_var < x.width(),
            forall|k: int| 0 <= k < samples@.len() ==> #[trigger] samples@[k] < x.height(),
            left@ == left_samples(*x, split_var, split_val, samples@.take(k as int)),
            right@ == right_samples(*x, split_var, split_val, samples@.take(k as int)),
    {
        let s: u32 = samples[k];
        if x.get(s as usize, split_var as usize).le(split_val) {
            left.push(s);
        } else {
            right.push(s);
        }
        proof {
            reveal(Seq::filter);
            let next = samples@.take(k + 1);
            assert(next.drop_last() =~= samples@.take(k as int));
            assert(next.last() == s);
        }
    }
    assert(samples@.take(samples@.len() as int) =~= samples@);
    (left, right)
}

/// The samples of either side are samples.
proof fn lemma_parted_within(x: Matrix, var: u32, val: Binary64, samples: Seq<u32>, bound: nat)
    requires
        forall|k: int| 0 <= k < samples.len() ==> #[trigger] samples[k] < bound,
    ensures
        forall|k: int|
            0 <= k < left_samples(x, var, val, samples).len() ==> #[trigger] left_samples(
                x,
                var,
                val,
                samples,
            )[k] < bound,
        forall|k: int|
            0 <= k < right_samples(x, var, val, samples).len() ==> #[trigger] right_samples(
                x,
                var,
                val,
                samples,
            )[k] < bound,
    decreases samples.len(),
{
    reveal(Seq::filter);
    if samples.len() > 0 {
        let rest = samples.drop_last();
        lemma_parted_within(x, var, val, rest, bound);
        let left = left_samples(x, var, val, samples);
        let right = right_samples(x, var, val, samples);
        assert forall|k: int| 0 <= k < left.len() implies #[trigger] left[k] < bound by {
            if k < left_samples(x, var, val, rest).len() {
                assert(left[k] == left_samples(x, var, val, rest)[k]);
            }
        }
        assert forall|k: int| 0 <= k < right.len() implies #[trigger] right[k] < bound by {
            if k < right_samples(x, var, val, rest).len() {
                assert(right[k] == right_samples(x, var, val, rest)[k]);
            }
        }
    }
}

/// Reads row `o` at the given samples.
fn read_row(m: &Matrix, o: usize, samples: &Vec<u32>) -> (r: Vec<Binary64>)
    requires
        o < m.height(),
        forall|k: int| 0 <= k < samples@.len() ==> #[trigger] samples@[k] < m.width(),
    ensures
        r@ == row_at(*m, o as int, samples@),
{
    let mut r: Vec<Binary64> = Vec::new();
    for k in 0..samples.len()
        invariant
            o < m.height(),
            forall|k: int| 0 <= k < samples@.len() ==> #[trigger] samples@[k] < m.width(),
            r@ == row_at(*m, o as int, samples@.take(k as int)),
    {
        r.push(m.get(o, samples[k] as usize));
        assert(r@ =~= row_at(*m, o as int, samples@.take(k + 1)));
    }
    assert(samples@.take(samples@.len() as int) =~= samples@);
    r
}

/// Reads column `j` at the given samples.
pub(crate) fn read_column(m: &Matrix, j: usize, samples: &Vec<u32>) -> (r: Vec<Binary64>)
    requires
        j < m.width(),
        forall|k: int| 0 <= k < samples@.len() ==> #[trigger] samples@[k] < m.height(),
    ensures
        r@ == column_at(*m, j as int, samples@),
{
    let mut r: Vec<Binary64> = Vec::new();
    for k in 0..samples.len()
        invariant
            j < m.width(),
            forall|k: int| 0 <= k < samples@.len() ==> #[trigger] samples@[k] < m.height(),
            r@ == column_at(*m, j as int, samples@.take(k as int)),
    {
        r.push(m.get(samples[k] as usize, j));
        assert(r@ =~= column_at(*m, j as int, samples@.take(k + 1)));
    }
    assert(samples@.take(samples@.len() as int) =~= samples@);
    r
}

/// What a strategy reads of a node that is to be split: `sum_trees` at the samples of the
/// node, its feature, and one standard deviation per output.
pub open spec fn node_readable(
    node_samples: Seq<u32>,
    x: Matrix,
    sum_trees: Matrix,
    leaf_sd: Seq<Binary64>,
    n_outputs: nat,
    split_var: u32,
) -> bool {
    &&& split_var < x.width()
    &&& n_outputs <= sum_trees.height()
    &&& n_outputs <= leaf_sd.len()
    &&& forall|k: int|
        0 <= k < node_samples.len() ==> {
            &&& #[trigger] node_samples[k] < x.height()
            &&& node_samples[k] < sum_trees.width()
        }
}

/// The noise of `n` outputs comes of standard normal draws that take a generator through
/// `states`: for each output one for the left leaf, then one for the right.
pub open spec fn is_noise_chain<N: Numerics>(
    num: &N,
    n: nat,
    states: Seq<SmallRng>,
    left_draws: Seq<Binary64>,
    right_draws: Seq<Binary64>,
) -> bool {
    &&& states.len() == 2 * n + 1
    &&& left_draws.len() == n
    &&& right_draws.len() == n
    &&& forall|o: int|
        #![trigger left_draws[o]]
        #![trigger right_draws[o]]
        0 <= o < n ==> {
            &&& is_normal_draw(num, states[2 * o], left_draws[o], states[2 * o + 1])
            &&& is_normal_draw(num, states[2 * o + 1], right_draws[o], states[2 * o + 2])
        }
}

/// The noise of `n` outputs comes of draws that take a generator from `from` to `to`.
pub open spec fn are_noise_draws<N: Numerics>(
    num: &N,
    n: nat,
    from: SmallRng,
    left_draws: Seq<Binary64>,
    right_draws: Seq<Binary64>,
    to: SmallRng,
) -> bool {
    exists|states: Seq<SmallRng>|
        {
            &&& #[trigger] is_noise_chain(num, n, states, left_draws, right_draws)
            &&& states[0] == from
            &&& states.last() == to
        }
}

/// A way of computing what the leaves of a split predict.
pub trait ResponseStrategy<N: Numerics> {
    /// The strategy can propose.
    spec fn is_implemented(&self) -> bool;

    /// `r` is what the strategy proposes where these are the standard normal draws for the
    /// left and the right leaf, one per output.
    spec fn is_proposal(
        &self,
        num: &N,
        node_samples: Seq<u32>,
        x: Matrix,
        sum_trees: Matrix,
        leaf_sd: Seq<Binary64>,
        n_trees: nat,
        n_outputs: nat,
        split_val: Binary64,
        split_var: u32,
        node_idx: usize,
        left_draws: Seq<Binary64>,
        right_draws: Seq<Binary64>,
        r: LeafProposal,
    ) -> bool;

    /// Whether the strategy can propose.
    fn can_propose(&self) -> (r: bool)
        ensures
            r == self.is_implemented(),
    ;

    /// Proposes for given draws.
    fn leaf_proposal(
        &self,
        num: &N,
        node_samples: &Vec<u32>,
        x: &Matrix,
        sum_trees: &Matrix,
        leaf_sd: &Vec<Binary64>,
        n_trees: usize,
        n_outputs: usize,
        split_val: Binary64,
        split_var: u32,
        node_idx: usize,
        left_draws: &Vec<Binary64>,
        right_draws: &Vec<Binary64>,
    ) -> (r: LeafProposal)
        requires
            self.is_implemented(),
            node_readable(
                node_samples@,
                *x,
                *sum_trees,
                leaf_sd@,
                n_outputs as nat,
                split_var,
            ),
            left_draws@.len() == n_outputs,
            right_draws@.len() == n_outputs,
        ensures
            self.is_proposal(
                num,
                node_samples@,
                *x,
                *sum_trees,
                leaf_sd@,
                n_trees as nat,
                n_outputs as nat,
                split_val,
                split_var,
                node_idx,
                left_draws@,
                right_draws@,
                r,
            ),
            r.node_idx == node_idx,
            r.split_var == split_var,
            r.split_val == split_val,
            payload_variable(r.left, split_var),
            payload_variable(r.right, split_var),
    ;

    /// Proposes for fresh draws: per output one for the left leaf and then one
    /// for the right, each from the state in which the draw before it left the
    /// generator.
    fn sample_leaf_proposal(
        &self,
        num: &N,
        rng: &mut SmallRng,
        node_samples: &Vec<u32>,
        x: &Matrix,
        sum_trees: &Matrix,
        leaf_sd: &Vec<Binary64>,
        n_trees: usize,
        n_outputs: usize,
        split_val: Binary64,
        split_var: u32,
        node_idx: usize,
    ) -> (r: LeafProposal)
        requires
            self.is_implemented(),
            node_readable(
                node_samples@,
                *x,
                *sum_trees,
                leaf_sd@,
                n_outputs as nat,
                split_var,
            ),
        ensures
            exists|left_draws: Seq<Binary64>, right_draws: Seq<Binary64>|
                {
                    &&& are_noise_draws(
                        num,
                        n_outputs as nat,
                        *old(rng),
                        left_draws,
                        right_draws,
                        *final(rng),
                    )
                    &&& #[trigger] self.is_proposal(
                        num,
                        node_samples@,
                        *x,
                        *sum_trees,
                        leaf_sd@,
                        n_trees as nat,
                        n_outputs as nat,
                        split_val,
                        split_var,
                        node_idx,
                        left_draws,
                        right_draws,
                        r,
                    )
                },
            r.node_idx == node_idx,
            r.split_var == split_var,
            r.split_val == split_val,
            payload_variable(r.left, split_var),
            payload_variable(r.right, split_var),
    {
        let mut left_draws: Vec<Binary64> = Vec::new();
        let mut right_draws: Vec<Binary64> = Vec::new();
        let ghost mut states: Seq<SmallRng> = seq![*rng];
        for o in 0..n_outputs
            invariant
                is_noise_chain(num, o as nat, states, left_draws@, right_draws@),
                states[0] == *old(rng),
                states.last() == *rng,
        {
            let ghost before = states;
            let ghost lefts = left_draws@;
            let ghost rights = right_draws@;
            let left = draw_normal(num, rng).value;
            let ghost between = *rng;
            assert(is_normal_draw(num, before.last(), left, between));
            let right = draw_normal(num, rng).value;
            assert(is_normal_draw(num, between, right, *rng));
            left_draws.push(left);
            right_draws.push(right);
            proof {
                states = states.push(between).push(*rng);
                assert forall|k: int|
                    #![trigger left_draws@[k]]
                    #![trigger right_draws@[k]]
                    0 <= k < o + 1 implies {
                    &&& is_normal_draw(num, states[2 * k], left_draws@[k], states[2 * k + 1])
                    &&& is_normal_draw(num, states[2 * k + 1], right_draws@[k], states[2 * k + 2])
                } by {
                    if k < o {
                        assert(lefts[k] == left_draws@[k]);
                        assert(rights[k] == right_draws@[k]);
                    }
                }
            }
        }
        self.leaf_proposal(
            num,
            node_samples,
            x,
            sum_trees,
            leaf_sd,
            n_trees,
            n_outputs,
            split_val,
            split_var,
            node_idx,
            &left_draws,
            &right_draws,
        )
    }
}

/// A line in the contents of a leaf is in feature `var`.
pub open spec fn payload_variable(payload: LeafPayload, var: u32) -> bool {
    payload matches LeafPayload::Linear { var: v, .. } ==> v == var
}

/// The mean of what the forest predicts for the samples in each leaf, divided among the
/// trees, plus noise.
#[derive(Clone, Copy, Debug)]
pub struct GaussianResponseStrategy;

/// A straight line through what the forest predicts for the samples in each leaf, divided
/// among the trees, plus noise.
#[derive(Clone, Copy, Debug)]
pub struct LinearStrategy;

/// Reserved for a strategy that has not been written.
#[derive(Clone, Copy, Debug)]
pub struct MotrStrategy;

/// `r` is the mean of `values`, added up one by one, divided by `n_trees`, plus `noise`;
/// the noise alone where there are no values.
pub open spec fn is_noisy_mean<N: Numerics>(
    num: &N,
    values: Seq<Binary64>,
    n_trees: nat,
    noise: Binary64,
    r: Binary64,
) -> bool {
    if values.len() == 0 {
        r == noise
    } else {
        exists|sum: Binary64, mean: Binary64|
            {
                &&& is_running_sum(num, values, sum)
                &&& #[trigger] is_quotient(num, sum, count_number(values.len()), mean)
                &&& is_shifted_quotient(num, mean, count_number(n_trees), noise, r)
            }
    }
}

fn noisy_mean<N: Numerics>(num: &N, values: &Vec<Binary64>, n_trees: usize, noise: Binary64) -> (r:
    Binary64)
    ensures
        is_noisy_mean(num, values@, n_trees as nat, noise, r),
{
    if values.len() == 0 {
        return noise;
    }
    let sum = running_sum(num, values);
    let mean = num.over(sum, Binary64::from_count(values.len()));
    assert(is_quotient(num, sum, count_number(values@.len()), mean));
    shifted_quotient(num, mean, Binary64::from_count(n_trees), noise)
}

/// `values` holds, for each output, the noisy mean of `sum_trees` at `samples`.
pub open spec fn are_leaf_means<N: Numerics>(
    num: &N,
    sum_trees: Matrix,
    samples: Seq<u32>,
    leaf_sd: Seq<Binary64>,
    n_trees: nat,
    n_outputs: nat,
    draws: Seq<Binary64>,
    values: Seq<Binary64>,
) -> bool {
    &&& values.len() == n_outputs
    &&& forall|o: int|
        0 <= o < n_outputs ==> is_leaf_mean(
            num,
            row_at(sum_trees, o, samples),
            leaf_sd[o],
            n_trees,
            draws[o],
            #[trigger] values[o],
        )
}

/// `r` is the noisy mean of `values` with a draw scaled by `sd` as its noise.
pub open spec fn is_leaf_mean<N: Numerics>(
    num: &N,
    values: Seq<Binary64>,
    sd: Binary64,
    n_trees: nat,
    draw: Binary64,
    r: Binary64,
) -> bool {
    exists|noise: Binary64|
        {
            &&& #[trigger] is_product(num, draw, sd, noise)
            &&& is_noisy_mean(num, values, n_trees, noise, r)
        }
}

fn leaf_means<N: Numerics>(
    num: &N,
    sum_trees: &Matrix,
    samples: &Vec<u32>,
    leaf_sd: &Vec<Binary64>,
    n_trees: usize,
    n_outputs: usize,
    draws: &Vec<Binary64>,
) -> (r: Vec<Binary64>)
    requires
        n_outputs <= sum_trees.height(),
        n_outputs <= leaf_sd@.len(),
        n_outputs <= draws@.len(),
        forall|k: int| 0 <= k < samples@.len() ==> #[trigger] samples@[k] < sum_trees.width(),
    ensures
        are_leaf_means(
            num,
            *sum_trees,
            samples@,
            leaf_sd@,
            n_trees as nat,
            n_outputs as nat,
            draws@,
            r@,
        ),
{
    let mut r: Vec<Binary64> = Vec::new();
    for o in 0..n_outputs
        invariant
            n_outputs <= sum_trees.height(),
            n_outputs <= leaf_sd@.len(),
            n_outputs <= draws@.len(),
            forall|k: int| 0 <= k < samples@.len() ==> #[trigger] samples@[k] < sum_trees.width(),
            r@.len() == o,
            forall|i: int|
                0 <= i < o ==> is_leaf_mean(
                    num,
                    row_at(*sum_trees, i, samples@),
                    leaf_sd@[i],
                    n_trees as nat,
                    draws@[i],
                    #[trigger] r@[i],
                ),
    {
        let noise = num.times(draws[o], leaf_sd[o]);
        assert(is_product(num, draws@[o as int], leaf_sd@[o as int], noise));
        let values = read_row(sum_trees, o, samples);
        let value = noisy_mean(num, &values, n_trees, noise);
        assert(is_leaf_mean(
            num,
            row_at(*sum_trees, o as int, samples@),
            leaf_sd@[o as int],
            n_trees as nat,
            draws@[o as int],
            value,
        ));
        r.push(value);
    }
    r
}

impl<N: Numerics> ResponseStrategy<N> for GaussianResponseStrategy {
    open spec fn is_implemented(&self) -> bool {
        true
    }

    open spec fn is_proposal(
        &self,
        num: &N,
        node_samples: Seq<u32>,
        x: Matrix,
        sum_trees: Matrix,
        leaf_sd: Seq<Binary64>,
        n_trees: nat,
        n_outputs: nat,
        split_val: Binary64,
        split_var: u32,
        node_idx: usize,
        left_draws: Seq<Binary64>,
        right_draws: Seq<Binary64>,
        r: LeafProposal,
    ) -> bool {
        let left = left_samples(x, split_var, split_val, node_samples);
        let right = right_samples(x, split_var, split_val, node_samples);
        &&& r.node_idx == node_idx
        &&& r.split_var == split_var
        &&& r.split_val == split_val
        &&& r.left matches LeafPayload::Gaussian { value } && are_leaf_means(
            num,
            sum_trees,
            left,
            leaf_sd,
            n_trees,
            n_outputs,
            left_draws,
            value@,
        )
        &&& r.right matches LeafPayload::Gaussian { value } && are_leaf_means(
            num,
            sum_trees,
            right,
            leaf_sd,
            n_trees,
            n_outputs,
            right_draws,
            value@,
        )
    }

    fn can_propose(&self) -> (r: bool) {
        true
    }

    fn leaf_proposal(
        &self,
        num: &N,
        node_samples: &Vec<u32>,
        x: &Matrix,
        sum_trees: &Matrix,
        leaf_sd: &Vec<Binary64>,
        n_trees: usize,
        n_outputs: usize,
        split_val: Binary64,
        split_var: u32,
        node_idx: usize,
        left_draws: &Vec<Binary64>,
        right_draws: &Vec<Binary64>,
    ) -> (r: LeafProposal) {
        let (left, right) = part_samples(x, split_var, split_val, node_samples);
        proof {
            lemma_parted_within(*x, split_var, split_val, node_samples@, sum_trees.width());
        }
        let left_value = leaf_means(
            num,
            sum_trees,
            &left,
            leaf_sd,
            n_trees,
            n_outputs,
            left_draws,
        );
        let right_value = leaf_means(
            num,
            sum_trees,
            &right,
            leaf_sd,
            n_trees,
            n_outputs,
            right_draws,
        );
        LeafProposal {
            node_idx,
            split_var,
            split_val,
            left: LeafPayload::Gaussian { value: left_value },
            right: LeafPayload::Gaussian { value: right_value },
        }
    }
}

/// Each element of `r` is that of `y` divided by `n_trees`, plus `noise`.
pub open spec fn are_scaled<N: Numerics>(
    num: &N,
    y: Seq<Binary64>,
    n_trees: nat,
    noise: Binary64,
    r: Seq<Binary64>,
) -> bool {
    &&& r.len() == y.len()
    &&& forall|i: int|
        0 <= i < y.len() ==> is_shifted_quotient(
            num,
            y[i],
            count_number(n_trees),
            noise,
            #[trigger] r[i],
        )
}

fn scaled<N: Numerics>(num: &N, y: &Vec<Binary64>, n_trees: usize, noise: Binary64) -> (r: Vec<
    Binary64,
>)
    ensures
        are_scaled(num, y@, n_trees as nat, noise, r@),
{
    let divisor = Binary64::from_count(n_trees);
    let mut r: Vec<Binary64> = Vec::new();
    for i in 0..y.len()
        invariant
            divisor == count_number(n_trees as nat),
            r@.len() == i,
            forall|j: int|
                0 <= j < i ==> is_shifted_quotient(
                    num,
                    y@[j],
                    count_number(n_trees as nat),
                    noise,
                    #[trigger] r@[j],
                ),
    {
        r.push(shifted_quotient(num, y[i], divisor, noise));
    }
    r
}

/// `top` is the sum of the products of the deviations of `x` and `y` from their means, and
/// `bottom` that of the squares of the deviations of `x`.
pub open spec fn are_moments<N: Numerics>(
    num: &N,
    x: Seq<Binary64>,
    y: Seq<Binary64>,
    x_mean: Binary64,
    y_mean: Binary64,
    top: Binary64,
    bottom: Binary64,
) -> bool {
    exists|dx: Seq<Binary64>, dy: Seq<Binary64>, p: Seq<Binary64>, q: Seq<Binary64>|
        {
            &&& #[trigger] are_differences(num, x, x_mean, dx)
            &&& #[trigger] are_differences(num, y, y_mean, dy)
            &&& #[trigger] are_products(num, dx, dy, p)
            &&& #[trigger] are_products(num, dx, dx, q)
            &&& is_running_sum(num, p, top)
            &&& is_running_sum(num, q, bottom)
        }
}

/// `mean` is the total of `values` divided by their number.
pub open spec fn is_average<N: Numerics>(num: &N, values: Seq<Binary64>, mean: Binary64) -> bool {
    exists|total: Binary64|
        is_total(num, values, total) && #[trigger] is_quotient(
            num,
            total,
            count_number(values.len()),
            mean,
        )
}

fn average<N: Numerics>(num: &N, values: &Vec<Binary64>) -> (r: Binary64)
    ensures
        is_average(num, values@, r),
{
    let total = num.total(values);
    assert(is_total(num, values@, total));
    let r = num.over(total, Binary64::from_count(values.len()));
    assert(is_quotient(num, total, count_number(values@.len()), r));
    r
}

/// `(a, b)` is the line through three or more points `(x, y)` by least squares, the `y`
/// scaled by the number of trees: slope `top / bottom` through the means, or a level line
/// where all `x` are the same.
pub open spec fn is_least_squares_line<N: Numerics>(
    num: &N,
    x: Seq<Binary64>,
    y: Seq<Binary64>,
    noise: Binary64,
    n_trees: nat,
    a: Binary64,
    b: Binary64,
) -> bool {
    exists|
        scaled: Seq<Binary64>,
        x_mean: Binary64,
        y_mean: Binary64,
        top: Binary64,
        bottom: Binary64,
    |
        {
            &&& are_scaled(num, y, n_trees, noise, scaled)
            &&& is_average(num, x, x_mean)
            &&& is_average(num, scaled, y_mean)
            &&& #[trigger] are_moments(num, x, scaled, x_mean, y_mean, top, bottom)
            &&& if bottom.same_number_spec(Binary64 { bits: ZERO_BITS }) {
                &&& is_shifted_quotient(num, y_mean, count_number(n_trees), noise, a)
                &&& b == (Binary64 { bits: ZERO_BITS })
            } else {
                &&& is_quotient(num, top, bottom, b)
                &&& is_intercept(num, x_mean, y_mean, b, a)
            }
        }
}

/// `a` is `y - b * x`: the product first.
pub open spec fn is_intercept<N: Numerics>(
    num: &N,
    x: Binary64,
    y: Binary64,
    b: Binary64,
    a: Binary64,
) -> bool {
    exists|p: Binary64| is_product(num, b, x, p) && #[trigger] is_difference(num, y, p, a)
}

/// `a` is the average of `y` divided by `n_trees`, plus `noise`.
pub open spec fn is_level_line<N: Numerics>(
    num: &N,
    y: Seq<Binary64>,
    noise: Binary64,
    n_trees: nat,
    a: Binary64,
) -> bool {
    exists|mean: Binary64|
        is_average(num, y, mean) && #[trigger] is_shifted_quotient(
            num,
            mean,
            count_number(n_trees),
            noise,
            a,
        )
}

/// `(a, b)` is the line fitted to one or more points: level through fewer than three.
pub open spec fn is_fit<N: Numerics>(
    num: &N,
    x: Seq<Binary64>,
    y: Seq<Binary64>,
    noise: Binary64,
    n_trees: nat,
    a: Binary64,
    b: Binary64,
) -> bool {
    if y.len() < 3 {
        &&& is_level_line(num, y, noise, n_trees, a)
        &&& b == (Binary64 { bits: ZERO_BITS })
    } else {
        is_least_squares_line(num, x, y, noise, n_trees, a, b)
    }
}

impl LinearStrategy {
    /// Fits a line to the points `(x, y)`, the `y` divided among the trees and shifted by
    /// the noise. There is no line without points, nor where the lengths differ.
    pub fn fit_linear_1d<N: Numerics>(
        num: &N,
        x: &Vec<Binary64>,
        y: &Vec<Binary64>,
        noise: Binary64,
        n_trees: usize,
    ) -> (r: Option<(Binary64, Binary64)>)
        ensures
            r is Some <==> x@.len() == y@.len() && x@.len() > 0,
            r matches Some((a, b)) ==> is_fit(num, x@, y@, noise, n_trees as nat, a, b),
    {
        if x.len() != y.len() || x.len() == 0 {
            return None;
        }
        let zero = Binary64 { bits: ZERO_BITS };
        if y.len() < 3 {
            let mean = average(num, y);
            let a = shifted_quotient(num, mean, Binary64::from_count(n_trees), noise);
            return Some((a, zero));
        }
        let scaled = scaled(num, y, n_trees, noise);
        let x_mean = average(num, x);
        let y_mean = average(num, &scaled);
        let dx = differences(num, x, x_mean);
        let dy = differences(num, &scaled, y_mean);
        let p = products(num, &dx, &dy);
        let q = products(num, &dx, &dx);
        let top = running_sum(num, &p);
        let bottom = running_sum(num, &q);
        assert(are_moments(num, x@, scaled@, x_mean, y_mean, top, bottom));
        if bottom.same_number(zero) {
            let a = shifted_quotient(num, y_mean, Binary64::from_count(n_trees), noise);
            Some((a, zero))
        } else {
            let b = num.over(top, bottom);
            assert(is_quotient(num, top, bottom, b));
            let rise = num.times(b, x_mean);
            assert(is_product(num, b, x_mean, rise));
            let a = num.minus(y_mean, rise);
            assert(is_difference(num, y_mean, rise, a));
            Some((a, b))
        }
    }
}

/// `(a, b)` is the line of a leaf with the points `(x, y)`, where a draw scaled by `sd` is
/// the noise. A leaf without points gets the zero line.
pub open spec fn is_leaf_line<N: Numerics>(
    num: &N,
    x: Seq<Binary64>,
    y: Seq<Binary64>,
    sd: Binary64,
    n_trees: nat,
    draw: Binary64,
    a: Binary64,
    b: Binary64,
) -> bool {
    if y.len() == 0 {
        &&& a == (Binary64 { bits: ZERO_BITS })
        &&& b == (Binary64 { bits: ZERO_BITS })
    } else {
        exists|noise: Binary64|
            {
                &&& #[trigger] is_product(num, draw, sd, noise)
                &&& is_fit(num, x, y, noise, n_trees, a, b)
            }
    }
}

/// `intercept` and `slope` hold the line of a leaf for each output.
pub open spec fn are_leaf_lines<N: Numerics>(
    num: &N,
    x: Matrix,
    split_var: u32,
    sum_trees: Matrix,
    samples: Seq<u32>,
    leaf_sd: Seq<Binary64>,
    n_trees: nat,
    n_outputs: nat,
    draws: Seq<Binary64>,
    intercept: Seq<Binary64>,
    slope: Seq<Binary64>,
) -> bool {
    &&& intercept.len() == n_outputs
    &&& slope.len() == n_outputs
    &&& forall|o: int|
        #![trigger intercept[o]]
        #![trigger slope[o]]
        0 <= o < n_outputs ==> is_leaf_line(
            num,
            column_at(x, split_var as int, samples),
            row_at(sum_trees, o, samples),
            leaf_sd[o],
            n_trees,
            draws[o],
            intercept[o],
            slope[o],
        )
}

fn leaf_lines<N: Numerics>(
    num: &N,
    x: &Matrix,
    split_var: u32,
    sum_trees: &Matrix,
    samples: &Vec<u32>,
    leaf_sd: &Vec<Binary64>,
    n_trees: usize,
    n_outputs: usize,
    draws: &Vec<Binary64>,
) -> (r: (Vec<Binary64>, Vec<Binary64>))
    requires
        split_var < x.width(),
        n_outputs <= sum_trees.height(),
        n_outputs <= leaf_sd@.len(),
        n_outputs <= draws@.len(),
        forall|k: int|
            0 <= k < samples@.len() ==> {
                &&& #[trigger] samples@[k] < x.height()
                &&& samples@[k] < sum_trees.width()
            },
    ensures
        are_leaf_lines(
            num,
            *x,
            split_var,
            *sum_trees,
            samples@,
            leaf_sd@,
            n_trees as nat,
            n_outputs as nat,
            draws@,
            r.0@,
            r.1@,
        ),
{
    let mut intercept: Vec<Binary64> = Vec::new();
    let mut slope: Vec<Binary64> = Vec::new();
    let feature = read_column(x, split_var as usize, samples);
    for o in 0..n_outputs
        invariant
            feature@ == column_at(*x, split_var as int, samples@),
            n_outputs <= sum_trees.height(),
            n_outputs <= leaf_sd@.len(),
            n_outputs <= draws@.len(),
            forall|k: int|
                0 <= k < samples@.len() ==> {
                    &&& #[trigger] samples@[k] < x.height()
                    &&& samples@[k] < sum_trees.width()
                },
            intercept@.len() == o,
            slope@.len() == o,
            forall|i: int|
                #![trigger intercept@[i]]
                #![trigger slope@[i]]
                0 <= i < o ==> is_leaf_line(
                    num,
                    column_at(*x, split_var as int, samples@),
                    row_at(*sum_trees, i, samples@),
                    leaf_sd@[i],
                    n_trees as nat,
                    draws@[i],
                    intercept@[i],
                    slope@[i],
                ),
    {
        let noise = num.times(draws[o], leaf_sd[o]);
        assert(is_product(num, draws@[o as int], leaf_sd@[o as int], noise));
        let response = read_row(sum_trees, o, samples);
        let zero = Binary64 { bits: ZERO_BITS };
        let (a, b) = match LinearStrategy::fit_linear_1d(num, &feature, &response, noise, n_trees) {
            Some(line) => line,
            None => (zero, zero),
        };
        assert(is_leaf_line(
            num,
            column_at(*x, split_var as int, samples@),
            row_at(*sum_trees, o as int, samples@),
            leaf_sd@[o as int],
            n_trees as nat,
            draws@[o as int],
            a,
            b,
        ));
        intercept.push(a);
        slope.push(b);
    }
    (intercept, slope)
}

impl<N: Numerics> ResponseStrategy<N> for MotrStrategy {
    open spec fn is_implemented(&self) -> bool {
        false
    }

    open spec fn is_proposal(
        &self,
        num: &N,
        node_samples: Seq<u32>,
        x: Matrix,
        sum_trees: Matrix,
        leaf_sd: Seq<Binary64>,
        n_trees: nat,
        n_outputs: nat,
        split_val: Binary64,
        split_var: u32,
        node_idx: usize,
        left_draws: Seq<Binary64>,
        right_draws: Seq<Binary64>,
        r: LeafProposal,
    ) -> bool {
        false
    }

    fn can_propose(&self) -> (r: bool) {
        false
    }

    /// Not to be reached: nobody can ask for a proposal.
    fn leaf_proposal(
        &self,
        num: &N,
        node_samples: &Vec<u32>,
        x: &Matrix,
        sum_trees: &Matrix,
        leaf_sd: &Vec<Binary64>,
        n_trees: usize,
        n_outputs: usize,
        split_val: Binary64,
        split_var: u32,
        node_idx: usize,
        left_draws: &Vec<Binary64>,
        right_draws: &Vec<Binary64>,
    ) -> (r: LeafProposal) {
        vstd::pervasive::unreached()
    }
}

impl<N: Numerics> ResponseStrategy<N> for LinearStrategy {
    open spec fn is_implemented(&self) -> bool {
        true
    }

    open spec fn is_proposal(
        &self,
        num: &N,
        node_samples: Seq<u32>,
        x: Matrix,
        sum_trees: Matrix,
        leaf_sd: Seq<Binary64>,
        n_trees: nat,
        n_outputs: nat,
        split_val: Binary64,
        split_var: u32,
        node_idx: usize,
        left_draws: Seq<Binary64>,
        right_draws: Seq<Binary64>,
        r: LeafProposal,
    ) -> bool {
        let left = left_samples(x, split_var, split_val, node_samples);
        let right = right_samples(x, split_var, split_val, node_samples);
        &&& r.node_idx == node_idx
        &&& r.split_var == split_var
        &&& r.split_val == split_val
        &&& r.left matches LeafPayload::Linear { intercept, slope, var } && var == split_var
            && are_leaf_lines(
            num,
            x,
            split_var,
            sum_trees,
            left,
            leaf_sd,
            n_trees,
            n_outputs,
            left_draws,
            intercept@,
            slope@,
        )
        &&& r.right matches LeafPayload::Linear { intercept, slope, var } && var == split_var
            && are_leaf_lines(
            num,
            x,
            split_var,
            sum_trees,
            right,
            leaf_sd,
            n_trees,
            n_outputs,
            right_draws,
            intercept@,
            slope@,
        )
    }

    fn can_propose(&self) -> (r: bool) {
        true
    }

    fn leaf_proposal(
        &self,
        num: &N,
        node_samples: &Vec<u32>,
        x: &Matrix,
        sum_trees: &Matrix,
        leaf_sd: &Vec<Binary64>,
        n_trees: usize,
        n_outputs: usize,
        split_val: Binary64,
        split_var: u32,
        node_idx: usize,
        left_draws: &Vec<Binary64>,
        right_draws: &Vec<Binary64>,
    ) -> (r: LeafProposal) {
        let (left, right) = part_samples(x, split_var, split_val, node_samples);
        proof {
            lemma_parted_within(*x, split_var, split_val, node_samples@, sum_trees.width());
            lemma_parted_within(*x, split_var, split_val, node_samples@, x.height());
        }
        let (left_intercept, left_slope) = leaf_lines(
            num,
            x,
            split_var,
            sum_trees,
            &left,
            leaf_sd,
            n_trees,
            n_outputs,
            left_draws,
        );
        let (right_intercept, right_slope) = leaf_lines(
            num,
            x,
            split_var,
            sum_trees,
            &right,
            leaf_sd,
            n_trees,
            n_outputs,
            right_draws,
        );
        LeafProposal {
            node_idx,
            split_var,
            split_val,
            left: LeafPayload::Linear {
                intercept: left_intercept,
                slope: left_slope,
                var: split_var,
            },
            right: LeafPayload::Linear {
                intercept: right_intercept,
                slope: right_slope,
                var: split_var,
            },
        }
    }
}

/// The strategy in use.
#[derive(Clone, Debug)]
pub enum ResponseStrategies {
    Motr(MotrStrategy),
    Gaussian(GaussianResponseStrategy),
    Linear(LinearStrategy),
}

/// What `str::to_lowercase` makes of a text.
pub uninterp spec fn lowercase(text: Seq<char>) -> Seq<char>;

/// `str::to_lowercase`: the text in lower case by the rules of Unicode. The contract only
/// names the result, as a function of the text.
#[verifier::external_body]
fn to_lowercase(text: &str) -> (r: String)
    ensures
        r@ == lowercase(text@),
{
    text.to_lowercase()
}

/// The strategy that goes by a name in lower case.
pub open spec fn strategy_named(name: Seq<char>) -> Option<ResponseStrategies> {
    if name == "gaussian"@ {
        Some(ResponseStrategies::Gaussian(GaussianResponseStrategy))
    } else if name == "linear"@ {
        Some(ResponseStrategies::Linear(LinearStrategy))
    } else if name == "motr"@ {
        Some(ResponseStrategies::Motr(MotrStrategy))
    } else {
        None
    }
}

/// What is said of a name that no strategy goes by.
pub open spec fn unknown_strategy(name: Seq<char>) -> Seq<char> {
    "Unknown response strategy: '"@ + name
        + "'. Supported: 'gaussian', 'motr', 'linear'."@
}

impl ResponseStrategies {
    /// The strategy that goes by a name in lower case.
    pub fn from_lowercase_name(name: &String) -> (r: Option<ResponseStrategies>)
        ensures
            r == strategy_named(name@),
    {
        if *name == "gaussian".to_owned() {
            Some(ResponseStrategies::Gaussian(GaussianResponseStrategy))
        } else if *name == "linear".to_owned() {
            Some(ResponseStrategies::Linear(LinearStrategy))
        } else if *name == "motr".to_owned() {
            Some(ResponseStrategies::Motr(MotrStrategy))
        } else {
            None
        }
    }

    /// The strategy that goes by a name, whatever its case.
    pub fn from_name(name: &str) -> (r: Result<ResponseStrategies, String>)
        ensures
            match strategy_named(lowercase(name@)) {
                Some(strategy) => r == Ok::<ResponseStrategies, String>(strategy),
                None => r matches Err(message) && message@ == unknown_strategy(name@),
            },
    {
        match Self::from_lowercase_name(&to_lowercase(name)) {
            Some(strategy) => Ok(strategy),
            None => {
                let mut message: String = "Unknown response strategy: '".to_owned();
                message.append(name);
                message.append("'. Supported: 'gaussian', 'motr', 'linear'.");
                Err(message)
            },
        }
    }
}

impl<N: Numerics> ResponseStrategy<N> for ResponseStrategies {
    open spec fn is_implemented(&self) -> bool {
        match self {
            ResponseStrategies::Motr(s) => ResponseStrategy::<N>::is_implemented(s),
            ResponseStrategies::Gaussian(s) => ResponseStrategy::<N>::is_implemented(s),
            ResponseStrategies::Linear(s) => ResponseStrategy::<N>::is_implemented(s),
        }
    }

    open spec fn is_proposal(
        &self,
        num: &N,
        node_samples: Seq<u32>,
        x: Matrix,
        sum_trees: Matrix,
        leaf_sd: Seq<Binary64>,
        n_trees: nat,
        n_outputs: nat,
        split_val: Binary64,
        split_var: u32,
        node_idx: usize,
        left_draws: Seq<Binary64>,
        right_draws: Seq<Binary64>,
        r: LeafProposal,
    ) -> bool {
        match self {
            ResponseStrategies::Motr(s) => s.is_proposal(
                num,
                node_samples,
                x,
                sum_trees,
                leaf_sd,
                n_trees,
                n_outputs,
                split_val,
                split_var,
                node_idx,
                left_draws,
                right_draws,
                r,
            ),
            ResponseStrategies::Gaussian(s) => s.is_proposal(
                num,
                node_samples,
                x,
                sum_trees,
                leaf_sd,
                n_trees,
                n_outputs,
                split_val,
                split_var,
                node_idx,
                left_draws,
                right_draws,
                r,
            ),
            ResponseStrategies::Linear(s) => s.is_proposal(
                num,
                node_samples,
                x,
                sum_trees,
                leaf_sd,
                n_trees,
                n_outputs,
                split_val,
                split_var,
                node_idx,
                left_draws,
                right_draws,
                r,
            ),
        }
    }

    fn can_propose(&self) -> (r: bool) {
        match self {
            ResponseStrategies::Motr(s) => ResponseStrategy::<N>::can_propose(s),
            ResponseStrategies::Gaussian(s) => ResponseStrategy::<N>::can_propose(s),
            ResponseStrategies::Linear(s) => ResponseStrategy::<N>::can_propose(s),
        }
    }

    fn leaf_proposal(
        &self,
        num: &N,
        node_samples: &Vec<u32>,
        x: &Matrix,
        sum_trees: &Matrix,
        leaf_sd: &Vec<Binary64>,
        n_trees: usize,
        n_outputs: usize,
        split_val: Binary64,
        split_var: u32,
        node_idx: usize,
        left_draws: &Vec<Binary64>,
        right_draws: &Vec<Binary64>,
    ) -> (r: LeafProposal) {
        match self {
            ResponseStrategies::Motr(s) => s.leaf_proposal(
                num,
                node_samples,
                x,
                sum_trees,
                leaf_sd,
                n_trees,
                n_outputs,
                split_val,
                split_var,
                node_idx,
                left_draws,
                right_draws,
            ),
            ResponseStrategies::Linear(s) => s.leaf_proposal(
                num,
                node_samples,
                x,
                sum_trees,
                leaf_sd,
                n_trees,
                n_outputs,
                split_val,
                split_var,
                node_idx,
                left_draws,
                right_draws,
            ),
            ResponseStrategies::Gaussian(s) => s.leaf_proposal(
                num,
                node_samples,
                x,
                sum_trees,
                leaf_sd,
                n_trees,
                n_outputs,
                split_val,
                split_var,
                node_idx,
                left_draws,
                right_draws,
            ),
        }
    }
}

} // verus!
