//! From what a user asks for to a sampler that runs.
use crate::binary64::{Binary64, ZERO_BITS};
use crate::columns::{is_jittered_column, is_nanstd, jitter_duplicated, nanstd};
use crate::config::BartConfig;
use crate::matrix::{can_allocate, Matrix};
use crate::numerics::Numerics;
use crate::splitting::SplitRule;
use rand::rngs::SmallRng;
use vstd::prelude::*;

verus! {

/// Settings as a user gives them.
#[derive(Clone, Debug)]
pub struct PyBartSettings {
    pub n_trees: usize,
    pub n_particles: usize,
    pub max_depth: u8,
    pub alpha: Binary64,
    pub beta: Binary64,
    pub sigma: Binary64,
    pub n_outputs: usize,
    pub split_prior: Vec<Binary64>,
    pub split_rules: Vec<String>,
    pub response_rule: String,
    pub resampling_rule: String,
    pub batch_tune: Binary64,
    pub batch_post: Binary64,
    pub seed: u64,
}

impl PyBartSettings {
    /// `r` are the settings of the sampler that these settings stand for.
    pub open spec fn is_config(self, r: BartConfig) -> bool {
        &&& r.n_trees == self.n_trees
        &&& r.n_particles == self.n_particles
        &&& r.max_depth == self.max_depth
        &&& r.alpha == self.alpha
        &&& r.beta == self.beta
        &&& r.sigma == self.sigma
        &&& r.n_outputs == self.n_outputs
        &&& r.min_samples_leaf == 5
        &&& r.splitting_probs == if self.split_prior@.len() == 0 {
            None
        } else {
            Some(self.split_prior)
        }
        &&& r.batch_tune == self.batch_tune
        &&& r.batch_post == self.batch_post
        &&& r.response == self.response_rule
    }

    /// The settings of the sampler. An empty prior leaves all features as likely.
    pub fn to_config(self) -> (r: BartConfig)
        ensures
            self.is_config(r),
            r.n_trees == self.n_trees,
            r.n_particles == self.n_particles,
            r.max_depth == self.max_depth,
            r.alpha == self.alpha,
            r.beta == self.beta,
            r.sigma == self.sigma,
            r.n_outputs == self.n_outputs,
            r.min_samples_leaf == 5,
            r.splitting_probs == if self.split_prior@.len() == 0 {
                None
            } else {
                Some(self.split_prior)
            },
            r.batch_tune == self.batch_tune,
            r.batch_post == self.batch_post,
            r.response == self.response_rule,
    {
        BartConfig {
            n_trees: self.n_trees,
            n_particles: self.n_particles,
            max_depth: self.max_depth,
            alpha: self.alpha,
            beta: self.beta,
            sigma: self.sigma,
            n_outputs: self.n_outputs,
            min_samples_leaf: 5,
            splitting_probs: if self.split_prior.len() == 0 {
                None
            } else {
                Some(self.split_prior)
            },
            batch_tune: self.batch_tune,
            batch_post: self.batch_post,
            response: self.response_rule,
        }
    }
}

/// `y` holds responses of the given shape with one row per output: a list is a single row, a
/// table is taken as it is.
pub open spec fn is_response_matrix(values: Seq<Binary64>, shape: Seq<usize>, y: Matrix) -> bool {
    let columns = shape.last() as int;
    &&& shape.len() == 1 || shape.len() == 2
    &&& y.height() == if shape.len() == 1 {
        1
    } else {
        shape[0] as int
    }
    &&& y.width() == columns
    &&& forall|i: int, j: int|
        0 <= i < y.height() && 0 <= j < columns ==> #[trigger] y.at(i, j) == values[i * columns
            + j]
}

/// Responses as an array with one row per output: a list becomes a single row, a table is
/// taken as it is. `values` holds the numbers row after row. Other shapes are refused.
pub fn response_matrix(values: &Vec<Binary64>, shape: &Vec<usize>) -> (r: Result<Matrix, String>)
    requires
        shape@.len() == 1 ==> {
            &&& values@.len() == shape@[0]
            &&& can_allocate(1, shape@[0] as int)
        },
        shape@.len() == 2 ==> {
            &&& values@.len() == shape@[0] * shape@[1]
            &&& can_allocate(shape@[0] as int, shape@[1] as int)
        },
    ensures
        match r {
            Ok(y) => is_response_matrix(values@, shape@, y),
            Err(message) => {
                &&& shape@.len() != 1 && shape@.len() != 2
                &&& message@ == "y must be 1D or 2D array"@
            },
        },
{
    if shape.len() != 1 && shape.len() != 2 {
        return Err("y must be 1D or 2D array".to_owned());
    }
    let rows: usize = if shape.len() == 1 {
        1
    } else {
        shape[0]
    };
    let columns: usize = shape[shape.len() - 1];
    assert(values.len() == values@.len());
    assert(rows * columns == values@.len());
    let mut y = Matrix::filled(rows, columns, Binary64 { bits: ZERO_BITS });
    for i in 0..rows
        invariant
            rows * columns == values@.len(),
            values@.len() <= usize::MAX,
            y.height() == rows,
            y.width() == columns,
            forall|k: int, l: int|
                0 <= k < i && 0 <= l < columns ==> #[trigger] y.at(k, l) == values@[k * columns
                    + l],
    {
        for j in 0..columns
            invariant
                i < rows,
                rows * columns == values@.len(),
                values@.len() <= usize::MAX,
                y.height() == rows,
                y.width() == columns,
                forall|k: int, l: int|
                    0 <= k < i && 0 <= l < columns ==> #[trigger] y.at(k, l) == values@[k * columns
                        + l],
                forall|l: int|
                    0 <= l < j ==> #[trigger] y.at(i as int, l) == values@[i * columns + l],
        {
            assert(i * columns + j < rows * columns) by (nonlinear_arith)
                requires
                    i < rows,
                    j < columns,
            ;
            assert(0 <= i * columns) by (nonlinear_arith);
            y.set(i, j, values[i * columns + j]);
        }
    }
    Ok(y)
}

/// `r` is a rule that a rule type gives for a feature of which nothing else is said.
pub open spec fn is_default_rule<S: SplitRule>(r: S) -> bool {
    call_ensures(S::continuous, (), r)
}

/// `r` has at least `n` rules: those given, then default ones.
pub open spec fn are_completed_rules<S: SplitRule>(given: Seq<S>, n: nat, r: Seq<S>) -> bool {
    &&& r.len() == if given.len() < n {
        n
    } else {
        given.len()
    }
    &&& r.take(given.len() as int) == given
    &&& forall|i: int| given.len() <= i < r.len() ==> is_default_rule::<S>(#[trigger] r[i])
}

/// One rule for each feature: those given, then default ones.
pub fn complete_rules<S: SplitRule>(rules: Vec<S>, n_features: usize) -> (r: Vec<S>)
    ensures
        are_completed_rules(rules@, n_features as nat, r@),
{
    let ghost given = rules@;
    let mut r = rules;
    assert(r@.take(given.len() as int) =~= given);
    while r.len() < n_features
        invariant
            given.len() <= r@.len(),
            r@.len() <= n_features || r@.len() == given.len(),
            r@.take(given.len() as int) == given,
            forall|i: int|
                given.len() <= i < r@.len() ==> is_default_rule::<S>(#[trigger] r@[i]),
        decreases n_features - r@.len(),
    {
        let rule = S::continuous();
        assert(is_default_rule::<S>(rule));
        r.push(rule);
        assert(r@.take(given.len() as int) =~= given);
    }
    r
}

/// `flag` is what a rule says of itself being the default one.
pub open spec fn is_flag<S: SplitRule>(rule: S, flag: bool) -> bool {
    call_ensures(S::is_continuous, (&rule,), flag)
}

/// Each of `flags` is what its rule says of itself.
pub open spec fn are_flags<S: SplitRule>(rules: Seq<S>, flags: Seq<bool>) -> bool {
    &&& flags.len() == rules.len()
    &&& forall|i: int| 0 <= i < flags.len() ==> is_flag(rules[i], #[trigger] flags[i])
}

/// Which rules are default ones.
fn read_flags<S: SplitRule>(rules: &Vec<S>) -> (r: Vec<bool>)
    ensures
        are_flags(rules@, r@),
{
    let mut r: Vec<bool> = Vec::new();
    for i in 0..rules.len()
        invariant
            r@.len() == i,
            forall|j: int| 0 <= j < i ==> is_flag(rules@[j], #[trigger] r@[j]),
    {
        let flag = rules[i].is_continuous();
        assert(is_flag(rules@[i as int], flag));
        r.push(flag);
    }
    r
}

/// `after` is column `before` made ready for thresholds between its numbers, with draws that
/// take a generator from `from` to `to`.
pub open spec fn is_prepared_column<N: Numerics>(
    num: &N,
    before: Seq<Binary64>,
    from: SmallRng,
    after: Seq<Binary64>,
    to: SmallRng,
) -> bool {
    exists|std: Binary64| #[trigger]
        is_nanstd(num, before, std) && is_jittered_column(num, before, std, from, after, to)
}

/// `after` is `before` with the flagged columns made ready, one after the other. They take a
/// generator through `states`.
pub open spec fn are_columns_prepared<N: Numerics>(
    num: &N,
    before: Matrix,
    flags: Seq<bool>,
    states: Seq<SmallRng>,
    after: Matrix,
) -> bool {
    &&& after.same_shape(before)
    &&& states.len() == flags.len() + 1
    &&& forall|j: int|
        0 <= j < before.width() ==> if j < flags.len() && flags[j] {
            is_prepared_column(
                num,
                before.column(j),
                states[j],
                #[trigger] after.column(j),
                states[j + 1],
            )
        } else {
            after.column(j) == before.column(j)
        }
    &&& forall|j: int|
        0 <= j < flags.len() && !(#[trigger] flags[j]) ==> states[j + 1] == states[j]
}

/// Jitters the columns whose rule is a default one. Fails where such a rule has no column.
pub fn prepare_columns<N: Numerics, S: SplitRule>(
    num: &N,
    rng: &mut SmallRng,
    x: &mut Matrix,
    rules: &Vec<S>,
) -> (r: Result<(), SetupError>)
    ensures
        exists|flags: Seq<bool>| #[trigger]
            are_flags(rules@, flags) && match r {
                Ok(_) => {
                    &&& exists|states: Seq<SmallRng>|
                        {
                            &&& #[trigger] are_columns_prepared(
                                num,
                                *old(x),
                                flags,
                                states,
                                *final(x),
                            )
                            &&& states[0] == *old(rng)
                            &&& states.last() == *final(rng)
                        }
                    &&& forall|j: int|
                        old(x).width() <= j < flags.len() ==> !(#[trigger] flags[j])
                },
                Err(e) => {
                    &&& e == SetupError::NoSuchColumn
                    &&& exists|j: int|
                        old(x).width() <= j < flags.len() && #[trigger] flags[j]
                },
            },
{
    let flags = read_flags(rules);
    let ghost before = *x;
    let columns = x.ncols();
    let ghost mut states: Seq<SmallRng> = seq![*rng];
    for i in 0..flags.len()
        invariant
            columns == before.width(),
            x.same_shape(before),
            before == *old(x),
            are_flags(rules@, flags@),
            forall|j: int| columns <= j < i ==> !(#[trigger] flags@[j]),
            forall|j: int|
                0 <= j < columns ==> if j < i && flags@[j] {
                    is_prepared_column(
                        num,
                        before.column(j),
                        states[j],
                        #[trigger] x.column(j),
                        states[j + 1],
                    )
                } else {
                    x.column(j) == before.column(j)
                },
            states.len() == i + 1,
            states[0] == *old(rng),
            states.last() == *rng,
            forall|j: int| 0 <= j < i && !(#[trigger] flags@[j]) ==> states[j + 1] == states[j],
    {
        if flags[i] {
            if i >= columns {
                return Err(SetupError::NoSuchColumn);
            }
            let ghost start = *x;
            let mut column = x.read_column(i);
            let std = nanstd(num, &column);
            let ghost values = column@;
            jitter_duplicated(num, &mut column, std, rng);
            proof {
                assert(start.column(i as int) == before.column(i as int));
                assert(is_nanstd(num, before.column(i as int), std));
                assert(column@.len() == values.len());
            }
            x.write_column(i, &column);
            assert forall|j: int| 0 <= j < columns && j != i implies #[trigger] x.column(j)
                == start.column(j) by {
                assert(x.column(j) =~= start.column(j));
            }
        }
        proof {
            states = states.push(*rng);
        }
    }
    assert(are_columns_prepared(num, before, flags@, states, *x));
    Ok(())
}

/// Why a sampler could not be set up.
#[derive(Clone, Copy, Debug, PartialEq, Eq, Structural)]
pub enum SetupError {
    /// There is a default rule for a feature that the data do not have.
    NoSuchColumn,
    /// The trees or arrays that the settings ask for cannot be held.
    TooLarge,
}

} // verus!
