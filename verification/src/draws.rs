//! Draws, each with the states of the generator before and after it.
use crate::binary64::Binary64;
use crate::numerics::Numerics;
use crate::random::random_below;
use crate::resampling::ResamplingStrategy;
use crate::splitting::SplitRule;
use rand::rngs::SmallRng;
use vstd::prelude::*;

verus! {

/// A drawn value, with the states of the generator that it was drawn from.
pub struct Drawn<T> {
    pub value: T,
    pub before: Ghost<SmallRng>,
    pub after: Ghost<SmallRng>,
}

/// A draw from the uniform distribution over `[0, 1)`.
pub fn draw_uniform<N: Numerics>(num: &N, rng: &mut SmallRng) -> (r: Drawn<Binary64>)
    ensures
        r.before@ == *old(rng),
        r.after@ == *final(rng),
        exists|a: &mut SmallRng|
            {
                &&& *a == *old(rng)
                &&& *final(a) == *final(rng)
                &&& #[trigger] call_ensures(N::uniform, (num, a), r.value)
            },
{
    let ghost before = *rng;
    let value = num.uniform(rng);
    let ghost after = *rng;
    assert(exists|a: &mut SmallRng|
        {
            &&& *a == before
            &&& *final(a) == after
            &&& #[trigger] call_ensures(N::uniform, (num, a), value)
        });
    let r = Drawn { value, before: Ghost(before), after: Ghost(after) };
    assert(r.value == value);
    r
}

/// `r` is what `num` draws from the uniform distribution with a generator in the state
/// `from`, which is then in the state `to`.
pub open spec fn is_uniform_draw<N: Numerics>(
    num: &N,
    from: SmallRng,
    r: Binary64,
    to: SmallRng,
) -> bool {
    exists|a: &mut SmallRng, d: Drawn<Binary64>|
        {
            &&& d.before@ == from
            &&& d.value == r
            &&& d.after@ == to
            &&& #[trigger] call_ensures(draw_uniform::<N>, (num, a), d)
        }
}

/// Such a draw is an answer of `N::uniform` that takes the generator from `from` to `to`.
pub proof fn law_uniform_draw<N: Numerics>(
    num: &N,
    from: SmallRng,
    r: Binary64,
    to: SmallRng,
)
    requires
        is_uniform_draw(num, from, r, to),
    ensures
        exists|a: &mut SmallRng|
            {
                &&& *a == from
                &&& *final(a) == to
                &&& #[trigger] call_ensures(N::uniform, (num, a), r)
            },
{
}

/// A draw from the standard normal distribution.
pub fn draw_normal<N: Numerics>(num: &N, rng: &mut SmallRng) -> (r: Drawn<Binary64>)
    ensures
        r.before@ == *old(rng),
        r.after@ == *final(rng),
        exists|a: &mut SmallRng|
            {
                &&& *a == *old(rng)
                &&& *final(a) == *final(rng)
                &&& #[trigger] call_ensures(N::standard_normal, (num, a), r.value)
            },
{
    let ghost before = *rng;
    let value = num.standard_normal(rng);
    let ghost after = *rng;
    assert(exists|a: &mut SmallRng|
        {
            &&& *a == before
            &&& *final(a) == after
            &&& #[trigger] call_ensures(N::standard_normal, (num, a), value)
        });
    let r = Drawn { value, before: Ghost(before), after: Ghost(after) };
    assert(r.value == value);
    r
}

/// `r` is what `num` draws from the standard normal distribution with a generator in the
/// state `from`, which is then in the state `to`.
pub open spec fn is_normal_draw<N: Numerics>(
    num: &N,
    from: SmallRng,
    r: Binary64,
    to: SmallRng,
) -> bool {
    exists|a: &mut SmallRng, d: Drawn<Binary64>|
        {
            &&& d.before@ == from
            &&& d.value == r
            &&& d.after@ == to
            &&& #[trigger] call_ensures(draw_normal::<N>, (num, a), d)
        }
}

/// Such a draw is an answer of `N::standard_normal` that takes the generator from `from` to
/// `to`.
pub proof fn law_normal_draw<N: Numerics>(
    num: &N,
    from: SmallRng,
    r: Binary64,
    to: SmallRng,
)
    requires
        is_normal_draw(num, from, r, to),
    ensures
        exists|a: &mut SmallRng|
            {
                &&& *a == from
                &&& *final(a) == to
                &&& #[trigger] call_ensures(N::standard_normal, (num, a), r)
            },
{
}

/// A draw of a position in proportion to `weights`.
pub fn draw_weighted<N: Numerics>(
    num: &N,
    rng: &mut SmallRng,
    weights: &Vec<Binary64>,
) -> (r: Drawn<Option<usize>>)
    ensures
        r.before@ == *old(rng),
        r.after@ == *final(rng),
        exists|a: &mut SmallRng|
            {
                &&& *a == *old(rng)
                &&& *final(a) == *final(rng)
                &&& #[trigger] call_ensures(N::weighted_index, (num, a, weights), r.value)
            },
{
    let ghost before = *rng;
    let value = num.weighted_index(rng, weights);
    let ghost after = *rng;
    assert(exists|a: &mut SmallRng|
        {
            &&& *a == before
            &&& *final(a) == after
            &&& #[trigger] call_ensures(N::weighted_index, (num, a, weights), value)
        });
    let r = Drawn { value, before: Ghost(before), after: Ghost(after) };
    assert(r.value == value);
    r
}

/// `r` is what `num` draws in proportion to `weights` with a generator in the state `from`,
/// which is then in the state `to`.
pub open spec fn is_weighted_draw<N: Numerics>(
    num: &N,
    weights: Seq<Binary64>,
    from: SmallRng,
    r: Option<usize>,
    to: SmallRng,
) -> bool {
    exists|a: &mut SmallRng, v: &Vec<Binary64>, d: Drawn<Option<usize>>|
        {
            &&& v@ == weights
            &&& d.before@ == from
            &&& d.value == r
            &&& d.after@ == to
            &&& #[trigger] call_ensures(draw_weighted::<N>, (num, a, v), d)
        }
}

/// Such a draw is an answer of `N::weighted_index` that takes the generator from `from` to
/// `to`.
pub proof fn law_weighted_draw<N: Numerics>(
    num: &N,
    weights: Seq<Binary64>,
    from: SmallRng,
    r: Option<usize>,
    to: SmallRng,
)
    requires
        is_weighted_draw(num, weights, from, r, to),
    ensures
        exists|a: &mut SmallRng, v: &Vec<Binary64>|
            {
                &&& *a == from
                &&& *final(a) == to
                &&& v@ == weights
                &&& #[trigger] call_ensures(N::weighted_index, (num, a, v), r)
            },
{
}

/// A draw of an integer below `n`.
pub fn draw_below(rng: &mut SmallRng, n: usize) -> (r: Drawn<usize>)
    requires
        n > 0,
    ensures
        r.value < n,
        r.before@ == *old(rng),
        r.after@ == *final(rng),
        exists|a: &mut SmallRng|
            {
                &&& *a == *old(rng)
                &&& *final(a) == *final(rng)
                &&& #[trigger] call_ensures(random_below, (a, n), r.value)
            },
{
    let ghost before = *rng;
    let value = random_below(rng, n);
    let ghost after = *rng;
    assert(exists|a: &mut SmallRng|
        {
            &&& *a == before
            &&& *final(a) == after
            &&& #[trigger] call_ensures(random_below, (a, n), value)
        });
    let r = Drawn { value, before: Ghost(before), after: Ghost(after) };
    assert(r.value == value);
    r
}

/// `r` is an integer below `n` drawn with a generator in the state `from`, which is then in
/// the state `to`.
pub open spec fn is_below_draw(
    n: usize,
    from: SmallRng,
    r: usize,
    to: SmallRng,
) -> bool {
    exists|a: &mut SmallRng, d: Drawn<usize>|
        {
            &&& d.before@ == from
            &&& d.value == r
            &&& d.after@ == to
            &&& #[trigger] call_ensures(draw_below, (a, n), d)
        }
}

/// Such a draw is an answer of `random_below` that takes the generator from `from` to `to`.
pub proof fn law_below_draw(
    n: usize,
    from: SmallRng,
    r: usize,
    to: SmallRng,
)
    requires
        is_below_draw(n, from, r, to),
    ensures
        exists|a: &mut SmallRng|
            {
                &&& *a == from
                &&& *final(a) == to
                &&& #[trigger] call_ensures(random_below, (a, n), r)
            },
        r < n,
{
}

/// A draw of a threshold by `rule` from these values of its feature.
pub fn draw_threshold<S: SplitRule>(
    rule: &S,
    rng: &mut SmallRng,
    values: &Vec<Binary64>,
) -> (r: Drawn<Option<Binary64>>)
    ensures
        r.before@ == *old(rng),
        r.after@ == *final(rng),
        exists|a: &mut SmallRng|
            {
                &&& *a == *old(rng)
                &&& *final(a) == *final(rng)
                &&& #[trigger] call_ensures(S::sample_split_value, (rule, a, values), r.value)
            },
{
    let ghost before = *rng;
    let value = rule.sample_split_value(rng, values);
    let ghost after = *rng;
    assert(exists|a: &mut SmallRng|
        {
            &&& *a == before
            &&& *final(a) == after
            &&& #[trigger] call_ensures(S::sample_split_value, (rule, a, values), value)
        });
    let r = Drawn { value, before: Ghost(before), after: Ghost(after) };
    assert(r.value == value);
    r
}

/// `r` is what `rule` draws for these values of its feature with a generator in the state
/// `from`, which is then in the state `to`.
pub open spec fn is_threshold<S: SplitRule>(
    rule: S,
    values: Seq<Binary64>,
    from: SmallRng,
    r: Option<Binary64>,
    to: SmallRng,
) -> bool {
    exists|a: &mut SmallRng, v: &Vec<Binary64>, d: Drawn<Option<Binary64>>|
        {
            &&& v@ == values
            &&& d.before@ == from
            &&& d.value == r
            &&& d.after@ == to
            &&& #[trigger] call_ensures(draw_threshold::<S>, (&rule, a, v), d)
        }
}

/// Such a draw is an answer of `S::sample_split_value` that takes the generator from `from`
/// to `to`.
pub proof fn law_threshold_draw<S: SplitRule>(
    rule: S,
    values: Seq<Binary64>,
    from: SmallRng,
    r: Option<Binary64>,
    to: SmallRng,
)
    requires
        is_threshold(rule, values, from, r, to),
    ensures
        exists|a: &mut SmallRng, v: &Vec<Binary64>|
            {
                &&& *a == from
                &&& *final(a) == to
                &&& v@ == values
                &&& #[trigger] call_ensures(S::sample_split_value, (&rule, a, v), r)
            },
{
}

/// A draw of ancestors in proportion to `weights`.
pub fn draw_ancestors<R: ResamplingStrategy>(
    resampling: &R,
    rng: &mut SmallRng,
    weights: &Vec<Binary64>,
) -> (r: Drawn<Vec<usize>>)
    ensures
        r.before@ == *old(rng),
        r.after@ == *final(rng),
        exists|a: &mut SmallRng|
            {
                &&& *a == *old(rng)
                &&& *final(a) == *final(rng)
                &&& #[trigger] call_ensures(R::resample, (resampling, a, weights), r.value)
            },
{
    let ghost before = *rng;
    let value = resampling.resample(rng, weights);
    let ghost after = *rng;
    assert(exists|a: &mut SmallRng|
        {
            &&& *a == before
            &&& *final(a) == after
            &&& #[trigger] call_ensures(R::resample, (resampling, a, weights), value)
        });
    let r = Drawn { value, before: Ghost(before), after: Ghost(after) };
    assert(r.value == value);
    r
}

/// `r` is what `resampling` draws for `weights` with a generator in the state `from`, which
/// is then in the state `to`.
pub open spec fn are_ancestors<R: ResamplingStrategy>(
    resampling: &R,
    weights: Seq<Binary64>,
    from: SmallRng,
    r: Seq<usize>,
    to: SmallRng,
) -> bool {
    exists|a: &mut SmallRng, v: &Vec<Binary64>, d: Drawn<Vec<usize>>|
        {
            &&& v@ == weights
            &&& d.before@ == from
            &&& d.value@ == r
            &&& d.after@ == to
            &&& #[trigger] call_ensures(draw_ancestors::<R>, (resampling, a, v), d)
        }
}

/// Such a draw is an answer of `R::resample` that takes the generator from `from` to `to`.
pub proof fn law_ancestors_draw<R: ResamplingStrategy>(
    resampling: &R,
    weights: Seq<Binary64>,
    from: SmallRng,
    r: Seq<usize>,
    to: SmallRng,
)
    requires
        are_ancestors(resampling, weights, from, r, to),
    ensures
        exists|a: &mut SmallRng, v: &Vec<Binary64>, w: Vec<usize>|
            {
                &&& *a == from
                &&& *final(a) == to
                &&& v@ == weights
                &&& w@ == r
                &&& #[trigger] call_ensures(R::resample, (resampling, a, v), w)
            },
{
}

} // verus!
