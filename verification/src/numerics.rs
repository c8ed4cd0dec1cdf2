//! The floating-point operations that the sampler asks of its host.
use crate::binary64::{Binary64, ONE_BITS, ZERO_BITS};
use rand::rngs::SmallRng;
use vstd::prelude::*;

verus! {

/// Rounded arithmetic and draws of real numbers.
///
/// Nothing is promised of what these operations return. A contract that goes through one
/// of them says which operation was applied to which numbers, by `call_ensures`.
pub trait Numerics {
    /// `a + b`
    fn plus(&self, a: Binary64, b: Binary64) -> Binary64;

    /// `a - b`
    fn minus(&self, a: Binary64, b: Binary64) -> Binary64;

    /// `a * b`
    fn times(&self, a: Binary64, b: Binary64) -> Binary64;

    /// `a / b`
    fn over(&self, a: Binary64, b: Binary64) -> Binary64;

    /// The square root of `a`.
    fn sqrt(&self, a: Binary64) -> Binary64;

    /// `e` to the power `a`.
    fn exp(&self, a: Binary64) -> Binary64;

    /// `a` to the power `b`.
    fn powf(&self, a: Binary64, b: Binary64) -> Binary64;

    /// The sum of all `values`.
    fn total(&self, values: &Vec<Binary64>) -> Binary64;

    /// The mean of all `values`, of which there is at least one.
    fn mean(&self, values: &Vec<Binary64>) -> Binary64;

    /// The standard deviation of all `values`, of which there is at least one.
    fn spread(&self, values: &Vec<Binary64>) -> Binary64;

    /// A draw from the uniform distribution over `[0, 1)`.
    fn uniform(&self, rng: &mut SmallRng) -> Binary64;

    /// A draw from the standard normal distribution.
    fn standard_normal(&self, rng: &mut SmallRng) -> Binary64;

    /// A draw of a position in proportion to `weights`. `None` where the weights are no
    /// distribution: none at all, a negative one or a NaN, or a total of zero.
    fn weighted_index(&self, rng: &mut SmallRng, weights: &Vec<Binary64>) -> Option<usize>;
}

/// `r` is what `num` answers to `a + b`.
pub open spec fn is_sum<N: Numerics>(num: &N, a: Binary64, b: Binary64, r: Binary64) -> bool {
    call_ensures(N::plus, (num, a, b), r)
}

/// `r` is what `num` answers to `a - b`.
pub open spec fn is_difference<N: Numerics>(
    num: &N,
    a: Binary64,
    b: Binary64,
    r: Binary64,
) -> bool {
    call_ensures(N::minus, (num, a, b), r)
}

/// `r` is what `num` answers to `a * b`.
pub open spec fn is_product<N: Numerics>(num: &N, a: Binary64, b: Binary64, r: Binary64) -> bool {
    call_ensures(N::times, (num, a, b), r)
}

/// `r` is what `num` answers to `a / b`.
pub open spec fn is_quotient<N: Numerics>(num: &N, a: Binary64, b: Binary64, r: Binary64) -> bool {
    call_ensures(N::over, (num, a, b), r)
}

/// `r` is what `num` answers to the square root of `a`.
pub open spec fn is_root<N: Numerics>(num: &N, a: Binary64, r: Binary64) -> bool {
    call_ensures(N::sqrt, (num, a), r)
}

/// `r` is what `num` answers to `e^a`.
pub open spec fn is_exponential<N: Numerics>(num: &N, a: Binary64, r: Binary64) -> bool {
    call_ensures(N::exp, (num, a), r)
}

/// `r` is what `num` answers to `a^b`.
pub open spec fn is_power<N: Numerics>(num: &N, a: Binary64, b: Binary64, r: Binary64) -> bool {
    call_ensures(N::powf, (num, a, b), r)
}

/// `r` is what `num` answers to the sum of `values`.
pub open spec fn is_total<N: Numerics>(num: &N, values: Seq<Binary64>, r: Binary64) -> bool {
    exists|v: &Vec<Binary64>| v@ == values && #[trigger] call_ensures(N::total, (num, v), r)
}

/// `r` is what `num` answers to the mean of `values`.
pub open spec fn is_mean<N: Numerics>(num: &N, values: Seq<Binary64>, r: Binary64) -> bool {
    exists|v: &Vec<Binary64>| v@ == values && #[trigger] call_ensures(N::mean, (num, v), r)
}

/// `r` is what `num` answers to the standard deviation of `values`.
pub open spec fn is_spread<N: Numerics>(num: &N, values: Seq<Binary64>, r: Binary64) -> bool {
    exists|v: &Vec<Binary64>| v@ == values && #[trigger] call_ensures(N::spread, (num, v), r)
}

/// `r` comes of adding `values` one by one, first to last, to zero.
pub open spec fn is_running_sum<N: Numerics>(
    num: &N,
    values: Seq<Binary64>,
    r: Binary64,
) -> bool
    decreases values.len(),
{
    if values.len() == 0 {
        r == (Binary64 { bits: ZERO_BITS })
    } else {
        exists|p: Binary64|
            is_running_sum(num, values.drop_last(), p) && #[trigger] is_sum(
                num,
                p,
                values.last(),
                r,
            )
    }
}

/// `r` is `a * x + b` as `num` computes it: the product first, then `b` plus it.
pub open spec fn is_line<N: Numerics>(
    num: &N,
    intercept: Binary64,
    slope: Binary64,
    x: Binary64,
    r: Binary64,
) -> bool {
    exists|p: Binary64|
        is_product(num, slope, x, p) && #[trigger] is_sum(num, intercept, p, r)
}

/// `intercept + slope * x`.
pub fn line<N: Numerics>(num: &N, intercept: Binary64, slope: Binary64, x: Binary64) -> (r:
    Binary64)
    ensures
        is_line(num, intercept, slope, x, r),
{
    let p = num.times(slope, x);
    assert(is_product(num, slope, x, p));
    let r = num.plus(intercept, p);
    assert(is_sum(num, intercept, p, r));
    r
}

/// Adds `values` one by one, first to last, to zero.
pub fn running_sum<N: Numerics>(num: &N, values: &Vec<Binary64>) -> (r: Binary64)
    ensures
        is_running_sum(num, values@, r),
{
    let mut r = Binary64 { bits: ZERO_BITS };
    for i in 0..values.len()
        invariant
            is_running_sum(num, values@.take(i as int), r),
    {
        let before = r;
        r = num.plus(before, values[i]);
        proof {
            let next = values@.take(i + 1);
            assert(next.drop_last() =~= values@.take(i as int));
            assert(is_sum(num, before, next.last(), r));
        }
    }
    assert(values@.take(values@.len() as int) =~= values@);
    r
}

/// Each element of `r` is what `num` answers to that of `a` minus `b`.
pub open spec fn are_differences<N: Numerics>(
    num: &N,
    a: Seq<Binary64>,
    b: Binary64,
    r: Seq<Binary64>,
) -> bool {
    &&& r.len() == a.len()
    &&& forall|i: int| 0 <= i < a.len() ==> is_difference(num, a[i], b, #[trigger] r[i])
}

/// `a - b`, element by element of `a`.
pub fn differences<N: Numerics>(num: &N, a: &Vec<Binary64>, b: Binary64) -> (r: Vec<Binary64>)
    ensures
        are_differences(num, a@, b, r@),
{
    let mut r: Vec<Binary64> = Vec::new();
    for i in 0..a.len()
        invariant
            r@.len() == i,
            forall|j: int| 0 <= j < i ==> is_difference(num, a@[j], b, #[trigger] r@[j]),
    {
        let d = num.minus(a[i], b);
        assert(is_difference(num, a@[i as int], b, d));
        r.push(d);
    }
    r
}

/// Each element of `r` is what `num` answers to the product of those of `a` and `b`.
pub open spec fn are_products<N: Numerics>(
    num: &N,
    a: Seq<Binary64>,
    b: Seq<Binary64>,
    r: Seq<Binary64>,
) -> bool {
    &&& r.len() == a.len()
    &&& forall|i: int| 0 <= i < a.len() ==> is_product(num, a[i], b[i], #[trigger] r[i])
}

/// `a * b`, element by element.
pub fn products<N: Numerics>(num: &N, a: &Vec<Binary64>, b: &Vec<Binary64>) -> (r: Vec<Binary64>)
    requires
        a@.len() == b@.len(),
    ensures
        are_products(num, a@, b@, r@),
{
    let mut r: Vec<Binary64> = Vec::new();
    for i in 0..a.len()
        invariant
            a@.len() == b@.len(),
            r@.len() == i,
            forall|j: int| 0 <= j < i ==> is_product(num, a@[j], b@[j], #[trigger] r@[j]),
    {
        let p = num.times(a[i], b[i]);
        assert(is_product(num, a@[i as int], b@[i as int], p));
        r.push(p);
    }
    r
}

/// `r` is `a / b + c`: the quotient first.
pub open spec fn is_shifted_quotient<N: Numerics>(
    num: &N,
    a: Binary64,
    b: Binary64,
    c: Binary64,
    r: Binary64,
) -> bool {
    exists|q: Binary64| is_quotient(num, a, b, q) && #[trigger] is_sum(num, q, c, r)
}

/// `a / b + c`.
pub fn shifted_quotient<N: Numerics>(num: &N, a: Binary64, b: Binary64, c: Binary64) -> (r:
    Binary64)
    ensures
        is_shifted_quotient(num, a, b, c, r),
{
    let q = num.over(a, b);
    assert(is_quotient(num, a, b, q));
    let r = num.plus(q, c);
    assert(is_sum(num, q, c, r));
    r
}

/// Zero and one behave under `num` as they do in binary64 arithmetic: they are neutral, and
/// a finite number times zero is zero.
pub open spec fn obeys_units<N: Numerics>(num: &N) -> bool {
    let zero = Binary64 { bits: ZERO_BITS };
    let one = Binary64 { bits: ONE_BITS };
    &&& forall|a: Binary64, r: Binary64|
        !a.is_nan_spec() && #[trigger] is_product(num, one, a, r) ==> r == a
    &&& forall|z: Binary64, a: Binary64, r: Binary64|
        z.same_number_spec(zero) && a.is_finite_spec() && #[trigger] is_product(num, z, a, r)
            ==> r.same_number_spec(zero)
    &&& forall|z: Binary64, a: Binary64, r: Binary64|
        z.same_number_spec(zero) && !a.is_nan_spec() && #[trigger] is_sum(num, z, a, r)
            ==> r.same_number_spec(a)
    &&& forall|z: Binary64, a: Binary64, r: Binary64|
        z.same_number_spec(zero) && !a.is_nan_spec() && #[trigger] is_sum(num, a, z, r)
            ==> r.same_number_spec(a)
    &&& forall|r: Binary64| #[trigger]
        is_difference(num, one, one, r) ==> r.same_number_spec(zero)
    &&& forall|r: Binary64| #[trigger] is_difference(num, one, zero, r) ==> r == one
}

/// Sums, differences, products and quotients have one result each.
pub open spec fn is_determined<N: Numerics>(num: &N) -> bool {
    &&& forall|a: Binary64, b: Binary64, p: Binary64, q: Binary64| #[trigger]
        is_difference(num, a, b, p) && #[trigger] is_difference(num, a, b, q) ==> p == q
    &&& forall|a: Binary64, b: Binary64, p: Binary64, q: Binary64| #[trigger]
        is_quotient(num, a, b, p) && #[trigger] is_quotient(num, a, b, q) ==> p == q
    &&& forall|a: Binary64, b: Binary64, p: Binary64, q: Binary64| #[trigger]
        is_sum(num, a, b, p) && #[trigger] is_sum(num, a, b, q) ==> p == q
    &&& forall|a: Binary64, b: Binary64, p: Binary64, q: Binary64| #[trigger]
        is_product(num, a, b, p) && #[trigger] is_product(num, a, b, q) ==> p == q
}

/// `a` is a whole number of units `unit`, in the scale of [`Binary64::scaled`], and not beyond
/// `bound`.
pub open spec fn is_multiple(a: Binary64, unit: int, bound: int) -> bool {
    &&& a.is_finite_spec()
    &&& a.scaled() % unit == 0
    &&& -bound <= a.scaled() <= bound
}

/// Sums and differences of whole numbers of units are exact as long as they stay within
/// `bound`. So it is in binary64 arithmetic where the unit is a power of two and `bound` at
/// most `2^53` units.
pub open spec fn adds_exactly<N: Numerics>(num: &N, unit: int, bound: int) -> bool {
    &&& forall|a: Binary64, b: Binary64, r: Binary64|
        {
            &&& is_multiple(a, unit, bound)
            &&& is_multiple(b, unit, bound)
            &&& -bound <= a.scaled() + b.scaled() <= bound
            &&& #[trigger] is_sum(num, a, b, r)
        } ==> r.is_finite_spec() && r.scaled() == a.scaled() + b.scaled()
    &&& forall|a: Binary64, b: Binary64, r: Binary64|
        {
            &&& is_multiple(a, unit, bound)
            &&& is_multiple(b, unit, bound)
            &&& -bound <= a.scaled() - b.scaled() <= bound
            &&& #[trigger] is_difference(num, a, b, r)
        } ==> r.is_finite_spec() && r.scaled() == a.scaled() - b.scaled()
}

/// The sum of the numbers that `values` denote.
pub open spec fn scaled_sum(values: Seq<Binary64>) -> int
    decreases values.len(),
{
    if values.len() == 0 {
        0
    } else {
        scaled_sum(values.drop_last()) + values.last().scaled()
    }
}

} // verus!
