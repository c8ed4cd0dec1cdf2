//! What holds of normalised weights.
use crate::binary64::{Binary64, ONE_BITS, ZERO_BITS};
use crate::numerics::{
    adds_exactly, is_determined, is_difference, is_exponential, is_multiple, is_quotient, is_total,
    scaled_sum, Numerics,
};
use crate::smc::{
    are_normalized, are_quotients, are_relative_weights, is_relative_weight, largest,
    NEG_INFINITY_BITS,
};
use vstd::arithmetic::power2::pow2;
use vstd::prelude::*;

verus! {

/// Differences, exponentials, totals and quotients under `num` keep the order as they do in
/// binary64 arithmetic with a monotone exponential function.
pub open spec fn obeys_order<N: Numerics>(num: &N) -> bool {
    let zero = Binary64 { bits: ZERO_BITS };
    let one = Binary64 { bits: ONE_BITS };
    let nothing = Binary64 { bits: NEG_INFINITY_BITS };
    &&& forall|a: Binary64, b: Binary64, c: Binary64, p: Binary64, q: Binary64|
        {
            &&& a.le_spec(b)
            &&& c.is_finite_spec()
            &&& #[trigger] is_difference(num, a, c, p)
            &&& #[trigger] is_difference(num, b, c, q)
        } ==> p.le_spec(q)
    &&& forall|c: Binary64, r: Binary64|
        c.is_finite_spec() && #[trigger] is_difference(num, c, c, r) ==> r == zero
    &&& forall|c: Binary64, r: Binary64|
        c.is_finite_spec() && #[trigger] is_difference(num, nothing, c, r) ==> r == nothing
    &&& forall|a: Binary64, b: Binary64, p: Binary64, q: Binary64|
        {
            &&& a.le_spec(b)
            &&& #[trigger] is_exponential(num, a, p)
            &&& #[trigger] is_exponential(num, b, q)
        } ==> p.le_spec(q)
    &&& forall|a: Binary64, p: Binary64|
        a.le_spec(zero) && #[trigger] is_exponential(num, a, p) ==> zero.le_spec(p) && p.le_spec(
            one,
        )
    &&& forall|p: Binary64| #[trigger] is_exponential(num, zero, p) ==> p == one
    &&& forall|p: Binary64| #[trigger] is_exponential(num, nothing, p) ==> p == zero
    &&& forall|values: Seq<Binary64>, total: Binary64, i: int|
        {
            &&& forall|j: int|
                0 <= j < values.len() ==> zero.le_spec(#[trigger] values[j]) && values[j].le_spec(
                    one,
                )
            &&& 0 <= i < values.len()
            &&& #[trigger] is_total(num, values, total)
        } ==> total.is_finite_spec() && (#[trigger] values[i]).le_spec(total)
    &&& forall|a: Binary64, b: Binary64, c: Binary64, p: Binary64, q: Binary64|
        {
            &&& a.le_spec(b)
            &&& c.is_finite_spec()
            &&& one.le_spec(c)
            &&& #[trigger] is_quotient(num, a, c, p)
            &&& #[trigger] is_quotient(num, b, c, q)
        } ==> p.le_spec(q)
    &&& forall|a: Binary64, c: Binary64, p: Binary64|
        {
            &&& zero.le_spec(a)
            &&& a.le_spec(c)
            &&& c.is_finite_spec()
            &&& one.le_spec(c)
            &&& #[trigger] is_quotient(num, a, c, p)
        } ==> zero.le_spec(p) && p.le_spec(one)
    &&& forall|c: Binary64, p: Binary64|
        c.is_finite_spec() && one.le_spec(c) && #[trigger] is_quotient(num, zero, c, p) ==> p
            == zero
}

/// The order of numbers.
#[verifier::opaque]
spec fn upto(a: Binary64, b: Binary64) -> bool {
    a.le_spec(b)
}

proof fn lemma_upto(a: Binary64, b: Binary64, c: Binary64)
    ensures
        upto(a, b) && upto(b, c) ==> upto(a, c),
        !a.is_nan_spec() ==> upto(a, a),
        !a.is_nan_spec() && !b.is_nan_spec() ==> upto(a, b) || upto(b, a),
        upto(a, b) == a.le_spec(b),
{
    reveal(upto);
}

/// No log-weight exceeds the largest one, which is one of them unless it is negative
/// infinity.
proof fn lemma_largest(values: Seq<Binary64>)
    requires
        forall|i: int| 0 <= i < values.len() ==> !(#[trigger] values[i]).is_nan_spec(),
    ensures
        !largest(values).is_nan_spec(),
        forall|i: int| 0 <= i < values.len() ==> upto(#[trigger] values[i], largest(values)),
        largest(values) == (Binary64 { bits: NEG_INFINITY_BITS }) || exists|i: int|
            0 <= i < values.len() && #[trigger] values[i] == largest(values),
    decreases values.len(),
{
    if values.len() > 0 {
        let rest = values.drop_last();
        let last = values[values.len() - 1];
        assert forall|i: int| 0 <= i < rest.len() implies !(#[trigger] rest[i]).is_nan_spec() by {
            assert(rest[i] == values[i]);
        }
        lemma_largest(rest);
        let top = largest(rest);
        assert(largest(values) == top.max_spec(last));
        lemma_max(top, last);
        assert forall|i: int| 0 <= i < values.len() implies upto(
            #[trigger] values[i],
            largest(values),
        ) by {
            if i < rest.len() {
                assert(rest[i] == values[i]);
                lemma_upto(values[i], top, largest(values));
            }
        }
        if largest(values) == top && top != (Binary64 { bits: NEG_INFINITY_BITS }) {
            let i = choose|i: int| 0 <= i < rest.len() && #[trigger] rest[i] == top;
            assert(values[i] == largest(values));
        } else if largest(values) != top {
            assert(values[values.len() - 1] == largest(values));
        }
    }
}

proof fn lemma_max(a: Binary64, b: Binary64)
    requires
        !a.is_nan_spec(),
        !b.is_nan_spec(),
    ensures
        upto(a, a.max_spec(b)),
        upto(b, a.max_spec(b)),
        a.max_spec(b) == a || a.max_spec(b) == b,
        !a.max_spec(b).is_nan_spec(),
{
    reveal(upto);
}

/// One log-weight and its parts.
proof fn lemma_weight_parts<N: Numerics>(
    num: &N,
    log_weights: Seq<Binary64>,
    relative: Seq<Binary64>,
    i: int,
) -> (d: Binary64)
    requires
        obeys_order(num),
        are_relative_weights(num, log_weights, relative),
        forall|k: int| 0 <= k < log_weights.len() ==> !(#[trigger] log_weights[k]).is_nan_spec(),
        largest(log_weights).is_finite_spec(),
        0 <= i < log_weights.len(),
    ensures
        is_difference(num, log_weights[i], largest(log_weights), d),
        is_exponential(num, d, relative[i]),
        upto(Binary64 { bits: ZERO_BITS }, relative[i]),
        upto(relative[i], Binary64 { bits: ONE_BITS }),
{
    let top = largest(log_weights);
    lemma_largest(log_weights);
    assert(is_relative_weight(num, log_weights[i], top, relative[i]));
    let d = choose|d: Binary64|
        is_difference(num, log_weights[i], top, d) && #[trigger] is_exponential(
            num,
            d,
            relative[i],
        );
    let k = lemma_attained(log_weights);
    assert(is_relative_weight(num, log_weights[k], top, relative[k]));
    let z = choose|z: Binary64|
        is_difference(num, top, top, z) && #[trigger] is_exponential(num, z, relative[k]);
    assert(z == (Binary64 { bits: ZERO_BITS }));
    lemma_upto(log_weights[i], top, top);
    assert(log_weights[i].le_spec(top));
    assert(d.le_spec(z));
    lemma_upto(Binary64 { bits: ZERO_BITS }, relative[i], relative[i]);
    lemma_upto(relative[i], Binary64 { bits: ONE_BITS }, relative[i]);
    d
}

/// The place of the largest log-weight.
proof fn lemma_attained(log_weights: Seq<Binary64>) -> (k: int)
    requires
        forall|k: int| 0 <= k < log_weights.len() ==> !(#[trigger] log_weights[k]).is_nan_spec(),
        largest(log_weights).is_finite_spec(),
    ensures
        0 <= k < log_weights.len(),
        log_weights[k] == largest(log_weights),
{
    lemma_largest(log_weights);
    choose|k: int| 0 <= k < log_weights.len() && #[trigger] log_weights[k] == largest(log_weights)
}

/// Weights lie between zero and one and keep the order of their logarithms. A weight whose
/// logarithm is negative infinity is zero.
pub proof fn law_weights_keep_order<N: Numerics>(
    num: &N,
    log_weights: Seq<Binary64>,
    r: Seq<Binary64>,
    i: int,
    j: int,
)
    requires
        obeys_order(num),
        are_normalized(num, log_weights, r),
        forall|k: int| 0 <= k < log_weights.len() ==> !(#[trigger] log_weights[k]).is_nan_spec(),
        largest(log_weights).is_finite_spec(),
        0 <= i < log_weights.len(),
        0 <= j < log_weights.len(),
    ensures
        (Binary64 { bits: ZERO_BITS }).le_spec(r[i]),
        r[i].le_spec(Binary64 { bits: ONE_BITS }),
        log_weights[i].le_spec(log_weights[j]) ==> r[i].le_spec(r[j]),
        log_weights[i] == (Binary64 { bits: NEG_INFINITY_BITS }) ==> r[i] == (Binary64 {
            bits: ZERO_BITS,
        }),
{
    let zero = Binary64 { bits: ZERO_BITS };
    let one = Binary64 { bits: ONE_BITS };
    let top = largest(log_weights);
    let (relative, total) = choose|relative: Seq<Binary64>, total: Binary64|
        {
            &&& are_relative_weights(num, log_weights, relative)
            &&& is_total(num, relative, total)
            &&& #[trigger] are_quotients(num, relative, total, r)
        };
    assert forall|k: int| 0 <= k < relative.len() implies zero.le_spec(#[trigger] relative[k])
        && relative[k].le_spec(one) by {
        let d = lemma_weight_parts(num, log_weights, relative, k);
        lemma_upto(zero, relative[k], one);
        lemma_upto(relative[k], one, one);
    }
    let k = lemma_attained(log_weights);
    let z = lemma_weight_parts(num, log_weights, relative, k);
    assert(is_difference(num, top, top, z));
    assert(relative[k] == one);
    assert(one.le_spec(total));
    let a = lemma_weight_parts(num, log_weights, relative, i);
    let b = lemma_weight_parts(num, log_weights, relative, j);
    assert(relative[i].le_spec(total));
    assert(is_quotient(num, relative[i], total, r[i]));
    assert(is_quotient(num, relative[j], total, r[j]));
    if log_weights[i].le_spec(log_weights[j]) {
        assert(a.le_spec(b));
        assert(relative[i].le_spec(relative[j]));
    }
}

/// Exponentials, totals and quotients have one result, and an exponential depends on the
/// number alone.
pub open spec fn weighs_in_one_way<N: Numerics>(num: &N) -> bool {
    &&& is_determined(num)
    &&& forall|a: Binary64, b: Binary64, p: Binary64, q: Binary64|
        {
            &&& a.same_number_spec(b)
            &&& #[trigger] is_exponential(num, a, p)
            &&& #[trigger] is_exponential(num, b, q)
        } ==> p == q
    &&& forall|values: Seq<Binary64>, p: Binary64, q: Binary64| #[trigger]
        is_total(num, values, p) && #[trigger] is_total(num, values, q) ==> p == q
}

/// The largest of some numbers that are shifted by the same amount.
proof fn lemma_shifted_largest(a: Seq<Binary64>, b: Seq<Binary64>, c: int)
    requires
        a.len() == b.len(),
        a.len() > 0,
        forall|i: int| 0 <= i < a.len() ==> (#[trigger] a[i]).is_finite_spec(),
        forall|i: int| 0 <= i < b.len() ==> (#[trigger] b[i]).is_finite_spec(),
        forall|i: int| 0 <= i < a.len() ==> #[trigger] b[i].scaled() == a[i].scaled() + c,
    ensures
        exists|i: int| 0 <= i < a.len() && #[trigger] a[i] == largest(a),
        exists|i: int| 0 <= i < b.len() && #[trigger] b[i] == largest(b),
        largest(b).scaled() == largest(a).scaled() + c,
{
    assert forall|i: int| 0 <= i < a.len() implies !(#[trigger] a[i]).is_nan_spec() by {
        assert(a[i].is_finite_spec());
    }
    assert forall|i: int| 0 <= i < b.len() implies !(#[trigger] b[i]).is_nan_spec() by {
        assert(b[i].is_finite_spec());
    }
    lemma_largest(a);
    lemma_largest(b);
    lemma_finite_largest(a);
    lemma_finite_largest(b);
    let i = choose|i: int| 0 <= i < a.len() && #[trigger] a[i] == largest(a);
    let j = choose|j: int| 0 <= j < b.len() && #[trigger] b[j] == largest(b);
    assert(upto(a[j], largest(a)));
    assert(upto(b[i], largest(b)));
    lemma_upto(a[j], largest(a), a[j]);
    lemma_upto(b[i], largest(b), b[i]);
    assert(a[j].scaled() <= largest(a).scaled());
    assert(b[i].scaled() <= largest(b).scaled());
}

/// The largest of finite numbers is one of them.
proof fn lemma_finite_largest(a: Seq<Binary64>)
    requires
        a.len() > 0,
        forall|i: int| 0 <= i < a.len() ==> (#[trigger] a[i]).is_finite_spec(),
    ensures
        largest(a).is_finite_spec(),
        exists|i: int| 0 <= i < a.len() && #[trigger] a[i] == largest(a),
    decreases a.len(),
{
    let last = a[a.len() - 1];
    let nothing = Binary64 { bits: NEG_INFINITY_BITS };
    assert(last.is_finite_spec());
    if a.len() == 1 {
        assert(largest(a.drop_last()) == nothing);
        last.lemma_above_negative_infinity();
        assert(a[0] == largest(a));
    } else {
        let rest = a.drop_last();
        assert forall|i: int| 0 <= i < rest.len() implies (#[trigger] rest[i]).is_finite_spec() by {
            assert(rest[i] == a[i]);
        }
        lemma_finite_largest(rest);
        let i = choose|i: int| 0 <= i < rest.len() && #[trigger] rest[i] == largest(rest);
        if largest(a) == largest(rest) {
            assert(a[i] == largest(a));
        } else {
            assert(a[a.len() - 1] == largest(a));
        }
    }
}

/// Where differences are exact, shifting all log-weights by the same amount leaves the
/// weights as they are.
pub proof fn law_weights_ignore_common_shift<N: Numerics>(
    num: &N,
    a: Seq<Binary64>,
    b: Seq<Binary64>,
    c: int,
    unit: int,
    bound: int,
    r: Seq<Binary64>,
    q: Seq<Binary64>,
)
    requires
        weighs_in_one_way(num),
        adds_exactly(num, unit, bound),
        a.len() == b.len(),
        forall|i: int| 0 <= i < a.len() ==> is_multiple(#[trigger] a[i], unit, bound),
        forall|i: int| 0 <= i < b.len() ==> is_multiple(#[trigger] b[i], unit, bound),
        forall|i: int| 0 <= i < a.len() ==> #[trigger] b[i].scaled() == a[i].scaled() + c,
        forall|i: int, j: int|
            0 <= i < a.len() && 0 <= j < a.len() ==> #[trigger] a[i].scaled()
                - #[trigger] a[j].scaled() <= bound,
        are_normalized(num, a, r),
        are_normalized(num, b, q),
    ensures
        r == q,
{
    let (relative, total) = choose|relative: Seq<Binary64>, total: Binary64|
        {
            &&& are_relative_weights(num, a, relative)
            &&& is_total(num, relative, total)
            &&& #[trigger] are_quotients(num, relative, total, r)
        };
    let (shifted, other_total) = choose|relative: Seq<Binary64>, total: Binary64|
        {
            &&& are_relative_weights(num, b, relative)
            &&& is_total(num, relative, total)
            &&& #[trigger] are_quotients(num, relative, total, q)
        };
    assert forall|i: int| 0 <= i < a.len() implies relative[i] == shifted[i] by {
        lemma_shifted_weight(num, a, b, c, unit, bound, i, relative[i], shifted[i]);
    }
    assert(relative =~= shifted);
    assert(total == other_total);
    assert forall|i: int| 0 <= i < r.len() implies r[i] == q[i] by {
        assert(is_quotient(num, relative[i], total, r[i]));
        assert(is_quotient(num, relative[i], total, q[i]));
    }
    assert(r =~= q);
}

proof fn lemma_shifted_weight<N: Numerics>(
    num: &N,
    a: Seq<Binary64>,
    b: Seq<Binary64>,
    c: int,
    unit: int,
    bound: int,
    i: int,
    p: Binary64,
    q: Binary64,
)
    requires
        weighs_in_one_way(num),
        adds_exactly(num, unit, bound),
        a.len() == b.len(),
        forall|i: int| 0 <= i < a.len() ==> is_multiple(#[trigger] a[i], unit, bound),
        forall|i: int| 0 <= i < b.len() ==> is_multiple(#[trigger] b[i], unit, bound),
        forall|i: int| 0 <= i < a.len() ==> #[trigger] b[i].scaled() == a[i].scaled() + c,
        forall|i: int, j: int|
            0 <= i < a.len() && 0 <= j < a.len() ==> #[trigger] a[i].scaled()
                - #[trigger] a[j].scaled() <= bound,
        0 <= i < a.len(),
        is_relative_weight(num, a[i], largest(a), p),
        is_relative_weight(num, b[i], largest(b), q),
    ensures
        p == q,
{
    assert forall|k: int| 0 <= k < a.len() implies (#[trigger] a[k]).is_finite_spec() by {
        assert(is_multiple(a[k], unit, bound));
    }
    assert forall|k: int| 0 <= k < b.len() implies (#[trigger] b[k]).is_finite_spec() by {
        assert(is_multiple(b[k], unit, bound));
    }
    lemma_shifted_largest(a, b, c);
    let m = choose|m: int| 0 <= m < a.len() && #[trigger] a[m] == largest(a);
    let n = choose|n: int| 0 <= n < b.len() && #[trigger] b[n] == largest(b);
    assert(is_multiple(a[m], unit, bound) && is_multiple(b[n], unit, bound));
    assert(is_multiple(a[i], unit, bound) && is_multiple(b[i], unit, bound));
    assert(b[i].scaled() == a[i].scaled() + c);
    assert(a[i].scaled() - a[m].scaled() <= bound);
    assert(a[m].scaled() - a[i].scaled() <= bound);
    let d = choose|d: Binary64|
        is_difference(num, a[i], largest(a), d) && #[trigger] is_exponential(num, d, p);
    let e = choose|e: Binary64|
        is_difference(num, b[i], largest(b), e) && #[trigger] is_exponential(num, e, q);
    assert(d.scaled() == a[i].scaled() - a[m].scaled());
    assert(e.scaled() == b[i].scaled() - b[n].scaled());
    assert(d.same_number_spec(e));
}

/// Where the total and the quotients are exact, the weights add up to one: to `2^1074`, in
/// the scale of [`Binary64::scaled`].
pub proof fn law_weights_add_up<N: Numerics>(
    num: &N,
    log_weights: Seq<Binary64>,
    r: Seq<Binary64>,
)
    requires
        are_normalized(num, log_weights, r),
        forall|relative: Seq<Binary64>, total: Binary64|
            are_relative_weights(num, log_weights, relative) && #[trigger] is_total(
                num,
                relative,
                total,
            ) ==> {
                &&& total.scaled() == scaled_sum(relative)
                &&& total.scaled() > 0
                &&& forall|i: int, q: Binary64|
                    0 <= i < relative.len() && #[trigger] is_quotient(
                        num,
                        relative[i],
                        total,
                        q,
                    ) ==> q.scaled() * total.scaled() == relative[i].scaled() * pow2(1074)
            },
    ensures
        scaled_sum(r) == pow2(1074),
{
    let (relative, total) = choose|relative: Seq<Binary64>, total: Binary64|
        {
            &&& are_relative_weights(num, log_weights, relative)
            &&& is_total(num, relative, total)
            &&& #[trigger] are_quotients(num, relative, total, r)
        };
    let one = pow2(1074) as int;
    let t = total.scaled();
    assert forall|i: int| 0 <= i < r.len() implies (#[trigger] r[i]).scaled() * t
        == relative[i].scaled() * one by {
        assert(is_quotient(num, relative[i], total, r[i]));
    }
    lemma_sum_of_parts(r, relative, t, one);
    let sum = scaled_sum(r);
    assert(sum * t == t * one);
    assert(sum == one) by (nonlinear_arith)
        requires
            sum * t == t * one,
            t > 0,
    ;
}

proof fn lemma_sum_of_parts(a: Seq<Binary64>, b: Seq<Binary64>, t: int, one: int)
    requires
        a.len() == b.len(),
        forall|i: int| 0 <= i < a.len() ==> (#[trigger] a[i]).scaled() * t == b[i].scaled() * one,
    ensures
        scaled_sum(a) * t == scaled_sum(b) * one,
    decreases a.len(),
{
    if a.len() > 0 {
        let c = a.drop_last();
        let d = b.drop_last();
        assert forall|i: int| 0 <= i < c.len() implies (#[trigger] c[i]).scaled() * t
            == d[i].scaled() * one by {
            assert(c[i] == a[i]);
        }
        lemma_sum_of_parts(c, d, t, one);
        let x = scaled_sum(c);
        let y = a[a.len() - 1].scaled();
        let z = scaled_sum(d);
        let w = b[b.len() - 1].scaled();
        assert(y * t == w * one);
        assert((x + y) * t == (z + w) * one) by (nonlinear_arith)
            requires
                x * t == z * one,
                y * t == w * one,
        ;
    } else {
        assert(0 * t == 0 * one);
    }
}

/// The weights before they are scaled, and their total.
pub struct WeightRecord {
    pub top: Binary64,
    pub relative: Seq<Binary64>,
    pub total: Binary64,
}

/// `r` is what the host answers to the exponential of its answer to `a - b`.
pub open spec fn is_exponential_of_difference<N: Numerics>(
    num: &N,
    a: Binary64,
    b: Binary64,
    r: Binary64,
) -> bool {
    exists|d: Binary64|
        {
            &&& call_ensures(N::minus, (num, a, b), d)
            &&& #[trigger] call_ensures(N::exp, (num, d), r)
        }
}

/// A weight is the exponential of what its log-weight exceeds the largest one by, divided by
/// the total of all these exponentials. Where quotients are exact, any two weights are to each
/// other as the exponentials are.
pub proof fn law_weights_are_exponentials<N: Numerics>(
    num: &N,
    log_weights: Seq<Binary64>,
    r: Seq<Binary64>,
) -> (w: WeightRecord)
    requires
        are_normalized(num, log_weights, r),
        log_weights.len() > 0,
        forall|k: int| 0 <= k < log_weights.len() ==> (#[trigger] log_weights[k]).is_finite_spec(),
    ensures
        r.len() == log_weights.len(),
        w.relative.len() == r.len(),
        exists|i: int| 0 <= i < log_weights.len() && #[trigger] log_weights[i] == w.top,
        forall|i: int|
            0 <= i < log_weights.len() ==> (#[trigger] log_weights[i]).le_spec(w.top),
        forall|i: int|
            0 <= i < r.len() ==> is_exponential_of_difference(
                num,
                log_weights[i],
                w.top,
                #[trigger] w.relative[i],
            ),
        exists|all: &Vec<Binary64>|
            all@ == w.relative && #[trigger] call_ensures(N::total, (num, all), w.total),
        forall|i: int|
            0 <= i < r.len() ==> call_ensures(
                N::over,
                (num, w.relative[i], w.total),
                #[trigger] r[i],
            ),
        forall|i: int, j: int|
            #![trigger r[i], r[j]]
            0 <= i < r.len() && 0 <= j < r.len() && w.total.scaled() != 0 && r[i].scaled()
                * w.total.scaled() == w.relative[i].scaled() * pow2(1074) && r[j].scaled()
                * w.total.scaled() == w.relative[j].scaled() * pow2(1074) ==> r[i].scaled()
                * w.relative[j].scaled() == r[j].scaled() * w.relative[i].scaled(),
{
    let top = largest(log_weights);
    let (relative, total) = choose|relative: Seq<Binary64>, total: Binary64|
        {
            &&& are_relative_weights(num, log_weights, relative)
            &&& is_total(num, relative, total)
            &&& #[trigger] are_quotients(num, relative, total, r)
        };
    lemma_largest(log_weights);
    assert forall|i: int| 0 <= i < log_weights.len() implies (#[trigger] log_weights[i]).le_spec(
        top,
    ) by {
        lemma_upto(log_weights[i], top, top);
    }
    if top == (Binary64 { bits: NEG_INFINITY_BITS }) {
        assert(log_weights[0].le_spec(top));
        log_weights[0].lemma_above_negative_infinity();
        assert(false);
    }
    assert forall|i: int| 0 <= i < r.len() implies is_exponential_of_difference(
        num,
        log_weights[i],
        top,
        #[trigger] relative[i],
    ) by {
        assert(is_relative_weight(num, log_weights[i], top, relative[i]));
        let d = choose|d: Binary64|
            is_difference(num, log_weights[i], top, d) && #[trigger] is_exponential(
                num,
                d,
                relative[i],
            );
        assert(call_ensures(N::exp, (num, d), relative[i]));
    }
    assert forall|i: int| 0 <= i < r.len() implies call_ensures(
        N::over,
        (num, relative[i], total),
        #[trigger] r[i],
    ) by {
        assert(is_quotient(num, relative[i], total, r[i]));
    }
    let one = pow2(1074) as int;
    let t = total.scaled();
    vstd::arithmetic::power2::lemma_pow2_pos(1074);
    assert forall|i: int, j: int|
        #![trigger r[i], r[j]]
        0 <= i < r.len() && 0 <= j < r.len() && t != 0 && r[i].scaled() * t
            == relative[i].scaled() * one && r[j].scaled() * t == relative[j].scaled()
            * one implies r[i].scaled() * relative[j].scaled() == r[j].scaled()
        * relative[i].scaled() by {
        let a = r[i].scaled();
        let b = r[j].scaled();
        let c = relative[i].scaled();
        let d = relative[j].scaled();
        assert((a * d) * one == (b * c) * one) by (nonlinear_arith)
            requires
                a * t == c * one,
                b * t == d * one,
        ;
        assert(a * d == b * c) by (nonlinear_arith)
            requires
                (a * d) * one == (b * c) * one,
                one > 0,
        ;
    }
    let w = WeightRecord { top, relative, total };
    assert(w.top == top && w.relative == relative && w.total == total);
    w
}

} // verus!
