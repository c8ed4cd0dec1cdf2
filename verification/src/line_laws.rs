//! What lines fitted to points are.
use crate::binary64::{count_number, Binary64, ZERO_BITS};
use crate::leaf_laws::{
    adds_up_exactly, computes_exactly, fits_exactly, is_exact, law_running_sums_are_exact,
    lemma_over_count, scaled_size, unit_scale,
};
use crate::numerics::{
    are_differences, are_products, is_difference, is_product, is_quotient, is_running_sum,
    is_shifted_quotient, is_sum, is_total, scaled_sum, Numerics,
};
use crate::response::{are_moments, are_scaled, is_average, is_fit, is_intercept};
use vstd::prelude::*;

verus! {

/// The sum of some whole numbers.
pub open spec fn sum_of(values: Seq<int>) -> int
    decreases values.len(),
{
    if values.len() == 0 {
        0
    } else {
        sum_of(values.drop_last()) + values.last()
    }
}

/// Numbers denote these values, in the scale of [`Binary64::scaled`].
pub open spec fn denote(numbers: Seq<Binary64>, values: Seq<int>) -> bool {
    &&& numbers.len() == values.len()
    &&& forall|i: int|
        0 <= i < numbers.len() ==> {
            &&& (#[trigger] numbers[i]).is_finite_spec()
            &&& numbers[i].scaled() == values[i]
        }
}

/// Whole numbers of units, of which all together stay within `bound` whatever their signs.
pub open spec fn are_small(values: Seq<int>, unit: int, bound: int) -> bool {
    forall|i: int|
        0 <= i < values.len() ==> {
            &&& #[trigger] values[i] % unit == 0
            &&& -bound <= values.len() * values[i] <= bound
        }
}

/// Points on a line in the scale of [`Binary64::scaled`], with all that a fit computes on the
/// way: the feature values `x` with their mean `m`, the rises `t` of the line at them with
/// their mean `tm`, and the products `p` and squares `q` of the deviations. The line has the
/// intercept `c` and the slope `d`, and the noise `e` is added.
pub struct LineRecord {
    pub x: Seq<int>,
    pub m: int,
    pub t: Seq<int>,
    pub tm: int,
    pub p: Seq<int>,
    pub q: Seq<int>,
    pub c: int,
    pub d: int,
    pub e: int,
}

impl LineRecord {
    /// The share of a tree at each point, with the noise.
    pub open spec fn shares(self) -> Seq<int> {
        Seq::new(self.x.len(), |i: int| self.c + self.t[i] + self.e)
    }

    /// All of it is a whole number of units within `bound`, and what it is said to be.
    pub open spec fn is_exact(self, unit: int, bound: int) -> bool {
        let one = unit_scale();
        let n = self.x.len();
        &&& n >= 3
        &&& self.t.len() == n
        &&& self.p.len() == n
        &&& self.q.len() == n
        &&& are_small(self.x, unit, bound)
        &&& are_small(self.shares(), unit, bound)
        &&& are_small(self.p, unit, bound)
        &&& are_small(self.q, unit, bound)
        &&& n * self.m == sum_of(self.x)
        &&& self.tm * one == self.d * self.m
        &&& fits_exactly(self.m, unit, bound)
        &&& fits_exactly(self.tm, unit, bound)
        &&& fits_exactly(self.d, unit, bound)
        &&& fits_exactly(self.e, unit, bound)
        &&& fits_exactly(self.c + self.e, unit, bound)
        &&& fits_exactly(self.c + self.tm + self.e, unit, bound)
        &&& forall|i: int|
            #![trigger self.t[i]]
            0 <= i < n ==> {
                &&& self.t[i] * one == self.d * self.x[i]
                &&& fits_exactly(self.c + self.t[i], unit, bound)
                &&& fits_exactly(self.x[i] - self.m, unit, bound)
                &&& fits_exactly(self.t[i] - self.tm, unit, bound)
                &&& self.p[i] * one == (self.x[i] - self.m) * (self.t[i] - self.tm)
                &&& self.q[i] * one == (self.x[i] - self.m) * (self.x[i] - self.m)
            }
    }
}

/// Numbers that are small enough add up exactly, one by one and in a total.
proof fn lemma_small_adds_up(numbers: Seq<Binary64>, values: Seq<int>, unit: int, bound: int)
    requires
        denote(numbers, values),
        are_small(values, unit, bound),
        unit > 0,
        bound >= 0,
    ensures
        adds_up_exactly(numbers, unit, bound),
        scaled_size(numbers) <= bound,
        scaled_sum(numbers) == sum_of(values),
{
    let n = values.len() as int;
    if n > 0 {
        assert forall|i: int| 0 <= i < n implies is_exact(
            #[trigger] numbers[i],
            unit,
            bound,
        ) by {
            lemma_small(n, values[i], bound);
            assert(values[i] % unit == 0);
        }
    }
    assert forall|k: int| 0 <= k <= numbers.len() implies fits_exactly(
        scaled_sum(#[trigger] numbers.take(k)),
        unit,
        bound,
    ) by {
        lemma_partial(numbers, values, unit, bound, k);
    }
    lemma_partial(numbers, values, unit, bound, n);
    assert(numbers.take(n) =~= numbers);
    assert(values.take(n) =~= values);
}

proof fn lemma_small(n: int, v: int, bound: int)
    requires
        n >= 1,
        -bound <= n * v <= bound,
    ensures
        -bound <= v <= bound,
{
    assert(-bound <= v <= bound) by (nonlinear_arith)
        requires
            n >= 1,
            -bound <= n * v <= bound,
            bound >= 0,
    ;
}

proof fn lemma_partial(
    numbers: Seq<Binary64>,
    values: Seq<int>,
    unit: int,
    bound: int,
    k: int,
)
    requires
        denote(numbers, values),
        are_small(values, unit, bound),
        unit > 0,
        bound >= 0,
        0 <= k <= numbers.len(),
    ensures
        scaled_sum(numbers.take(k)) == sum_of(values.take(k)),
        scaled_sum(numbers.take(k)) % unit == 0,
        -scaled_size(numbers.take(k)) <= scaled_sum(numbers.take(k)) <= scaled_size(
            numbers.take(k),
        ),
        values.len() * scaled_size(numbers.take(k)) <= k * bound,
        0 <= scaled_size(numbers.take(k)) <= bound,
    decreases k,
{
    let n = values.len() as int;
    if k > 0 {
        lemma_partial(numbers, values, unit, bound, k - 1);
        let a = numbers.take(k);
        let b = values.take(k);
        assert(a.drop_last() =~= numbers.take(k - 1));
        assert(b.drop_last() =~= values.take(k - 1));
        let v = values[k - 1];
        assert(a.last() == numbers[k - 1]);
        assert(v % unit == 0);
        let s = scaled_sum(numbers.take(k - 1));
        vstd::arithmetic::div_mod::lemma_add_mod_noop(s, v, unit);
        vstd::arithmetic::div_mod::lemma_small_mod(0, unit as nat);
        let z = scaled_size(numbers.take(k - 1));
        let w = if v < 0 {
            -v
        } else {
            v
        };
        assert(scaled_size(a) == z + w);
        assert(n * w <= bound) by (nonlinear_arith)
            requires
                w == v || w == -v,
                -bound <= n * v <= bound,
        ;
        assert(n * (z + w) <= k * bound) by (nonlinear_arith)
            requires
                n * z <= (k - 1) * bound,
                n * w <= bound,
        ;
        assert(z + w <= bound) by (nonlinear_arith)
            requires
                n * (z + w) <= k * bound,
                k <= n,
                n >= 1,
                bound >= 0,
        ;
    } else {
        assert(numbers.take(0) =~= Seq::empty());
        assert(values.take(0) =~= Seq::empty());
        assert(n * 0 == 0 && 0 * bound == 0) by (nonlinear_arith);
        vstd::arithmetic::div_mod::lemma_small_mod(0, unit as nat);
    }
}

/// What a number is after it was divided by a count and shifted by the noise.
proof fn lemma_shifted<N: Numerics>(
    num: &N,
    a: Binary64,
    n: nat,
    noise: Binary64,
    v: int,
    unit: int,
    bound: int,
    r: Binary64,
)
    requires
        computes_exactly(num, unit, bound),
        0 < n < 0x20_0000_0000_0000,
        a.is_finite_spec(),
        a.scaled() == n * v,
        is_exact(noise, unit, bound),
        fits_exactly(v, unit, bound),
        fits_exactly(v + noise.scaled(), unit, bound),
        is_shifted_quotient(num, a, count_number(n), noise, r),
    ensures
        r.is_finite_spec(),
        r.scaled() == v + noise.scaled(),
{
    let q = choose|q: Binary64|
        is_quotient(num, a, count_number(n), q) && #[trigger] is_sum(num, q, noise, r);
    assert(call_ensures(N::over, (num, a, count_number(n)), q));
    lemma_over_count(num, a, n, v, unit, bound, q);
    assert(call_ensures(N::plus, (num, q, noise), r));
}

/// The average of exact numbers.
proof fn lemma_average<N: Numerics>(
    num: &N,
    numbers: Seq<Binary64>,
    values: Seq<int>,
    mean: int,
    unit: int,
    bound: int,
    r: Binary64,
)
    requires
        computes_exactly(num, unit, bound),
        unit > 0,
        bound >= 0,
        0 < values.len() < 0x20_0000_0000_0000,
        denote(numbers, values),
        are_small(values, unit, bound),
        values.len() * mean == sum_of(values),
        fits_exactly(mean, unit, bound),
        is_average(num, numbers, r),
    ensures
        r.is_finite_spec(),
        r.scaled() == mean,
{
    let n = numbers.len();
    lemma_small_adds_up(numbers, values, unit, bound);
    let total = choose|total: Binary64|
        is_total(num, numbers, total) && #[trigger] is_quotient(num, total, count_number(n), r);
    let v = choose|v: &Vec<Binary64>|
        v@ == numbers && #[trigger] call_ensures(N::total, (num, v), total);
    assert forall|i: int| 0 <= i < v@.len() implies is_exact(#[trigger] v@[i], unit, bound) by {
        assert(is_exact(numbers[i], unit, bound));
    }
    assert(total.scaled() == scaled_sum(numbers));
    assert(call_ensures(N::over, (num, total, count_number(n)), r));
    lemma_over_count(num, total, n, mean, unit, bound, r);
}

/// The rises of a line at points add up to those at their mean.
proof fn lemma_sum_of_rises(x: Seq<int>, t: Seq<int>, d: int, one: int)
    requires
        x.len() == t.len(),
        forall|i: int| 0 <= i < x.len() ==> #[trigger] t[i] * one == d * x[i],
    ensures
        sum_of(t) * one == d * sum_of(x),
    decreases x.len(),
{
    if x.len() > 0 {
        let y = x.drop_last();
        let s = t.drop_last();
        assert forall|i: int| 0 <= i < y.len() implies #[trigger] s[i] * one == d * y[i] by {
            assert(t[i] * one == d * x[i]);
        }
        lemma_sum_of_rises(y, s, d, one);
        let n = x.len() - 1;
        assert(t[n] * one == d * x[n]);
        let a = sum_of(s);
        let b = sum_of(y);
        let u = t.last();
        let v = x.last();
        assert((a + u) * one == d * (b + v)) by (nonlinear_arith)
            requires
                a * one == d * b,
                u * one == d * v,
        ;
    } else {
        assert(0 * one == d * 0) by (nonlinear_arith);
    }
}

proof fn lemma_sum_of_shifted(t: Seq<int>, c: int, s: Seq<int>)
    requires
        s.len() == t.len(),
        forall|i: int| 0 <= i < t.len() ==> #[trigger] s[i] == c + t[i],
    ensures
        sum_of(s) == t.len() * c + sum_of(t),
    decreases t.len(),
{
    if t.len() > 0 {
        let u = t.drop_last();
        let v = s.drop_last();
        assert forall|i: int| 0 <= i < u.len() implies #[trigger] v[i] == c + u[i] by {
            assert(s[i] == c + t[i]);
        }
        lemma_sum_of_shifted(u, c, v);
        let n = t.len() as int;
        assert(s[n - 1] == c + t[n - 1]);
        assert((n - 1) * c + c == n * c) by (nonlinear_arith);
    } else {
        assert(0 * c == 0) by (nonlinear_arith);
    }
}

/// The mean of the shares, and the sums of the products and of the squares.
proof fn lemma_line_algebra(l: LineRecord, unit: int, bound: int)
    requires
        l.is_exact(unit, bound),
    ensures
        l.x.len() * (l.c + l.tm + l.e) == sum_of(l.shares()),
        l.d * sum_of(l.q) == sum_of(l.p) * unit_scale(),
{
    let one = unit_scale();
    vstd::arithmetic::power2::lemma_pow2_pos(1074);
    let n = l.x.len() as int;
    lemma_sum_of_rises(l.x, l.t, l.d, one);
    lemma_sum_of_shifted(l.t, l.c + l.e, l.shares());
    let a = sum_of(l.t);
    let b = sum_of(l.x);
    assert(a == n * l.tm) by (nonlinear_arith)
        requires
            a * one == l.d * b,
            n * l.m == b,
            l.tm * one == l.d * l.m,
            one > 0,
    ;
    assert(n * (l.c + l.tm + l.e) == n * (l.c + l.e) + n * l.tm) by (nonlinear_arith);
    assert forall|i: int| 0 <= i < n implies #[trigger] l.p[i] * one == l.d * l.q[i] by {
        let t = l.t[i];
        let u = l.x[i] - l.m;
        let v = t - l.tm;
        let p = l.p[i];
        let q = l.q[i];
        assert(v * one == l.d * u) by (nonlinear_arith)
            requires
                v == t - l.tm,
                u == l.x[i] - l.m,
                t * one == l.d * l.x[i],
                l.tm * one == l.d * l.m,
        ;
        assert((p * one) * one == (l.d * q) * one) by (nonlinear_arith)
            requires
                p * one == u * v,
                q * one == u * u,
                v * one == l.d * u,
        ;
        assert(p * one == l.d * q) by (nonlinear_arith)
            requires
                (p * one) * one == (l.d * q) * one,
                one > 0,
        ;
    }
    lemma_sum_of_rises(l.q, l.p, l.d, one);
}

/// Products of exact numbers.
proof fn lemma_product<N: Numerics>(
    num: &N,
    a: Binary64,
    b: Binary64,
    v: int,
    unit: int,
    bound: int,
    r: Binary64,
)
    requires
        computes_exactly(num, unit, bound),
        is_exact(a, unit, bound),
        is_exact(b, unit, bound),
        v * unit_scale() == a.scaled() * b.scaled(),
        fits_exactly(v, unit, bound),
        is_product(num, a, b, r),
    ensures
        r.is_finite_spec(),
        r.scaled() == v,
{
    assert(call_ensures(N::times, (num, a, b), r));
}

/// A fit divides the numbers of the forest among the trees: where the arithmetic is exact,
/// the line fitted to three or more points of `y = n_trees * (c + d * x)`, not all above each
/// other, has the slope `d`, and the intercept `c` plus the noise. So each tree answers its
/// share, whatever the number of trees.
pub proof fn law_fit_recovers_the_line<N: Numerics>(
    num: &N,
    x: Seq<Binary64>,
    y: Seq<Binary64>,
    noise: Binary64,
    n_trees: nat,
    a: Binary64,
    b: Binary64,
    l: LineRecord,
    unit: int,
    bound: int,
)
    requires
        is_fit(num, x, y, noise, n_trees, a, b),
        computes_exactly(num, unit, bound),
        unit > 0,
        bound >= 0,
        l.is_exact(unit, bound),
        denote(x, l.x),
        y.len() == x.len(),
        forall|i: int|
            0 <= i < y.len() ==> {
                &&& (#[trigger] y[i]).is_finite_spec()
                &&& y[i].scaled() == n_trees * (l.c + l.t[i])
            },
        noise.is_finite_spec(),
        noise.scaled() == l.e,
        x.len() < 0x20_0000_0000_0000,
        0 < n_trees < 0x20_0000_0000_0000,
        sum_of(l.q) != 0,
    ensures
        b.scaled() == l.d,
        a.scaled() == l.c + l.e,
{
    let zero = Binary64 { bits: ZERO_BITS };
    let n = x.len() as int;
    let (scaled, x_mean, y_mean, top, bottom) = choose|
        scaled: Seq<Binary64>,
        x_mean: Binary64,
        y_mean: Binary64,
        top: Binary64,
        bottom: Binary64,
    |
        {
            &&& are_scaled(num, y, n_trees, noise, scaled)
            &&& is_average(num, x, x_mean)
            &&& is_average(num, scaled, y_mean)
            &&& #[trigger] are_moments(num, x, scaled, x_mean, y_mean, top, bottom)
            &&& if bottom.same_number_spec(zero) {
                &&& is_shifted_quotient(num, y_mean, count_number(n_trees), noise, a)
                &&& b == zero
            } else {
                &&& is_quotient(num, top, bottom, b)
                &&& is_intercept(num, x_mean, y_mean, b, a)
            }
        };
    let shares = l.shares();
    assert forall|i: int| 0 <= i < n implies {
        &&& (#[trigger] scaled[i]).is_finite_spec()
        &&& scaled[i].scaled() == shares[i]
    } by {
        assert(is_shifted_quotient(num, y[i], count_number(n_trees), noise, scaled[i]));
        let v = l.c + l.t[i];
        lemma_small(n, shares[i], bound);
        assert(shares[i] % unit == 0);
        lemma_shifted(num, y[i], n_trees, noise, v, unit, bound, scaled[i]);
    }
    assert(denote(scaled, shares));
    lemma_line_algebra(l, unit, bound);
    lemma_average(num, x, l.x, l.m, unit, bound, x_mean);
    lemma_average(num, scaled, shares, l.c + l.tm + l.e, unit, bound, y_mean);
    let (dx, dy, p, q) = choose|
        dx: Seq<Binary64>,
        dy: Seq<Binary64>,
        p: Seq<Binary64>,
        q: Seq<Binary64>,
    |
        {
            &&& #[trigger] are_differences(num, x, x_mean, dx)
            &&& #[trigger] are_differences(num, scaled, y_mean, dy)
            &&& #[trigger] are_products(num, dx, dy, p)
            &&& #[trigger] are_products(num, dx, dx, q)
            &&& is_running_sum(num, p, top)
            &&& is_running_sum(num, q, bottom)
        };
    assert forall|i: int| 0 <= i < n implies {
        &&& (#[trigger] p[i]).is_finite_spec()
        &&& p[i].scaled() == l.p[i]
        &&& q[i].is_finite_spec()
        &&& q[i].scaled() == l.q[i]
    } by {
        let t = l.t[i];
        assert(is_difference(num, x[i], x_mean, dx[i]));
        assert(is_difference(num, scaled[i], y_mean, dy[i]));
        assert(x[i].scaled() == l.x[i]);
        assert(l.x[i] % unit == 0);
        lemma_small(n, l.x[i], bound);
        assert(scaled[i].scaled() == shares[i]);
        assert(shares[i] % unit == 0);
        lemma_small(n, shares[i], bound);
        assert(call_ensures(N::minus, (num, x[i], x_mean), dx[i]));
        assert(call_ensures(N::minus, (num, scaled[i], y_mean), dy[i]));
        assert(dx[i].scaled() == l.x[i] - l.m);
        assert(dy[i].scaled() == t - l.tm);
        assert(l.p[i] % unit == 0);
        lemma_small(n, l.p[i], bound);
        assert(l.q[i] % unit == 0);
        lemma_small(n, l.q[i], bound);
        assert(is_product(num, dx[i], dy[i], p[i]));
        assert(is_product(num, dx[i], dx[i], q[i]));
        lemma_product(num, dx[i], dy[i], l.p[i], unit, bound, p[i]);
        lemma_product(num, dx[i], dx[i], l.q[i], unit, bound, q[i]);
    }
    assert(denote(p, l.p));
    assert(denote(q, l.q)) by {
        assert forall|i: int| 0 <= i < q.len() implies {
            &&& (#[trigger] q[i]).is_finite_spec()
            &&& q[i].scaled() == l.q[i]
        } by {
            assert(p[i].is_finite_spec());
        }
    }
    lemma_small_adds_up(p, l.p, unit, bound);
    lemma_small_adds_up(q, l.q, unit, bound);
    law_running_sums_are_exact(num, p, unit, bound, top);
    law_running_sums_are_exact(num, q, unit, bound, bottom);
    assert(zero.scaled() == 0);
    assert(call_ensures(N::over, (num, top, bottom), b));
    assert(b.scaled() == l.d);
    let rise = choose|rise: Binary64|
        is_product(num, b, x_mean, rise) && #[trigger] is_difference(num, y_mean, rise, a);
    lemma_product(num, b, x_mean, l.tm, unit, bound, rise);
    assert(call_ensures(N::minus, (num, y_mean, rise), a));
}

/// Fewer than three points get a level line, where the arithmetic is exact: the mean of their
/// numbers, divided by the number of trees, plus the noise.
pub proof fn law_few_points_get_a_level_line<N: Numerics>(
    num: &N,
    x: Seq<Binary64>,
    y: Seq<Binary64>,
    values: Seq<int>,
    noise: Binary64,
    n_trees: nat,
    a: Binary64,
    b: Binary64,
    mean: int,
    share: int,
    unit: int,
    bound: int,
)
    requires
        is_fit(num, x, y, noise, n_trees, a, b),
        computes_exactly(num, unit, bound),
        unit > 0,
        bound >= 0,
        0 < y.len() < 3,
        0 < n_trees < 0x20_0000_0000_0000,
        denote(y, values),
        are_small(values, unit, bound),
        values.len() * mean == sum_of(values),
        n_trees * share == mean,
        fits_exactly(mean, unit, bound),
        fits_exactly(share, unit, bound),
        is_exact(noise, unit, bound),
        fits_exactly(share + noise.scaled(), unit, bound),
    ensures
        b.scaled() == 0,
        a.scaled() == share + noise.scaled(),
{
    let m = choose|m: Binary64|
        is_average(num, y, m) && #[trigger] is_shifted_quotient(
            num,
            m,
            count_number(n_trees),
            noise,
            a,
        );
    lemma_average(num, y, values, mean, unit, bound, m);
    lemma_shifted(num, m, n_trees, noise, share, unit, bound, a);
}

/// Points that stand above each other get a level line, where the arithmetic is exact: the
/// mean of their shares, divided by the number of trees once more, plus the noise once more.
pub proof fn law_stacked_points_get_a_level_line<N: Numerics>(
    num: &N,
    x: Seq<Binary64>,
    y: Seq<Binary64>,
    at: int,
    shares: Seq<int>,
    noise: Binary64,
    n_trees: nat,
    a: Binary64,
    b: Binary64,
    mean: int,
    part: int,
    unit: int,
    bound: int,
)
    requires
        is_fit(num, x, y, noise, n_trees, a, b),
        computes_exactly(num, unit, bound),
        unit > 0,
        bound >= 0,
        x.len() == y.len(),
        3 <= y.len() < 0x20_0000_0000_0000,
        0 < n_trees < 0x20_0000_0000_0000,
        forall|i: int|
            0 <= i < x.len() ==> (#[trigger] x[i]).is_finite_spec() && x[i].scaled() == at,
        at % unit == 0,
        -bound <= x.len() * at <= bound,
        shares.len() == y.len(),
        forall|i: int|
            0 <= i < y.len() ==> {
                &&& (#[trigger] y[i]).is_finite_spec()
                &&& y[i].scaled() == n_trees * shares[i]
                &&& fits_exactly(shares[i], unit, bound)
            },
        is_exact(noise, unit, bound),
        are_small(Seq::new(shares.len(), |i: int| shares[i] + noise.scaled()), unit, bound),
        shares.len() * (mean - noise.scaled()) == sum_of(shares),
        n_trees * part == mean,
        fits_exactly(mean, unit, bound),
        forall|i: int|
            0 <= i < y.len() ==> fits_exactly(
                #[trigger] shares[i] + noise.scaled() - mean,
                unit,
                bound,
            ),
        fits_exactly(part, unit, bound),
        fits_exactly(part + noise.scaled(), unit, bound),
    ensures
        b.scaled() == 0,
        a.scaled() == part + noise.scaled(),
{
    let zero = Binary64 { bits: ZERO_BITS };
    let n = x.len() as int;
    let e = noise.scaled();
    assert(zero.scaled() == 0);
    let (scaled, x_mean, y_mean, top, bottom) = choose|
        scaled: Seq<Binary64>,
        x_mean: Binary64,
        y_mean: Binary64,
        top: Binary64,
        bottom: Binary64,
    |
        {
            &&& are_scaled(num, y, n_trees, noise, scaled)
            &&& is_average(num, x, x_mean)
            &&& is_average(num, scaled, y_mean)
            &&& #[trigger] are_moments(num, x, scaled, x_mean, y_mean, top, bottom)
            &&& if bottom.same_number_spec(zero) {
                &&& is_shifted_quotient(num, y_mean, count_number(n_trees), noise, a)
                &&& b == zero
            } else {
                &&& is_quotient(num, top, bottom, b)
                &&& is_intercept(num, x_mean, y_mean, b, a)
            }
        };
    let same = Seq::new(x.len(), |i: int| at);
    lemma_sum_of_shifted(Seq::new(x.len(), |i: int| 0int), at, same);
    lemma_sum_of_zeros(x.len());
    lemma_small(n, at, bound);
    lemma_average(num, x, same, at, unit, bound, x_mean);
    let noisy = Seq::new(shares.len(), |i: int| shares[i] + e);
    assert forall|i: int| 0 <= i < n implies {
        &&& (#[trigger] scaled[i]).is_finite_spec()
        &&& scaled[i].scaled() == noisy[i]
    } by {
        assert(is_shifted_quotient(num, y[i], count_number(n_trees), noise, scaled[i]));
        lemma_small(n, noisy[i], bound);
        assert(noisy[i] % unit == 0);
        lemma_shifted(num, y[i], n_trees, noise, shares[i], unit, bound, scaled[i]);
    }
    assert forall|i: int| 0 <= i < shares.len() implies #[trigger] noisy[i] == e + shares[i] by {}
    lemma_sum_of_shifted(shares, e, noisy);
    assert(n * mean == n * e + n * (mean - e)) by (nonlinear_arith);
    lemma_average(num, scaled, noisy, mean, unit, bound, y_mean);
    let (dx, dy, p, q) = choose|
        dx: Seq<Binary64>,
        dy: Seq<Binary64>,
        p: Seq<Binary64>,
        q: Seq<Binary64>,
    |
        {
            &&& #[trigger] are_differences(num, x, x_mean, dx)
            &&& #[trigger] are_differences(num, scaled, y_mean, dy)
            &&& #[trigger] are_products(num, dx, dy, p)
            &&& #[trigger] are_products(num, dx, dx, q)
            &&& is_running_sum(num, p, top)
            &&& is_running_sum(num, q, bottom)
        };
    let zeros = Seq::new(x.len(), |i: int| 0int);
    assert(0int % unit == 0) by {
        vstd::arithmetic::div_mod::lemma_small_mod(0, unit as nat);
    }
    assert forall|i: int| 0 <= i < n implies {
        &&& (#[trigger] q[i]).is_finite_spec()
        &&& q[i].scaled() == zeros[i]
    } by {
        assert(is_difference(num, x[i], x_mean, dx[i]));
        assert(call_ensures(N::minus, (num, x[i], x_mean), dx[i]));
        assert(dx[i].scaled() == 0);
        assert(is_product(num, dx[i], dx[i], q[i]));
        assert(0 * unit_scale() == 0 * 0);
        lemma_product(num, dx[i], dx[i], 0, unit, bound, q[i]);
    }
    assert(denote(q, zeros));
    assert forall|i: int| 0 <= i < zeros.len() implies {
        &&& #[trigger] zeros[i] % unit == 0
        &&& -bound <= zeros.len() * zeros[i] <= bound
    } by {
        assert(zeros.len() * 0 == 0);
    }
    lemma_small_adds_up(q, zeros, unit, bound);
    law_running_sums_are_exact(num, q, unit, bound, bottom);
    assert(bottom.scaled() == 0);
    assert(bottom.same_number_spec(zero));
    lemma_shifted(num, y_mean, n_trees, noise, part, unit, bound, a);
}

proof fn lemma_sum_of_zeros(n: nat)
    ensures
        sum_of(Seq::new(n, |i: int| 0int)) == 0,
    decreases n,
{
    let zeros = Seq::new(n, |i: int| 0int);
    if n > 0 {
        lemma_sum_of_zeros((n - 1) as nat);
        assert(zeros.drop_last() =~= Seq::new((n - 1) as nat, |i: int| 0int));
    }
}

} // verus!
