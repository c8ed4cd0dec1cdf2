//! Double-precision numbers held by their bit patterns.
//!
//! The sampler stores, compares and counts with IEEE 754 binary64 numbers. Everything
//! that only needs to know which number a bit pattern denotes is done here with integers;
//! rounded arithmetic is asked of a [`crate::numerics::Numerics`].
use vstd::arithmetic::power2::{
    lemma2_to64, lemma2_to64_rest, lemma_pow2_adds, lemma_pow2_pos, lemma_pow2_strictly_increases,
    lemma_pow2_unfold, pow2,
};
use vstd::prelude::*;

verus! {

/// A binary64 number. `bits` is the interchange encoding: one sign bit, eleven exponent
/// bits, fifty-two fraction bits.
#[derive(Clone, Copy, Debug, PartialEq, Eq, Structural)]
pub struct Binary64 {
    pub bits: u64,
}

/// `2^63`, the place of the sign bit.
pub const SIGN_BIT: u64 = 0x8000_0000_0000_0000;

/// `2^52`, the place of the lowest exponent bit and of the implicit leading bit.
pub const IMPLICIT_BIT: u64 = 0x10_0000_0000_0000;

/// The encoding of positive infinity. A larger magnitude encodes a NaN.
pub const INFINITY_BITS: u64 = 0x7ff0_0000_0000_0000;

/// The exponent field at which the unit of the significand is one.
pub const UNIT_EXPONENT: u64 = 1075;

/// The encoding of positive zero.
pub const ZERO_BITS: u64 = 0;

/// The encoding of one.
pub const ONE_BITS: u64 = 0x3ff0_0000_0000_0000;

/// The encoding of the quiet NaN that marks an absent value.
pub const NAN_BITS: u64 = 0x7ff8_0000_0000_0000;

impl Binary64 {
    /// The encoding without its sign bit.
    pub open spec fn magnitude(self) -> int {
        self.bits as int % 0x8000_0000_0000_0000
    }

    pub open spec fn is_negative_spec(self) -> bool {
        self.bits >= 0x8000_0000_0000_0000
    }

    pub open spec fn is_nan_spec(self) -> bool {
        self.magnitude() > 0x7ff0_0000_0000_0000
    }

    pub open spec fn is_finite_spec(self) -> bool {
        self.magnitude() < 0x7ff0_0000_0000_0000
    }

    /// The number denoted, in units of `2^-1074`, the least positive number. The
    /// infinities come out beyond every finite number, on their own side. Means nothing
    /// for a NaN.
    pub open spec fn scaled(self) -> int {
        if self.is_negative_spec() {
            -scaled_magnitude(self.magnitude())
        } else {
            scaled_magnitude(self.magnitude())
        }
    }

    /// `self <= other` as numbers; a NaN is not ordered.
    pub open spec fn le_spec(self, other: Binary64) -> bool {
        !self.is_nan_spec() && !other.is_nan_spec() && self.scaled() <= other.scaled()
    }

    /// `self < other` as numbers; a NaN is not ordered.
    pub open spec fn lt_spec(self, other: Binary64) -> bool {
        !self.is_nan_spec() && !other.is_nan_spec() && self.scaled() < other.scaled()
    }

    /// Both denote the same number. The two zeros do; a NaN equals nothing.
    pub open spec fn same_number_spec(self, other: Binary64) -> bool {
        !self.is_nan_spec() && !other.is_nan_spec() && self.scaled() == other.scaled()
    }

    /// A finite number without a fractional part.
    pub open spec fn is_whole_spec(self) -> bool {
        self.is_finite_spec() && self.scaled() % (pow2(1074) as int) == 0
    }

    /// The larger of two numbers, or the one that is no NaN.
    pub open spec fn max_spec(self, other: Binary64) -> Binary64 {
        if self.is_nan_spec() || self.lt_spec(other) {
            other
        } else {
            self
        }
    }

    /// The same magnitude under the other sign.
    pub open spec fn negated_spec(self) -> Binary64 {
        if self.is_negative_spec() {
            Binary64 { bits: (self.bits - 0x8000_0000_0000_0000) as u64 }
        } else {
            Binary64 { bits: (self.bits + 0x8000_0000_0000_0000) as u64 }
        }
    }

    /// The nearest integer, halves away from zero, held to the range of `usize`. Zero for
    /// a NaN.
    pub open spec fn round_to_usize_spec(self) -> int {
        if self.is_nan_spec() || self.scaled() <= 0 {
            0
        } else {
            let nearest = (2 * self.scaled() + pow2(1074)) / (pow2(1075) as int);
            if nearest <= usize::MAX {
                nearest
            } else {
                usize::MAX as int
            }
        }
    }
}

/// What a magnitude denotes, in units of `2^-1074`: subnormal when the exponent field is
/// zero, otherwise with the implicit leading bit.
pub open spec fn scaled_magnitude(magnitude: int) -> int {
    let exponent = magnitude / 0x10_0000_0000_0000;
    let fraction = magnitude % 0x10_0000_0000_0000;
    if exponent == 0 {
        fraction
    } else {
        (0x10_0000_0000_0000 + fraction) * pow2((exponent - 1) as nat)
    }
}

/// Larger encodings denote larger numbers.
proof fn lemma_scaled_magnitude_increases(a: int, b: int)
    requires
        0 <= a < b,
    ensures
        scaled_magnitude(a) < scaled_magnitude(b),
{
    let ea = a / 0x10_0000_0000_0000;
    let eb = b / 0x10_0000_0000_0000;
    let fa = a % 0x10_0000_0000_0000;
    let fb = b % 0x10_0000_0000_0000;
    lemma2_to64();
    if ea == eb {
        assert(fa < fb);
        if ea > 0 {
            let p = pow2((ea - 1) as nat) as int;
            lemma_pow2_pos((ea - 1) as nat);
            assert((0x10_0000_0000_0000 + fa) * p < (0x10_0000_0000_0000 + fb) * p)
                by (nonlinear_arith)
                requires
                    fa < fb,
                    p > 0,
            ;
        }
    } else {
        assert(ea < eb);
        let q = pow2((eb - 1) as nat) as int;
        lemma_pow2_pos((eb - 1) as nat);
        assert(scaled_magnitude(b) >= 0x10_0000_0000_0000 * q) by (nonlinear_arith)
            requires
                scaled_magnitude(b) == (0x10_0000_0000_0000 + fb) * q,
                fb >= 0,
                q > 0,
        ;
        if ea == 0 {
            assert(0x10_0000_0000_0000 * q >= 0x10_0000_0000_0000) by (nonlinear_arith)
                requires
                    q > 0,
            ;
        } else {
            let p = pow2((ea - 1) as nat) as int;
            lemma_pow2_pos((ea - 1) as nat);
            assert((0x10_0000_0000_0000 + fa) * p < 0x20_0000_0000_0000 * p) by (nonlinear_arith)
                requires
                    fa < 0x10_0000_0000_0000,
                    p > 0,
            ;
            lemma_pow2_unfold(ea as nat);
            assert(pow2(ea as nat) == 2 * p);
            if ea < eb - 1 {
                lemma_pow2_strictly_increases(ea as nat, (eb - 1) as nat);
            }
            assert(2 * p <= q);
        }
    }
}

/// The order of encodings is the order of the numbers they denote.
proof fn lemma_scaled_magnitude_order(a: int, b: int)
    requires
        0 <= a,
        0 <= b,
    ensures
        a < b <==> scaled_magnitude(a) < scaled_magnitude(b),
        a == b <==> scaled_magnitude(a) == scaled_magnitude(b),
        a == 0 ==> scaled_magnitude(a) == 0,
        scaled_magnitude(a) >= 0,
        a > 0 ==> scaled_magnitude(a) > 0,
{
    if a < b {
        lemma_scaled_magnitude_increases(a, b);
    } else if b < a {
        lemma_scaled_magnitude_increases(b, a);
    }
    if a > 0 {
        lemma_scaled_magnitude_increases(0, a);
    }
}

impl Binary64 {
    /// Only the encodings without magnitude denote zero.
    pub proof fn lemma_zero_has_no_magnitude(self)
        ensures
            self.scaled() == 0 <==> self.magnitude() == 0,
    {
        lemma_scaled_magnitude_order(self.magnitude(), 0);
    }

    /// Every finite number lies above negative infinity.
    pub proof fn lemma_above_negative_infinity(self)
        requires
            self.is_finite_spec(),
        ensures
            (Binary64 { bits: 0xfff0_0000_0000_0000 }).lt_spec(self),
    {
        let nothing = Binary64 { bits: 0xfff0_0000_0000_0000 };
        lemma_scaled_magnitude_order(self.magnitude(), nothing.magnitude());
        lemma_scaled_magnitude_order(nothing.magnitude(), self.magnitude());
    }

    /// The number with the given encoding.
    pub fn from_bits(bits: u64) -> (r: Binary64)
        ensures
            r.bits == bits,
    {
        Binary64 { bits }
    }

    pub fn to_bits(self) -> (r: u64)
        ensures
            r == self.bits,
    {
        self.bits
    }

    /// The encoding as an integer that orders as the number does: the magnitude, negated
    /// when the sign bit is set.
    fn rank(self) -> (r: i64)
        ensures
            -0x8000_0000_0000_0000 < r,
            r == if self.is_negative_spec() { -self.magnitude() } else { self.magnitude() },
    {
        if self.bits >= SIGN_BIT {
            -((self.bits - SIGN_BIT) as i64)
        } else {
            self.bits as i64
        }
    }

    pub fn is_nan(self) -> (r: bool)
        ensures
            r == self.is_nan_spec(),
    {
        self.bits % SIGN_BIT > INFINITY_BITS
    }

    proof fn lemma_rank_order(self, other: Binary64)
        ensures
            ({
                let a = if self.is_negative_spec() { -self.magnitude() } else { self.magnitude() };
                let b = if other.is_negative_spec() { -other.magnitude() } else { other.magnitude() };
                &&& a < b <==> self.scaled() < other.scaled()
                &&& a == b <==> self.scaled() == other.scaled()
            }),
    {
        lemma_scaled_magnitude_order(self.magnitude(), other.magnitude());
        lemma_scaled_magnitude_order(other.magnitude(), self.magnitude());
    }

    /// `self <= other`.
    pub fn le(self, other: Binary64) -> (r: bool)
        ensures
            r == self.le_spec(other),
    {
        proof {
            self.lemma_rank_order(other);
        }
        !self.is_nan() && !other.is_nan() && self.rank() <= other.rank()
    }

    /// `self < other`.
    pub fn lt(self, other: Binary64) -> (r: bool)
        ensures
            r == self.lt_spec(other),
    {
        proof {
            self.lemma_rank_order(other);
        }
        !self.is_nan() && !other.is_nan() && self.rank() < other.rank()
    }

    /// `self == other` as numbers.
    pub fn same_number(self, other: Binary64) -> (r: bool)
        ensures
            r == self.same_number_spec(other),
    {
        proof {
            self.lemma_rank_order(other);
        }
        !self.is_nan() && !other.is_nan() && self.rank() == other.rank()
    }

    /// The larger of two numbers, or the one that is no NaN.
    pub fn max(self, other: Binary64) -> (r: Binary64)
        ensures
            r == self.max_spec(other),
    {
        if self.is_nan() || self.lt(other) {
            other
        } else {
            self
        }
    }
}

/// The least power of two of which `n` counts fewer than `2^53`: the unit to which `n` is
/// rounded.
pub open spec fn rounding_unit(n: nat) -> nat
    decreases n,
{
    if n < 0x20_0000_0000_0000 {
        1
    } else {
        2 * rounding_unit(n / 2)
    }
}

/// The multiple of the rounding unit nearest to `n`, the even one when two are as near.
pub open spec fn rounded_count(n: nat) -> nat {
    let unit = rounding_unit(n);
    let below = n / unit;
    let rest = n % unit;
    if 2 * rest > unit || (2 * rest == unit && below % 2 == 1) {
        (below + 1) * unit
    } else {
        below * unit
    }
}

/// The number nearest to the count `n`.
pub open spec fn count_number(n: nat) -> Binary64 {
    choose|r: Binary64| r.is_count(n)
}

/// A count below `2^53` is kept as it is.
pub proof fn lemma_small_count_is_exact(n: nat)
    requires
        n < 0x20_0000_0000_0000,
    ensures
        rounded_count(n) == n,
{
    assert(n / 1 == n && n % 1 == 0 && n * 1 == n);
}

impl Binary64 {
    /// `self` is the number nearest to the count `n`.
    pub open spec fn is_count(self, n: nat) -> bool {
        &&& self.is_finite_spec()
        &&& !self.is_negative_spec()
        &&& self.scaled() == rounded_count(n) * pow2(1074)
    }

    /// A count has one nearest number.
    pub proof fn lemma_count_is_unique(self, other: Binary64, n: nat)
        requires
            self.is_count(n),
            other.is_count(n),
        ensures
            self == other,
    {
        lemma_scaled_magnitude_order(self.magnitude(), other.magnitude());
    }

    /// The number nearest to a count.
    pub fn from_count(n: usize) -> (r: Binary64)
        ensures
            r.is_count(n as nat),
            r == count_number(n as nat),
    {
        let r = Self::nearest_to_count(n);
        proof {
            count_number(n as nat).lemma_count_is_unique(r, n as nat);
        }
        r
    }

    fn nearest_to_count(n: usize) -> (r: Binary64)
        ensures
            r.is_count(n as nat),
    {
        if n == 0 {
            proof {
                lemma_small_count_is_exact(0);
            }
            assert(rounded_count(0) * pow2(1074) == 0) by (nonlinear_arith)
                requires
                    rounded_count(0) == 0,
            ;
            return Binary64 { bits: ZERO_BITS };
        }
        let n64: u64 = n as u64;
        let mut below: u64 = n64;
        let mut unit: u64 = 1;
        let mut exponent: u64 = UNIT_EXPONENT;
        proof {
            lemma2_to64();
            assert(n64 as nat / 1 == n64);
        }
        while below >= 0x20_0000_0000_0000
            invariant
                1 <= n64,
                below == n64 as int / unit as int,
                1 <= below,
                1 <= unit,
                rounding_unit(n64 as nat) == unit * rounding_unit(below as nat),
                UNIT_EXPONENT <= exponent,
                exponent <= UNIT_EXPONENT + 64,
                unit == pow2((exponent - UNIT_EXPONENT) as nat),
                unit * below <= n64,
                unit > 1 ==> below >= 0x10_0000_0000_0000,
            decreases below,
        {
            proof {
                assert(unit as int * 0x20_0000_0000_0000 <= n64) by (nonlinear_arith)
                    requires
                        unit * below <= n64,
                        below >= 0x20_0000_0000_0000,
                        unit >= 1,
                ;
                lemma_pow2_unfold((exponent + 1 - UNIT_EXPONENT) as nat);
                vstd::arithmetic::div_mod::lemma_div_denominator(n64 as int, unit as int, 2);
                assert(unit as int * 2 == 2 * unit);
                let half = rounding_unit(below as nat / 2);
                assert(unit * (2 * half) == (2 * unit) * half) by (nonlinear_arith);
                assert((2 * unit) * (below as int / 2) <= unit * below) by (nonlinear_arith)
                    requires
                        2 * (below as int / 2) <= below,
                        unit >= 1,
                ;
                if exponent == UNIT_EXPONENT + 64 {
                    lemma2_to64();
                    assert(false);
                }
            }
            below = below / 2;
            unit = unit * 2;
            exponent = exponent + 1;
        }
        let rest: u64 = n64 % unit;
        proof {
            assert(unit * 1 == unit);
            assert(rounding_unit(n64 as nat) == unit);
            if exponent > UNIT_EXPONENT {
                lemma_pow2_strictly_increases(0, (exponent - UNIT_EXPONENT) as nat);
            }
            if unit > 1 {
                assert(unit * 0x10_0000_0000_0000 <= n64) by (nonlinear_arith)
                    requires
                        unit * below <= n64,
                        below >= 0x10_0000_0000_0000,
                ;
            }
        }
        let mut significand: u64 = if 2 * rest > unit || (2 * rest == unit && below % 2 == 1) {
            below + 1
        } else {
            below
        };
        let ghost count = rounded_count(n as nat);
        proof {
            assert(count == significand * unit);
            lemma_pow2_adds((exponent - UNIT_EXPONENT) as nat, 1074);
            let (a, b, c) = (significand as int, unit as int, pow2(1074) as int);
            assert(a * (b * c) == (a * b) * c) by (nonlinear_arith);
        }
        while significand < IMPLICIT_BIT
            invariant
                1 <= significand <= 0x20_0000_0000_0000,
                1023 <= exponent <= UNIT_EXPONENT + 64,
                exponent >= UNIT_EXPONENT || significand >= pow2((UNIT_EXPONENT - exponent) as nat),
                exponent > UNIT_EXPONENT ==> significand >= IMPLICIT_BIT,
                significand * pow2((exponent - 1) as nat) == count * pow2(1074),
            decreases exponent,
        {
            proof {
                lemma2_to64();
                if exponent == 1023 {
                    lemma2_to64_rest();
                    assert(pow2(52) == 0x10_0000_0000_0000);
                    assert(false);
                }
                lemma_pow2_unfold((exponent - 1) as nat);
                lemma_pow2_unfold((UNIT_EXPONENT - exponent + 1) as nat);
                let (a, b) = (significand as int, pow2((exponent - 2) as nat) as int);
                assert((2 * a) * b == a * (2 * b)) by (nonlinear_arith);
            }
            significand = significand * 2;
            exponent = exponent - 1;
        }
        let bits: u64 = (significand - IMPLICIT_BIT) + exponent * IMPLICIT_BIT;
        proof {
            let field = bits as int / 0x10_0000_0000_0000;
            if significand == 0x20_0000_0000_0000 {
                assert(field == exponent + 1);
                lemma_pow2_unfold(exponent as nat);
                let b = pow2((exponent - 1) as nat) as int;
                assert(0x10_0000_0000_0000 * (2 * b) == 0x20_0000_0000_0000 * b) by (nonlinear_arith);
            } else {
                assert(field == exponent);
            }
        }
        Binary64 { bits }
    }

    /// The number with its sign changed.
    pub fn negated(self) -> (r: Binary64)
        ensures
            r == self.negated_spec(),
    {
        if self.bits >= SIGN_BIT {
            Binary64 { bits: self.bits - SIGN_BIT }
        } else {
            Binary64 { bits: self.bits + SIGN_BIT }
        }
    }
}

/// The number with this significand and exponent.
proof fn lemma_number_of_parts(value: nat, significand: u64, exponent: u64) -> (r: Binary64)
    requires
        1 <= significand <= 0x20_0000_0000_0000,
        1023 <= exponent <= UNIT_EXPONENT + 64,
        exponent >= UNIT_EXPONENT || significand >= pow2((UNIT_EXPONENT - exponent) as nat),
        exponent > UNIT_EXPONENT ==> significand >= IMPLICIT_BIT,
        significand * pow2((exponent - 1) as nat) == value,
    ensures
        r.is_finite_spec(),
        !r.is_negative_spec(),
        r.scaled() == value,
    decreases exponent,
{
    if significand < IMPLICIT_BIT {
        lemma2_to64();
        if exponent == 1023 {
            lemma2_to64_rest();
            assert(pow2(52) == 0x10_0000_0000_0000);
            assert(false);
        }
        lemma_pow2_unfold((exponent - 1) as nat);
        lemma_pow2_unfold((UNIT_EXPONENT - exponent + 1) as nat);
        let (a, b) = (significand as int, pow2((exponent - 2) as nat) as int);
        assert((2 * a) * b == a * (2 * b)) by (nonlinear_arith);
        lemma_number_of_parts(value, (2 * significand) as u64, (exponent - 1) as u64)
    } else {
        let bits = ((significand - IMPLICIT_BIT) + exponent * IMPLICIT_BIT) as u64;
        let field = bits as int / 0x10_0000_0000_0000;
        if significand == 0x20_0000_0000_0000 {
            assert(field == exponent + 1);
            lemma_pow2_unfold(exponent as nat);
            let b = pow2((exponent - 1) as nat) as int;
            assert(0x10_0000_0000_0000 * (2 * b) == 0x20_0000_0000_0000 * b) by (nonlinear_arith);
        } else {
            assert(field == exponent);
        }
        let r = Binary64 { bits };
        r
    }
}

/// A count below `2^53` is a number.
pub proof fn lemma_small_count_is_a_number(n: nat)
    requires
        0 < n < 0x20_0000_0000_0000,
    ensures
        count_number(n).is_count(n),
        count_number(n).scaled() == n * pow2(1074),
{
    lemma_small_count_is_exact(n);
    lemma2_to64();
    let r = lemma_number_of_parts(n * pow2(1074), n as u64, UNIT_EXPONENT);
    assert(r.is_count(n));
}

/// A power of two below `2^64` as an integer.
fn power_of_two(k: u64) -> (r: u64)
    requires
        k < 64,
    ensures
        r == pow2(k as nat),
{
    proof {
        lemma2_to64();
        lemma_pow2_strictly_increases(k as nat, 64);
        vstd::bits::lemma_u64_shl_is_mul(1, k);
    }
    1u64 << k
}

/// Where the lowest bit of the significand weighs less than one, the number is that many
/// halves of a half.
proof fn lemma_scaled_below_unit(significand: int, field: int)
    requires
        0 < field < UNIT_EXPONENT,
    ensures
        ({
            let d = pow2((UNIT_EXPONENT - field) as nat);
            let p = pow2((field - 1) as nat);
            &&& p > 0
            &&& d > 0
            &&& d % 2 == 0
            &&& pow2(1074) == p * d
            &&& pow2(1075) == (2 * p) * d
        }),
{
    let d = pow2((UNIT_EXPONENT - field) as nat) as int;
    let p = pow2((field - 1) as nat) as int;
    lemma_pow2_pos((field - 1) as nat);
    lemma_pow2_pos((UNIT_EXPONENT - field) as nat);
    lemma_pow2_unfold((UNIT_EXPONENT - field) as nat);
    lemma_pow2_adds((field - 1) as nat, (UNIT_EXPONENT - field) as nat);
    lemma_pow2_unfold(1075);
    assert(2 * (p * d) == (2 * p) * d) by (nonlinear_arith);
}

/// Where the lowest bit of the significand weighs at least one, the number is whole.
proof fn lemma_scaled_above_unit(significand: int, field: int)
    requires
        UNIT_EXPONENT <= field,
    ensures
        significand * pow2((field - 1) as nat) == pow2(1074) * (significand * pow2(
            (field - UNIT_EXPONENT) as nat,
        )),
        pow2(1075) == 2 * pow2(1074),
        pow2(1074) > 0,
{
    let k = pow2((field - UNIT_EXPONENT) as nat) as int;
    let u = pow2(1074) as int;
    lemma_pow2_adds(1074, (field - UNIT_EXPONENT) as nat);
    lemma_pow2_unfold(1075);
    lemma_pow2_pos(1074);
    assert(significand * (u * k) == u * (significand * k)) by (nonlinear_arith);
}

impl Binary64 {
    /// The nearest integer, halves away from zero, held to the range of `usize`.
    pub fn round_to_usize(self) -> (r: usize)
        ensures
            r == self.round_to_usize_spec(),
    {
        let magnitude: u64 = self.bits % SIGN_BIT;
        if self.bits >= SIGN_BIT || magnitude > INFINITY_BITS {
            proof {
                lemma_scaled_magnitude_order(self.magnitude(), self.magnitude());
            }
            return 0;
        }
        let field: u64 = magnitude / IMPLICIT_BIT;
        let fraction: u64 = magnitude % IMPLICIT_BIT;
        let significand: u64 = IMPLICIT_BIT + fraction;
        if field < 1022 {
            proof {
                lemma_scaled_magnitude_order(self.magnitude(), self.magnitude());
                lemma_scaled_magnitude_increases(self.magnitude(), 1022int * 0x10_0000_0000_0000);
                lemma2_to64_rest();
                lemma_pow2_adds(52, 1021);
                lemma_pow2_unfold(1074);
                lemma_pow2_unfold(1075);
                assert(pow2(52) == 0x10_0000_0000_0000);
                assert((1022 * 0x10_0000_0000_0000int) / 0x10_0000_0000_0000 == 1022);
                assert((1022 * 0x10_0000_0000_0000int) % 0x10_0000_0000_0000 == 0);
                assert(self.scaled() < pow2(1073));
                vstd::arithmetic::div_mod::lemma_basic_div(
                    2 * self.scaled() + pow2(1074),
                    pow2(1075) as int,
                );
            }
            return 0;
        }
        if field < UNIT_EXPONENT {
            let divisor: u64 = power_of_two(UNIT_EXPONENT - field);
            proof {
                lemma_scaled_below_unit(significand as int, field as int);
                lemma2_to64_rest();
                let d = divisor as int;
                let p = pow2((field - 1) as nat) as int;
                let half = d / 2;
                let s = significand as int;
                if field > 1022 {
                    lemma_pow2_strictly_increases((UNIT_EXPONENT - field) as nat, 53);
                }
                assert(2 * (s * p) + p * d == (2 * p) * (s + half)) by (nonlinear_arith)
                    requires
                        d == 2 * half,
                ;
                vstd::arithmetic::div_mod::lemma_div_multiples_vanish_quotient(2 * p, s + half, d);
                assert(s * p > 0) by (nonlinear_arith)
                    requires
                        s > 0,
                        p > 0,
                ;
                assert((s + half) / d <= s + half) by (nonlinear_arith)
                    requires
                        s + half >= 0,
                        d >= 1,
                ;
                assert((s + half) / d <= 0x10_0000_0000_0000 + 1) by (nonlinear_arith)
                    requires
                        s < 0x20_0000_0000_0000,
                        s > 0,
                        d == 2 * half,
                        half >= 1,
                ;
            }
            let nearest: u64 = (significand + divisor / 2) / divisor;
            if nearest > usize::MAX as u64 {
                usize::MAX
            } else {
                nearest as usize
            }
        } else {
            proof {
                lemma_scaled_above_unit(significand as int, field as int);
                let s = significand as int;
                let k = pow2((field - UNIT_EXPONENT) as nat) as int;
                let u = pow2(1074) as int;
                lemma_pow2_pos((field - UNIT_EXPONENT) as nat);
                assert(2 * (u * (s * k)) + u == u * (2 * (s * k) + 1)) by (nonlinear_arith);
                vstd::arithmetic::div_mod::lemma_div_multiples_vanish_quotient(
                    u,
                    2 * (s * k) + 1,
                    2,
                );
                assert(u * (s * k) > 0) by (nonlinear_arith)
                    requires
                        u > 0,
                        s > 0,
                        k > 0,
                ;
                assert(self.scaled() == u * (s * k));
                assert(self.round_to_usize_spec() == if s * k <= usize::MAX { s * k } else { usize::MAX as int });
            }
            if field >= UNIT_EXPONENT + 12 {
                proof {
                    let s = significand as int;
                    let k = pow2((field - UNIT_EXPONENT) as nat) as int;
                    lemma2_to64();
                    if field > UNIT_EXPONENT + 12 {
                        lemma_pow2_strictly_increases(12, (field - UNIT_EXPONENT) as nat);
                    }
                    assert(s * k >= 0x1_0000_0000_0000_0000) by (nonlinear_arith)
                        requires
                            s >= 0x10_0000_0000_0000,
                            k >= 0x1000,
                    ;
                }
                return usize::MAX;
            }
            let factor: u64 = power_of_two(field - UNIT_EXPONENT);
            proof {
                lemma2_to64();
                if field < UNIT_EXPONENT + 11 {
                    lemma_pow2_strictly_increases((field - UNIT_EXPONENT) as nat, 11);
                }
                assert(significand * factor < 0x1_0000_0000_0000_0000) by (nonlinear_arith)
                    requires
                        significand < 0x20_0000_0000_0000,
                        factor <= 0x800,
                ;
            }
            let nearest: u64 = significand * factor;
            if nearest > usize::MAX as u64 {
                usize::MAX
            } else {
                nearest as usize
            }
        }
    }

    /// A number and its opposite are multiples of the same numbers.
    proof fn lemma_whole_by_magnitude(self)
        ensures
            self.scaled() % (pow2(1074) as int) == 0 <==> scaled_magnitude(self.magnitude()) % (
            pow2(1074) as int) == 0,
    {
        let m = scaled_magnitude(self.magnitude());
        let u = pow2(1074) as int;
        lemma_pow2_pos(1074);
        if self.is_negative_spec() {
            vstd::arithmetic::div_mod::lemma_fundamental_div_mod(m, u);
            vstd::arithmetic::div_mod::lemma_fundamental_div_mod(-m, u);
            if m % u == 0 {
                let q = m / u;
                assert(-m == (-q) * u) by (nonlinear_arith)
                    requires
                        m == u * q,
                ;
                vstd::arithmetic::div_mod::lemma_mod_multiples_basic(-q, u);
            }
            if (-m) % u == 0 {
                let q = (-m) / u;
                assert(m == (-q) * u) by (nonlinear_arith)
                    requires
                        -m == u * q,
                ;
                vstd::arithmetic::div_mod::lemma_mod_multiples_basic(-q, u);
            }
        }
    }

    /// Whether the number has no fractional part. Not so for the infinities and NaN.
    pub fn is_whole(self) -> (r: bool)
        ensures
            r == self.is_whole_spec(),
    {
        let magnitude: u64 = self.bits % SIGN_BIT;
        if magnitude >= INFINITY_BITS {
            return false;
        }
        proof {
            self.lemma_whole_by_magnitude();
            lemma_pow2_pos(1074);
        }
        if magnitude == 0 {
            proof {
                vstd::arithmetic::div_mod::lemma_small_mod(0, pow2(1074));
            }
            return true;
        }
        let field: u64 = magnitude / IMPLICIT_BIT;
        let fraction: u64 = magnitude % IMPLICIT_BIT;
        let significand: u64 = IMPLICIT_BIT + fraction;
        if field >= UNIT_EXPONENT {
            proof {
                lemma_scaled_above_unit(significand as int, field as int);
                let whole = significand * pow2((field - UNIT_EXPONENT) as nat);
                vstd::arithmetic::mul::lemma_mul_is_commutative(pow2(1074) as int, whole);
                vstd::arithmetic::div_mod::lemma_mod_multiples_basic(whole, pow2(1074) as int);
                assert(scaled_magnitude(self.magnitude()) % (pow2(1074) as int) == 0);
            }
            true
        } else if field < 1023 {
            proof {
                lemma_scaled_magnitude_order(self.magnitude(), self.magnitude());
                lemma_scaled_magnitude_increases(self.magnitude(), 1023int * 0x10_0000_0000_0000);
                lemma2_to64_rest();
                lemma_pow2_adds(52, 1022);
                assert(pow2(52) == 0x10_0000_0000_0000);
                assert((1023 * 0x10_0000_0000_0000int) / 0x10_0000_0000_0000 == 1023);
                assert((1023 * 0x10_0000_0000_0000int) % 0x10_0000_0000_0000 == 0);
                vstd::arithmetic::div_mod::lemma_small_mod(
                    scaled_magnitude(self.magnitude()) as nat,
                    pow2(1074),
                );
                assert(scaled_magnitude(self.magnitude()) % (pow2(1074) as int) != 0);
            }
            false
        } else {
            let divisor: u64 = power_of_two(UNIT_EXPONENT - field);
            proof {
                lemma_scaled_below_unit(significand as int, field as int);
                let d = divisor as int;
                let p = pow2((field - 1) as nat) as int;
                let s = significand as int;
                let q = s / d;
                let r = s % d;
                vstd::arithmetic::div_mod::lemma_fundamental_div_mod(s, d);
                assert(s * p == q * (p * d) + r * p) by (nonlinear_arith)
                    requires
                        s == d * q + r,
                ;
                assert(0 <= r * p < p * d) by (nonlinear_arith)
                    requires
                        0 <= r < d,
                        p > 0,
                ;
                assert(r == 0 <==> r * p == 0) by (nonlinear_arith)
                    requires
                        p > 0,
                ;
                vstd::arithmetic::div_mod::lemma_fundamental_div_mod_converse(s * p, p * d, q, r * p);
                assert(scaled_magnitude(self.magnitude()) % (pow2(1074) as int) == r * p);
            }
            significand % divisor == 0
        }
    }
}

} // verus!
