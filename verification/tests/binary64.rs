use bartrs::binary64::Binary64;

fn b(v: f64) -> Binary64 {
    Binary64::from_bits(v.to_bits())
}

fn f(v: Binary64) -> f64 {
    f64::from_bits(v.to_bits())
}

const SAMPLES: [f64; 17] = [
    0.0,
    -0.0,
    1.0,
    -1.0,
    0.5,
    -0.5,
    1.5,
    2.5,
    1e-310,
    -1e-310,
    1e300,
    -1e300,
    4503599627370497.5,
    f64::INFINITY,
    f64::NEG_INFINITY,
    f64::NAN,
    9007199254740993.0,
];

#[test]
fn comparisons_are_those_of_floats() {
    for x in SAMPLES {
        for y in SAMPLES {
            assert_eq!(b(x).le(b(y)), x <= y, "{} <= {}", x, y);
            assert_eq!(b(x).lt(b(y)), x < y, "{} < {}", x, y);
            assert_eq!(b(x).same_number(b(y)), x == y, "{} == {}", x, y);
        }
        assert_eq!(b(x).is_nan(), x.is_nan());
    }
}

#[test]
fn the_larger_number_is_the_one_that_is_no_nan() {
    for x in SAMPLES {
        for y in SAMPLES {
            let r = f(b(x).max(b(y)));
            let expected = x.max(y);
            assert!(r == expected || (r.is_nan() && expected.is_nan()), "max({}, {})", x, y);
        }
    }
}

#[test]
fn whole_numbers_have_no_fraction() {
    for x in SAMPLES {
        assert_eq!(b(x).is_whole(), x % 1.0 == 0.0, "{}", x);
    }
}

#[test]
fn negation_turns_the_sign() {
    for x in SAMPLES {
        assert_eq!(b(x).negated().to_bits(), (-x).to_bits());
    }
}

#[test]
fn counts_become_the_nearest_float() {
    for n in [
        0usize,
        1,
        2,
        3,
        1000,
        9007199254740991,
        9007199254740992,
        9007199254740993,
        9007199254740995,
        usize::MAX,
        usize::MAX - 1024,
    ] {
        assert_eq!(f(Binary64::from_count(n)), n as f64, "{}", n);
    }
}

#[test]
fn rounding_saturates() {
    for x in SAMPLES {
        assert_eq!(b(x).round_to_usize(), x.round() as usize, "{}", x);
    }
    for x in [0.49999999999999994, 2.4999, 3.5, 1e19, 1.8446744073709552e19, 1e18] {
        assert_eq!(b(x).round_to_usize(), x.round() as usize, "{}", x);
    }
}
