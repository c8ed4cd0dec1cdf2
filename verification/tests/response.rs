use bartrs::binary64::Binary64;
use bartrs::matrix::Matrix;
use bartrs::numerics::Numerics;
use bartrs::response::{
    GaussianResponseStrategy, LeafKind, LeafPayload, LinearStrategy, ResponseStrategies,
    ResponseStrategy,
};
use rand::rngs::SmallRng;
use rand::SeedableRng;

struct Host;

fn b(v: f64) -> Binary64 {
    Binary64::from_bits(v.to_bits())
}

fn f(v: Binary64) -> f64 {
    f64::from_bits(v.to_bits())
}

impl Numerics for Host {
    fn plus(&self, x: Binary64, y: Binary64) -> Binary64 {
        b(f(x) + f(y))
    }
    fn minus(&self, x: Binary64, y: Binary64) -> Binary64 {
        b(f(x) - f(y))
    }
    fn times(&self, x: Binary64, y: Binary64) -> Binary64 {
        b(f(x) * f(y))
    }
    fn over(&self, x: Binary64, y: Binary64) -> Binary64 {
        b(f(x) / f(y))
    }
    fn sqrt(&self, x: Binary64) -> Binary64 {
        b(f(x).sqrt())
    }
    fn exp(&self, x: Binary64) -> Binary64 {
        b(f(x).exp())
    }
    fn powf(&self, x: Binary64, y: Binary64) -> Binary64 {
        b(f(x).powf(f(y)))
    }
    fn total(&self, values: &Vec<Binary64>) -> Binary64 {
        b(values.iter().map(|v| f(*v)).sum())
    }
    fn mean(&self, values: &Vec<Binary64>) -> Binary64 {
        b(values.iter().map(|v| f(*v)).sum::<f64>() / values.len() as f64)
    }
    fn spread(&self, values: &Vec<Binary64>) -> Binary64 {
        let mean = f(self.mean(values));
        let squares: f64 = values.iter().map(|v| (f(*v) - mean) * (f(*v) - mean)).sum();
        b((squares / values.len() as f64).sqrt())
    }
    fn uniform(&self, _rng: &mut SmallRng) -> Binary64 {
        b(0.5)
    }
    fn standard_normal(&self, _rng: &mut SmallRng) -> Binary64 {
        b(2.0)
    }
    fn weighted_index(&self, _rng: &mut SmallRng, _weights: &Vec<Binary64>) -> Option<usize> {
        Some(0)
    }
}

fn values(v: &[f64]) -> Vec<Binary64> {
    v.iter().map(|x| b(*x)).collect()
}

#[test]
fn test_fit_linear_1d_intercept() {
    let x = values(&[1.0, 2.0, 3.0, 4.0, 5.0]);
    let y = values(&[1.0, 2.0, 3.0, 4.0, 5.0]);

    let noise = b(0.0);
    let n_trees = 1;

    let Some((intercept, slope)) = LinearStrategy::fit_linear_1d(&Host, &x, &y, noise, n_trees)
    else {
        panic!("Got None when was expecting intercept and slope");
    };

    let a = f(intercept);
    let _b = slope;
    assert!((a - 0.0).abs() < 1e-6, "Expected intercept ~0.0, got {}", a);
}

#[test]
fn test_fit_linear_1d_slope() {
    let x = values(&[1.0, 2.0, 3.0, 4.0, 5.0]);
    let y = values(&[2.0, 4.0, 6.0, 8.0, 10.0]);

    let noise = b(0.0);
    let n_trees = 1;

    let Some((intercept, slope)) = LinearStrategy::fit_linear_1d(&Host, &x, &y, noise, n_trees)
    else {
        panic!("Got None when was expecting intercept and slope");
    };

    let _a = intercept;
    let b = f(slope);
    assert!((b - 2.0).abs() < 1e-6, "Expected intercept ~2.0, got {}", b);
}

#[test]
fn a_fit_needs_pairs() {
    let one = values(&[1.0]);
    let two = values(&[1.0, 2.0]);
    let none = values(&[]);
    assert!(LinearStrategy::fit_linear_1d(&Host, &one, &two, b(0.0), 1).is_none());
    assert!(LinearStrategy::fit_linear_1d(&Host, &none, &none, b(0.0), 1).is_none());
    // a single point, or points above each other, have the mean as their line
    let (a, slope) = LinearStrategy::fit_linear_1d(&Host, &one, &values(&[6.0]), b(0.5), 3)
        .expect("one point");
    assert_eq!((f(a), f(slope)), (2.5, 0.0));
}

#[test]
fn leaf_kinds_have_codes() {
    assert_eq!(LeafKind::Gaussian.as_u8(), 0);
    assert_eq!(LeafKind::Linear.as_u8(), 1);
    assert!(LeafKind::from_u8(1) == LeafKind::Linear);
    assert!(LeafKind::from_u8(0) == LeafKind::Gaussian);
    assert!(LeafKind::from_u8(200) == LeafKind::Gaussian);
}

#[test]
fn strategies_go_by_name_in_any_case() {
    assert!(matches!(ResponseStrategies::from_name("gaussian"), Ok(ResponseStrategies::Gaussian(_))));
    assert!(matches!(ResponseStrategies::from_name("LINEAR"), Ok(ResponseStrategies::Linear(_))));
    assert!(matches!(ResponseStrategies::from_name("Motr"), Ok(ResponseStrategies::Motr(_))));
    assert!(ResponseStrategies::from_lowercase_name(&"LINEAR".to_string()).is_none());
    let message = ResponseStrategies::from_name("Constant").unwrap_err();
    assert_eq!(
        message,
        "Unknown response strategy: 'Constant'. Supported: 'gaussian', 'motr', 'linear'."
    );
}

fn column(v: &[f64]) -> Matrix {
    let mut m = Matrix::filled(v.len(), 1, b(0.0));
    for (i, x) in v.iter().enumerate() {
        m.set(i, 0, b(*x));
    }
    m
}

fn row(v: &[f64]) -> Matrix {
    let mut m = Matrix::filled(1, v.len(), b(0.0));
    for (i, x) in v.iter().enumerate() {
        m.set(0, i, b(*x));
    }
    m
}

fn value_of(payload: &LeafPayload) -> f64 {
    match payload {
        LeafPayload::Gaussian { value } => f(value[0]),
        LeafPayload::Linear { .. } => panic!("expected a value"),
    }
}

#[test]
fn gaussian_leaves_are_means_with_noise() {
    let x = column(&[1.0, 2.0, 3.0, 4.0]);
    let sums = row(&[10.0, 20.0, 30.0, 50.0]);
    let p = GaussianResponseStrategy.sample_leaf_proposal(
        &Host,
        &mut SmallRng::seed_from_u64(1),
        &vec![0, 1, 2, 3],
        &x,
        &sums,
        &values(&[0.25]),
        10,
        1,
        b(2.0),
        0,
        0,
    );
    // mean / n_trees + 2 * sd
    assert_eq!(value_of(&p.left), 15.0 / 10.0 + 0.5);
    assert_eq!(value_of(&p.right), 40.0 / 10.0 + 0.5);
    assert_eq!((p.node_idx, p.split_var, f(p.split_val)), (0, 0, 2.0));
}

#[test]
fn linear_leaves_hold_a_line_in_the_split_variable() {
    let x = column(&[1.0, 2.0, 3.0, 7.0, 8.0, 9.0]);
    let sums = row(&[2.0, 4.0, 6.0, 1.0, 1.0, 1.0]);
    let p = LinearStrategy.sample_leaf_proposal(
        &Host,
        &mut SmallRng::seed_from_u64(1),
        &vec![0, 1, 2, 3, 4, 5],
        &x,
        &sums,
        &values(&[0.0]),
        1,
        1,
        b(5.0),
        0,
        0,
    );
    match &p.left {
        LeafPayload::Linear { intercept, slope, var } => {
            assert_eq!(*var, 0);
            assert!((f(slope[0]) - 2.0).abs() < 1e-12);
            assert!(f(intercept[0]).abs() < 1e-12);
        }
        LeafPayload::Gaussian { .. } => panic!("expected a line"),
    }
}
