use bartrs::binary64::Binary64;
use bartrs::columns::{are_whole_number, jitter_duplicated, nanstd};
use bartrs::matrix::Matrix;
use bartrs::numerics::Numerics;
use bartrs::settings::{complete_rules, prepare_columns, response_matrix, PyBartSettings, SetupError};
use bartrs::splitting::SplitRule;
use rand::rngs::SmallRng;
use rand::{Rng, SeedableRng};

struct Host;

fn b(v: f64) -> Binary64 {
    Binary64::from_bits(v.to_bits())
}

fn f(v: Binary64) -> f64 {
    f64::from_bits(v.to_bits())
}

impl Numerics for Host {
    fn plus(&self, x: Binary64, y: Binary64) -> Binary64 {
        b(f(x) + f(y))
    }
    fn minus(&self, x: Binary64, y: Binary64) -> Binary64 {
        b(f(x) - f(y))
    }
    fn times(&self, x: Binary64, y: Binary64) -> Binary64 {
        b(f(x) * f(y))
    }
    fn over(&self, x: Binary64, y: Binary64) -> Binary64 {
        b(f(x) / f(y))
    }
    fn sqrt(&self, x: Binary64) -> Binary64 {
        b(f(x).sqrt())
    }
    fn exp(&self, x: Binary64) -> Binary64 {
        b(f(x).exp())
    }
    fn powf(&self, x: Binary64, y: Binary64) -> Binary64 {
        b(f(x).powf(f(y)))
    }
    fn total(&self, values: &Vec<Binary64>) -> Binary64 {
        b(values.iter().map(|v| f(*v)).sum())
    }
    fn mean(&self, values: &Vec<Binary64>) -> Binary64 {
        b(values.iter().map(|v| f(*v)).sum::<f64>() / values.len() as f64)
    }
    fn spread(&self, values: &Vec<Binary64>) -> Binary64 {
        let mean = f(self.mean(values));
        let squares: f64 = values.iter().map(|v| (f(*v) - mean) * (f(*v) - mean)).sum();
        b((squares / values.len() as f64).sqrt())
    }
    fn uniform(&self, _rng: &mut SmallRng) -> Binary64 {
        b(0.5)
    }
    fn standard_normal(&self, _rng: &mut SmallRng) -> Binary64 {
        b(1.0)
    }
    fn weighted_index(&self, _rng: &mut SmallRng, _weights: &Vec<Binary64>) -> Option<usize> {
        Some(0)
    }
}

#[derive(Clone, Debug, PartialEq)]
enum Rule {
    Between,
    Category,
}

impl SplitRule for Rule {
    fn continuous() -> Self {
        Rule::Between
    }
    fn is_continuous(&self) -> bool {
        *self == Rule::Between
    }
    fn sample_split_value(&self, _rng: &mut SmallRng, values: &Vec<Binary64>) -> Option<Binary64> {
        values.first().copied()
    }
}

fn values(v: &[f64]) -> Vec<Binary64> {
    v.iter().map(|x| b(*x)).collect()
}

fn floats(v: &[Binary64]) -> Vec<f64> {
    v.iter().map(|x| f(*x)).collect()
}

#[test]
fn missing_numbers_count_as_whole() {
    assert!(are_whole_number(&values(&[1.0, f64::NAN, -3.0])));
    assert!(are_whole_number(&values(&[])));
    assert!(!are_whole_number(&values(&[1.0, 2.5])));
    assert!(!are_whole_number(&values(&[f64::INFINITY])));
}

#[test]
fn the_deviation_skips_missing_numbers() {
    let sd = nanstd(&Host, &values(&[2.0, f64::NAN, 4.0, 4.0, 4.0, 5.0, 5.0, 7.0, 9.0]));
    assert_eq!(f(sd), 2.0);
    assert!(f(nanstd(&Host, &values(&[f64::NAN]))).is_nan());
    assert!(f(nanstd(&Host, &values(&[]))).is_nan());
    assert_eq!(f(nanstd(&Host, &values(&[3.0]))), 0.0);
}

#[test]
fn repeated_numbers_are_moved() {
    let mut rng = SmallRng::seed_from_u64(0);
    let mut col = values(&[1.0, 2.0, 1.0, f64::NAN, 1.0, f64::NAN, 0.0, -0.0]);
    jitter_duplicated(&Host, &mut col, b(24.0), &mut rng);
    let r = floats(&col);
    assert_eq!(&r[..3], &[1.0, 2.0, 3.0]);
    assert!(r[3].is_nan());
    assert_eq!(r[4], 3.0);
    assert!(r[5].is_nan());
    // both zeros are the same number
    assert_eq!(&r[6..], &[0.0, 2.0]);
}

#[test]
fn columns_with_fractions_or_without_repeats_stay() {
    let mut rng = SmallRng::seed_from_u64(0);
    let mut fractions = values(&[1.5, 1.5, 2.0]);
    jitter_duplicated(&Host, &mut fractions, b(24.0), &mut rng);
    assert_eq!(floats(&fractions), vec![1.5, 1.5, 2.0]);
    let mut distinct = values(&[3.0, 1.0, 2.0]);
    jitter_duplicated(&Host, &mut distinct, b(24.0), &mut rng);
    assert_eq!(floats(&distinct), vec![3.0, 1.0, 2.0]);
    // and nothing is drawn for them
    assert_eq!(rng.random::<u64>(), SmallRng::seed_from_u64(0).random::<u64>());
}

#[test]
fn rules_are_completed_and_never_dropped() {
    let r = complete_rules(vec![Rule::Category], 3);
    assert_eq!(r, vec![Rule::Category, Rule::Between, Rule::Between]);
    let kept = complete_rules(vec![Rule::Category, Rule::Category], 1);
    assert_eq!(kept.len(), 2);
}

#[test]
fn only_columns_with_the_default_rule_are_prepared() {
    let mut rng = SmallRng::seed_from_u64(0);
    let mut x = Matrix::filled(2, 2, b(12.0));
    let rules = vec![Rule::Category, Rule::Between];
    assert_eq!(prepare_columns(&Host, &mut rng, &mut x, &rules), Ok(()));
    assert_eq!(floats(&x.read_column(0)), vec![12.0, 12.0]);
    // the deviation is zero, so the noise is too
    assert_eq!(floats(&x.read_column(1)), vec![12.0, 12.0]);
    let mut y = Matrix::filled(3, 1, b(0.0));
    y.set(2, 0, b(3.0));
    assert_eq!(prepare_columns(&Host, &mut rng, &mut y, &vec![Rule::Between]), Ok(()));
    let sd = 2.0f64.sqrt();
    assert_eq!(f(y.get(0, 0)), 0.0);
    assert!((f(y.get(1, 0)) - sd / 12.0).abs() < 1e-12);
    assert_eq!(f(y.get(2, 0)), 3.0);
    let too_many = vec![Rule::Between, Rule::Between];
    assert_eq!(
        prepare_columns(&Host, &mut rng, &mut y, &too_many),
        Err(SetupError::NoSuchColumn)
    );
    let harmless = vec![Rule::Category, Rule::Category];
    assert_eq!(prepare_columns(&Host, &mut rng, &mut y, &harmless), Ok(()));
}

#[test]
fn responses_become_rows() {
    let list = response_matrix(&values(&[1.0, 2.0, 3.0]), &vec![3]).expect("a list");
    assert_eq!((list.nrows(), list.ncols()), (1, 3));
    assert_eq!(f(list.get(0, 2)), 3.0);
    let table = response_matrix(&values(&[1.0, 2.0, 3.0, 4.0]), &vec![2, 2]).expect("a table");
    assert_eq!((table.nrows(), table.ncols()), (2, 2));
    assert_eq!(f(table.get(1, 0)), 3.0);
    assert!(matches!(
        response_matrix(&values(&[1.0]), &vec![1, 1, 1]),
        Err(message) if message == "y must be 1D or 2D array"
    ));
    assert!(response_matrix(&values(&[]), &vec![]).is_err());
}

fn settings(split_prior: Vec<Binary64>) -> PyBartSettings {
    PyBartSettings {
        n_trees: 7,
        n_particles: 3,
        max_depth: 4,
        alpha: b(0.95),
        beta: b(2.0),
        sigma: b(1.0),
        n_outputs: 2,
        split_prior,
        split_rules: vec![],
        response_rule: "gaussian".to_string(),
        resampling_rule: "systematic".to_string(),
        batch_tune: b(0.1),
        batch_post: b(0.2),
        seed: 9,
    }
}

#[test]
fn settings_become_a_configuration() {
    let config = settings(vec![]).to_config();
    assert_eq!(config.n_trees, 7);
    assert_eq!(config.min_samples_leaf, 5);
    assert_eq!(config.splitting_probs, None);
    assert_eq!(config.response, "gaussian");
    assert_eq!(f(config.batch_post), 0.2);
    let with_prior = settings(values(&[0.5, 1.0])).to_config();
    assert_eq!(with_prior.splitting_probs, Some(values(&[0.5, 1.0])));
}
