use bartrs::binary64::Binary64;
use bartrs::config::BartConfig;
use bartrs::data::OwnedData;
use bartrs::matrix::Matrix;
use bartrs::mutation::{feature_at, propose_mutation, refusal_probability, SmcError};
use bartrs::numerics::Numerics;
use bartrs::particle::Particle;
use bartrs::resampling::ResamplingStrategy;
use bartrs::response::{GaussianResponseStrategy, LeafPayload, LeafProposal};
use bartrs::smc::{normalize_weights_inplace, smc_step, SmcStepInfo};
use bartrs::splitting::SplitRule;
use bartrs::tree::TreeArrays;
use bartrs::update::{MutationDecision, TreeProposal};
use bartrs::weight::WeightFn;
use rand::rngs::SmallRng;
use rand::SeedableRng;

struct Host {
    uniform: f64,
    drawn: Option<usize>,
}

fn b(v: f64) -> Binary64 {
    Binary64::from_bits(v.to_bits())
}

fn f(v: Binary64) -> f64 {
    f64::from_bits(v.to_bits())
}

impl Numerics for Host {
    fn plus(&self, x: Binary64, y: Binary64) -> Binary64 {
        b(f(x) + f(y))
    }
    fn minus(&self, x: Binary64, y: Binary64) -> Binary64 {
        b(f(x) - f(y))
    }
    fn times(&self, x: Binary64, y: Binary64) -> Binary64 {
        b(f(x) * f(y))
    }
    fn over(&self, x: Binary64, y: Binary64) -> Binary64 {
        b(f(x) / f(y))
    }
    fn sqrt(&self, x: Binary64) -> Binary64 {
        b(f(x).sqrt())
    }
    fn exp(&self, x: Binary64) -> Binary64 {
        b(f(x).exp())
    }
    fn powf(&self, x: Binary64, y: Binary64) -> Binary64 {
        b(f(x).powf(f(y)))
    }
    fn total(&self, values: &Vec<Binary64>) -> Binary64 {
        b(values.iter().map(|v| f(*v)).sum())
    }
    fn mean(&self, values: &Vec<Binary64>) -> Binary64 {
        b(values.iter().map(|v| f(*v)).sum::<f64>() / values.len() as f64)
    }
    fn spread(&self, values: &Vec<Binary64>) -> Binary64 {
        let mean = f(self.mean(values));
        let squares: f64 = values.iter().map(|v| (f(*v) - mean) * (f(*v) - mean)).sum();
        b((squares / values.len() as f64).sqrt())
    }
    fn uniform(&self, _rng: &mut SmallRng) -> Binary64 {
        b(self.uniform)
    }
    fn standard_normal(&self, _rng: &mut SmallRng) -> Binary64 {
        b(0.0)
    }
    fn weighted_index(&self, _rng: &mut SmallRng, _weights: &Vec<Binary64>) -> Option<usize> {
        self.drawn
    }
}

struct Rule {
    threshold: Option<f64>,
}

impl SplitRule for Rule {
    fn continuous() -> Self {
        Rule { threshold: None }
    }
    fn is_continuous(&self) -> bool {
        self.threshold.is_none()
    }
    fn sample_split_value(&self, _rng: &mut SmallRng, _values: &Vec<Binary64>) -> Option<Binary64> {
        self.threshold.map(b)
    }
}

struct Heaviest;

impl ResamplingStrategy for Heaviest {
    fn resample(&self, _rng: &mut SmallRng, weights: &Vec<Binary64>) -> Vec<usize> {
        let mut best = 0;
        for i in 0..weights.len() {
            if f(weights[i]) > f(weights[best]) {
                best = i;
            }
        }
        vec![best; weights.len()]
    }
}

struct Broken;

impl ResamplingStrategy for Broken {
    fn resample(&self, _rng: &mut SmallRng, weights: &Vec<Binary64>) -> Vec<usize> {
        vec![weights.len(); weights.len()]
    }
}

struct Squares {
    target: Vec<f64>,
}

impl WeightFn for Squares {
    fn log_weight(&self, predictions: &Vec<Binary64>) -> Binary64 {
        let mut sum = 0.0;
        for (p, t) in predictions.iter().zip(&self.target) {
            sum -= (f(*p) - t) * (f(*p) - t);
        }
        b(sum)
    }
}

fn values(v: &[f64]) -> Vec<Binary64> {
    v.iter().map(|x| b(*x)).collect()
}

fn config(n_particles: usize, max_depth: u8, probs: Option<&[f64]>) -> BartConfig {
    BartConfig {
        n_trees: 2,
        n_particles,
        max_depth,
        alpha: b(0.95),
        beta: b(2.0),
        sigma: b(1.0),
        n_outputs: 1,
        min_samples_leaf: 5,
        splitting_probs: probs.map(values),
        batch_tune: b(0.1),
        batch_post: b(0.1),
        response: "gaussian".to_string(),
    }
}

fn data() -> OwnedData {
    let mut x = Matrix::filled(4, 1, b(0.0));
    let mut y = Matrix::filled(1, 4, b(0.0));
    for i in 0..4 {
        x.set(i, 0, b(i as f64));
        y.set(0, i, b(10.0 * i as f64));
    }
    OwnedData { x, y }
}

fn rng() -> SmallRng {
    SmallRng::seed_from_u64(3)
}

#[test]
fn weights_add_up_to_one() {
    let host = Host { uniform: 0.5, drawn: None };
    let mut w = values(&[0.0, 3.0f64.ln()]);
    normalize_weights_inplace(&host, &mut w);
    assert!((f(w[0]) - 0.25).abs() < 1e-12);
    assert!((f(w[1]) - 0.75).abs() < 1e-12);
    // only differences matter, also where the weights themselves vanish
    let mut far = values(&[-1e6, -1e6 + 3.0f64.ln()]);
    normalize_weights_inplace(&host, &mut far);
    assert!((f(far[0]) - 0.25).abs() < 1e-9);
    let mut none: Vec<Binary64> = vec![];
    normalize_weights_inplace(&host, &mut none);
    assert!(none.is_empty());
    let mut one = values(&[-7.0]);
    normalize_weights_inplace(&host, &mut one);
    assert_eq!(f(one[0]), 1.0);
}

#[test]
fn heavier_particles_weigh_more() {
    let host = Host { uniform: 0.5, drawn: None };
    let mut w = values(&[-3.0, f64::NEG_INFINITY, 1.5, -3.0, 0.0]);
    normalize_weights_inplace(&host, &mut w);
    let r: Vec<f64> = w.iter().map(|v| f(*v)).collect();
    assert!(r.iter().all(|v| (0.0..=1.0).contains(v)));
    assert!(r[2] > r[4] && r[4] > r[0]);
    assert_eq!(r[0], r[3]);
    assert_eq!(r[1], 0.0);
    // a common shift that is exact changes nothing
    let mut shifted = values(&[1.0, f64::NEG_INFINITY, 5.5, 1.0, 4.0]);
    normalize_weights_inplace(&host, &mut shifted);
    assert_eq!(w, shifted);
}

#[test]
fn deep_nodes_are_refused_more_often() {
    let host = Host { uniform: 0.5, drawn: None };
    let p = f(refusal_probability(&host, b(0.95), b(2.0), 1));
    assert!((p - 0.7625).abs() < 1e-12);
    let q = f(refusal_probability(&host, b(0.95), b(2.0), 3));
    assert!((q - (1.0 - 0.95 / 16.0)).abs() < 1e-12);
}

#[test]
fn features_are_found_by_bisection() {
    let cdf = values(&[0.2, 0.5, 1.0]);
    assert_eq!(feature_at(&cdf, b(0.1)), 0);
    assert_eq!(feature_at(&cdf, b(0.2)), 0);
    assert_eq!(feature_at(&cdf, b(0.3)), 1);
    assert_eq!(feature_at(&cdf, b(0.5)), 1);
    assert_eq!(feature_at(&cdf, b(0.9)), 2);
    assert_eq!(feature_at(&cdf, b(1.5)), 3);
    assert_eq!(feature_at(&values(&[]), b(1.5)), 0);
}

fn propose(
    host: &Host,
    particle: &Particle,
    node: usize,
    threshold: Option<f64>,
    probs: Option<&[f64]>,
) -> Result<MutationDecision, SmcError> {
    let sums = Matrix::filled(1, 4, b(8.0));
    propose_mutation(
        host,
        &mut rng(),
        particle,
        node,
        &sums,
        &config(2, 3, probs),
        &data(),
        &vec![Rule { threshold }],
        &values(&[1.0]),
        &GaussianResponseStrategy,
    )
}

#[test]
fn the_root_is_proposed_whatever_the_draw() {
    let host = Host { uniform: 0.0, drawn: None };
    let particle = Particle::new(b(0.0), 4, 3, 1);
    match propose(&host, &particle, 0, Some(1.5), None) {
        Ok(MutationDecision::Accept(p)) => {
            let leaf = p.leaf_proposal;
            assert_eq!((leaf.node_idx, leaf.split_var), (0, 0));
            assert_eq!(f(leaf.split_val), 1.5);
            // the mean of the sums over the number of trees
            match leaf.left {
                LeafPayload::Gaussian { value } => assert_eq!(f(value[0]), 4.0),
                LeafPayload::Linear { .. } => panic!("expected a value"),
            }
        }
        _ => panic!("expected a proposal"),
    }
}

#[test]
fn nodes_are_rejected_for_each_reason() {
    let root = Particle::new(b(0.0), 4, 3, 1);
    let host = Host { uniform: 0.9, drawn: None };
    assert!(matches!(propose(&host, &root, 0, None, None), Ok(MutationDecision::Reject)));

    let mut grown = root.clone();
    grown.pop_next_expandable();
    let p = LeafProposal {
        node_idx: 0,
        split_var: 0,
        split_val: b(9.0),
        left: LeafPayload::Gaussian { value: values(&[1.0]) },
        right: LeafPayload::Gaussian { value: values(&[2.0]) },
    };
    grown.apply_mutation(TreeProposal { leaf_proposal: p }, &data().x);
    assert_eq!(grown.expandable, vec![1, 2]);
    assert_eq!(f(grown.tree.node_nvalue[1]), 4.0);
    // by depth: 0.7625 exceeds the draw
    let low = Host { uniform: 0.7, drawn: None };
    assert!(matches!(propose(&low, &grown, 1, Some(1.5), None), Ok(MutationDecision::Reject)));
    assert!(matches!(propose(&host, &grown, 1, Some(1.5), None), Ok(MutationDecision::Accept(_))));
    // node 2 has no samples
    assert!(matches!(propose(&host, &grown, 2, Some(1.5), None), Ok(MutationDecision::Reject)));
}

#[test]
fn weights_of_features_can_lead_nowhere() {
    let host = Host { uniform: 0.5, drawn: None };
    let root = Particle::new(b(0.0), 4, 3, 1);
    let wide: &[f64] = &[0.1, 0.2, 1.0];
    assert!(matches!(propose(&host, &root, 0, Some(1.5), Some(wide)), Err(SmcError::NoSuchFeature)));
    let zero: &[f64] = &[0.0];
    assert!(matches!(
        propose(&host, &root, 0, Some(1.5), Some(zero)),
        Ok(MutationDecision::Accept(_))
    ));
}

#[test]
fn a_feature_is_drawn_where_none_is_preferred() {
    let mut x = Matrix::filled(4, 3, b(0.0));
    for i in 0..4 {
        x.set(i, 1, b(i as f64));
    }
    let all = OwnedData { x, y: Matrix::filled(1, 4, b(0.0)) };
    let root = Particle::new(b(0.0), 4, 3, 1);
    let host = Host { uniform: 0.5, drawn: None };
    let sums = Matrix::filled(1, 4, b(0.0));
    let rules = vec![
        Rule { threshold: Some(0.0) },
        Rule { threshold: Some(1.0) },
        Rule { threshold: Some(2.0) },
    ];
    let mut source = rng();
    let mut seen = [false; 3];
    for _ in 0..200 {
        let decision = propose_mutation(
            &host,
            &mut source,
            &root,
            0,
            &sums,
            &config(2, 3, None),
            &all,
            &rules,
            &values(&[1.0]),
            &GaussianResponseStrategy,
        );
        match decision {
            Ok(MutationDecision::Accept(p)) => {
                let var = p.leaf_proposal.split_var as usize;
                assert!(var < 3);
                assert_eq!(f(p.leaf_proposal.split_val), var as f64);
                seen[var] = true;
            }
            _ => panic!("expected a proposal"),
        }
    }
    assert_eq!(seen, [true; 3]);
}

fn step<R: ResamplingStrategy>(
    host: &Host,
    config: &BartConfig,
    resampling: &R,
) -> Result<(TreeArrays, SmcStepInfo), SmcError> {
    step_by(host, config, resampling, Some(1.5))
}

fn step_by<R: ResamplingStrategy>(
    host: &Host,
    config: &BartConfig,
    resampling: &R,
    threshold: Option<f64>,
) -> Result<(TreeArrays, SmcStepInfo), SmcError> {
    let current = TreeArrays::new(b(7.0), 4, config.max_depth, 1);
    let sums = Matrix::filled(1, 4, b(14.0));
    smc_step(
        host,
        &mut rng(),
        &sums,
        config,
        &data(),
        &vec![Rule { threshold }],
        resampling,
        &Squares { target: vec![14.0, 14.0, 14.0, 14.0] },
        current,
        &values(&[0.0]),
        &GaussianResponseStrategy,
    )
}

#[test]
fn a_single_particle_keeps_its_tree() {
    let host = Host { uniform: 0.0, drawn: Some(0) };
    let (tree, info) = step(&host, &config(1, 3, None), &Heaviest).expect("a tree");
    assert_eq!(tree.size, 1);
    assert_eq!(f(tree.leaf_val[0]), 7.0);
    assert_eq!(info.acceptance_count, 0);
    // the forest without the tree predicts 7, with it 14, which is the target
    assert_eq!(f(info.log_likelihood), 0.0);
}

#[test]
fn a_fresh_particle_grows_by_its_rule() {
    // the draw refuses all nodes below the root
    let host = Host { uniform: 0.0, drawn: Some(2) };
    let (tree, info) = step(&host, &config(3, 3, None), &Heaviest).expect("a tree");
    assert_eq!(tree.size, 3);
    assert_eq!(f(tree.split_val[0]), 1.5);
    assert_eq!(tree.leaf_indices, vec![1, 1, 2, 2]);
    assert_eq!(f(tree.leaf_val[1]), 7.0);
    assert_eq!(f(tree.node_nvalue[1]), 2.0);
    // two particles, one split each
    assert_eq!(info.acceptance_count, 2);
    assert_eq!(f(info.log_likelihood), 0.0);
}

#[test]
fn no_depth_means_no_growth() {
    let host = Host { uniform: 0.99, drawn: Some(1) };
    let (tree, info) = step(&host, &config(2, 0, None), &Heaviest).expect("a tree");
    assert_eq!(tree.size, 1);
    assert_eq!(info.acceptance_count, 0);
    // the mean response 15 over two trees
    assert_eq!(f(tree.leaf_val[0]), 7.5);
}

#[test]
fn no_split_means_no_growth_at_any_depth() {
    let fresh = Host { uniform: 0.99, drawn: Some(1) };
    let (tree, info) = step_by(&fresh, &config(3, 3, None), &Heaviest, None).expect("a tree");
    assert_eq!((tree.size, info.acceptance_count), (1, 0));
    assert_eq!(f(tree.leaf_val[0]), 7.5);
    let kept = Host { uniform: 0.99, drawn: Some(0) };
    let (tree, info) = step_by(&kept, &config(3, 3, None), &Heaviest, None).expect("a tree");
    assert_eq!((tree.size, info.acceptance_count), (1, 0));
    assert_eq!(f(tree.leaf_val[0]), 7.0);
}

#[test]
fn growth_stops_at_the_greatest_depth() {
    let host = Host { uniform: 0.999, drawn: Some(1) };
    let (tree, info) = step(&host, &config(2, 2, None), &Heaviest).expect("a tree");
    assert_eq!(tree.size, 7);
    assert!(info.acceptance_count >= 2 && info.acceptance_count <= 7);
    assert!((0..7).filter(|i| !tree.is_leaf(*i)).all(|i| i < 3));
}

#[test]
fn useless_draws_are_errors() {
    let host = Host { uniform: 0.5, drawn: Some(0) };
    assert!(matches!(step(&host, &config(3, 3, None), &Broken), Err(SmcError::InvalidAncestors)));
    let none = Host { uniform: 0.5, drawn: None };
    assert!(matches!(step(&none, &config(3, 3, None), &Heaviest), Err(SmcError::InvalidWeights)));
    let far = Host { uniform: 0.5, drawn: Some(9) };
    assert!(matches!(step(&far, &config(3, 3, None), &Heaviest), Err(SmcError::InvalidWeights)));
    let wide: &[f64] = &[0.1, 0.2, 1.0];
    assert!(matches!(
        step(&host, &config(3, 3, Some(wide)), &Heaviest),
        Err(SmcError::NoSuchFeature)
    ));
}

#[test]
fn nodes_count_their_samples() {
    let host = Host { uniform: 0.999, drawn: Some(1) };
    let (tree, _) = step(&host, &config(2, 3, None), &Heaviest).expect("a tree");
    for i in 0..tree.size {
        if tree.is_leaf(i) {
            assert!(f(tree.split_val[i]).is_nan());
            let attached = i == 0 || !tree.is_leaf((i - 1) / 2);
            if attached {
                assert_eq!(f(tree.node_nvalue[i]), tree.get_leaf_samples(i).len() as f64);
            }
        } else {
            let children = f(tree.node_nvalue[2 * i + 1]) + f(tree.node_nvalue[2 * i + 2]);
            assert_eq!(f(tree.node_nvalue[i]), children);
        }
    }
}

#[test]
fn a_missing_value_is_proposed_right_and_assigned_left() {
    let mut all = data();
    all.x.set(3, 0, b(f64::NAN));
    let host = Host { uniform: 0.5, drawn: None };
    let mut sums = Matrix::filled(1, 4, b(0.0));
    sums.set(0, 3, b(100.0));
    let mut particle = Particle::new(b(0.0), 4, 3, 1);
    let decision = propose_mutation(
        &host,
        &mut rng(),
        &particle,
        0,
        &sums,
        &config(2, 3, None),
        &all,
        &vec![Rule { threshold: Some(1.5) }],
        &values(&[1.0]),
        &GaussianResponseStrategy,
    );
    let proposal = match decision {
        Ok(MutationDecision::Accept(proposal)) => proposal,
        _ => panic!("expected a proposal"),
    };
    match &proposal.leaf_proposal.right {
        // samples 2 and 3 over two trees
        LeafPayload::Gaussian { value } => assert_eq!(f(value[0]), 25.0),
        LeafPayload::Linear { .. } => panic!("expected a value"),
    }
    particle.pop_next_expandable();
    particle.apply_mutation(proposal, &all.x);
    assert_eq!(particle.tree.leaf_indices, vec![1, 1, 2, 1]);
}
