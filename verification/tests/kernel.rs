use bartrs::binary64::Binary64;
use bartrs::config::BartConfig;
use bartrs::data::OwnedData;
use bartrs::kernel::{
    batch_size, count_splits, tree_depth, BartKernel, ErasedKernel, RunningSd, SamplingAlgorithm, StepError,
};
use bartrs::matrix::Matrix;
use bartrs::mutation::SmcError;
use bartrs::numerics::Numerics;
use bartrs::resampling::ResamplingStrategy;
use bartrs::response::{
    GaussianResponseStrategy, LeafPayload, LeafProposal, ResponseStrategies, ResponseStrategy,
};
use bartrs::sampler::{Sampler, SamplerError};
use bartrs::settings::{response_matrix, PyBartSettings, SetupError};
use bartrs::splitting::SplitRule;
use bartrs::tree::TreeArrays;
use bartrs::weight::WeightFn;
use rand::rngs::SmallRng;
use rand::{Rng, SeedableRng};

struct Host;

fn b(v: f64) -> Binary64 {
    Binary64::from_bits(v.to_bits())
}

fn f(v: Binary64) -> f64 {
    f64::from_bits(v.to_bits())
}

impl Numerics for Host {
    fn plus(&self, x: Binary64, y: Binary64) -> Binary64 {
        b(f(x) + f(y))
    }
    fn minus(&self, x: Binary64, y: Binary64) -> Binary64 {
        b(f(x) - f(y))
    }
    fn times(&self, x: Binary64, y: Binary64) -> Binary64 {
        b(f(x) * f(y))
    }
    fn over(&self, x: Binary64, y: Binary64) -> Binary64 {
        b(f(x) / f(y))
    }
    fn sqrt(&self, x: Binary64) -> Binary64 {
        b(f(x).sqrt())
    }
    fn exp(&self, x: Binary64) -> Binary64 {
        b(f(x).exp())
    }
    fn powf(&self, x: Binary64, y: Binary64) -> Binary64 {
        b(f(x).powf(f(y)))
    }
    fn total(&self, values: &Vec<Binary64>) -> Binary64 {
        b(values.iter().map(|v| f(*v)).sum())
    }
    fn mean(&self, values: &Vec<Binary64>) -> Binary64 {
        b(values.iter().map(|v| f(*v)).sum::<f64>() / values.len() as f64)
    }
    fn spread(&self, values: &Vec<Binary64>) -> Binary64 {
        let mean = f(self.mean(values));
        let squares: f64 = values.iter().map(|v| (f(*v) - mean) * (f(*v) - mean)).sum();
        b((squares / values.len() as f64).sqrt())
    }
    fn uniform(&self, rng: &mut SmallRng) -> Binary64 {
        b(rng.random::<f64>())
    }
    fn standard_normal(&self, rng: &mut SmallRng) -> Binary64 {
        b(rng.random::<f64>() - 0.5)
    }
    fn weighted_index(&self, rng: &mut SmallRng, weights: &Vec<Binary64>) -> Option<usize> {
        let u = rng.random::<f64>();
        let mut sum = 0.0;
        for (i, w) in weights.iter().enumerate() {
            sum += f(*w);
            if u < sum {
                return Some(i);
            }
        }
        weights.len().checked_sub(1)
    }
}

#[derive(Clone)]
struct AnyValue;

impl SplitRule for AnyValue {
    fn continuous() -> Self {
        AnyValue
    }
    fn is_continuous(&self) -> bool {
        true
    }
    fn sample_split_value(&self, rng: &mut SmallRng, values: &Vec<Binary64>) -> Option<Binary64> {
        if values.len() < 2 {
            None
        } else {
            Some(values[rng.random_range(0..values.len())])
        }
    }
}

struct Everyone;

impl ResamplingStrategy for Everyone {
    fn resample(&self, _rng: &mut SmallRng, weights: &Vec<Binary64>) -> Vec<usize> {
        (0..weights.len()).collect()
    }
}

struct Squares {
    target: Vec<f64>,
}

impl WeightFn for Squares {
    fn log_weight(&self, predictions: &Vec<Binary64>) -> Binary64 {
        let mut sum = 0.0;
        for (p, t) in predictions.iter().zip(&self.target) {
            sum -= (f(*p) - t) * (f(*p) - t);
        }
        b(sum)
    }
}

fn config(response: &str, n_trees: usize) -> BartConfig {
    BartConfig {
        n_trees,
        n_particles: 4,
        max_depth: 3,
        alpha: b(0.95),
        beta: b(2.0),
        sigma: b(1.0),
        n_outputs: 1,
        min_samples_leaf: 5,
        splitting_probs: None,
        batch_tune: b(0.4),
        batch_post: b(1.0),
        response: response.to_string(),
    }
}

fn features() -> Matrix {
    let mut x = Matrix::filled(6, 2, b(0.0));
    for i in 0..6 {
        x.set(i, 0, b(i as f64 + 0.5));
        x.set(i, 1, b((i * i) as f64 + 0.25));
    }
    x
}

fn responses(v: &[f64]) -> Matrix {
    let mut y = Matrix::filled(1, v.len(), b(0.0));
    for (i, value) in v.iter().enumerate() {
        y.set(0, i, b(*value));
    }
    y
}

const TARGET: [f64; 6] = [1.0, 2.0, 3.0, 5.0, 8.0, 11.0];

fn kernel(
    response: &str,
    n_trees: usize,
    y: &[f64],
) -> BartKernel<Host, AnyValue, Everyone, Squares> {
    BartKernel {
        num: Host,
        split_rules: vec![AnyValue, AnyValue],
        resampling: Everyone,
        weight_fn: Squares { target: TARGET.to_vec() },
        config: config(response, n_trees),
        data: OwnedData { x: features(), y: responses(y) },
    }
}

#[test]
fn running_deviations_follow_the_algorithm() {
    let mut sd = RunningSd::new(2, 2);
    assert_eq!((sd.count, sd.shape), (0, 2));
    let mut first = Matrix::filled(2, 2, b(1.0));
    first.set(1, 0, b(5.0));
    let r = sd.update(&Host, &first);
    assert_eq!(r.iter().map(|v| f(*v)).collect::<Vec<f64>>(), vec![0.0, 0.0]);
    let mut second = Matrix::filled(2, 2, b(3.0));
    second.set(1, 0, b(5.0));
    let r = sd.update(&Host, &second);
    assert_eq!(sd.count, 2);
    // rows of deviations: (1, 1) and (0, 1)
    assert_eq!(r.iter().map(|v| f(*v)).collect::<Vec<f64>>(), vec![1.0, 0.5]);
    assert_eq!(f(sd.mean.get(0, 0)), 2.0);
    assert_eq!(f(sd.mean.get(1, 0)), 5.0);
    assert_eq!(f(sd.m2.get(0, 1)), 2.0);
    let mut single = RunningSd::new(1, 1);
    single.update(&Host, &Matrix::filled(1, 1, b(1.0)));
    let r = single.update(&Host, &Matrix::filled(1, 1, b(3.0)));
    assert_eq!(r.iter().map(|v| f(*v)).collect::<Vec<f64>>(), vec![1.0]);
}

#[test]
fn batches_have_at_least_one_tree() {
    assert_eq!(batch_size(b(0.2), 10), 1);
    assert_eq!(batch_size(b(2.5), 10), 3);
    assert_eq!(batch_size(b(2.4), 10), 2);
    assert_eq!(batch_size(b(50.0), 10), 10);
    assert_eq!(batch_size(b(-3.0), 10), 1);
    assert_eq!(batch_size(b(f64::NAN), 10), 1);
}

#[test]
fn the_first_state_predicts_the_mean() {
    let k = kernel("gaussian", 4, &TARGET);
    let state = SamplingAlgorithm::init(&k, &mut SmallRng::seed_from_u64(1));
    assert_eq!(state.forest.len(), 4);
    assert_eq!(f(state.predictions.get(0, 5)), 5.0);
    assert_eq!(f(state.forest[3].leaf_val[0]), 1.25);
    // the deviation of the responses over the root of the number of trees
    assert!((f(state.leaf_sd[0]) - (74.0f64 / 6.0).sqrt() / 2.0).abs() < 1e-12);
    assert_eq!(state.variable_inclusion, vec![0, 0]);
    assert_eq!((state.next_tree_idx, state.tune, state.iter, state.stump_count), (0, true, 0, 0));
    assert_eq!(state.running_sd.count, 0);
}

#[test]
fn binary_responses_start_wider() {
    let k = kernel("gaussian", 4, &[0.0, 1.0, 1.0, -0.0, 0.0, 1.0]);
    let state = ErasedKernel::init(&k, &mut SmallRng::seed_from_u64(1));
    assert_eq!(f(state.leaf_sd[0]), 1.5);
}

#[test]
fn steps_take_the_trees_in_turn() {
    let k = kernel("gaussian", 5, &TARGET);
    let mut rng = SmallRng::seed_from_u64(5);
    let mut state = k.initial_state();
    let mut starts = vec![];
    for _ in 0..4 {
        assert!(k.is_ready() && k.has_room(&state));
        let before = state.clone();
        let (after, info) = k.take_step(&mut rng, state).expect("a step");
        assert_eq!(info.batch_size, 2);
        assert_eq!(info.tree_depths.len(), 2);
        assert!(info.tree_depths.iter().all(|d| *d <= 3));
        starts.push(info.batch_start);
        for i in 0..5 {
            let hit = (0..2).any(|j| (info.batch_start + j) % 5 == i);
            if !hit {
                assert_eq!(after.forest[i].split_var, before.forest[i].split_var);
            }
        }
        assert_eq!(after.variable_inclusion, vec![0, 0]);
        state = after;
    }
    assert_eq!(starts, vec![0, 2, 4, 1]);
    assert_eq!(state.next_tree_idx, 3);
    assert_eq!(state.iter, 8);
    assert_eq!(state.running_sd.count, 8);
}

#[test]
fn predictions_are_the_sum_of_the_trees() {
    let k = kernel("linear", 3, &TARGET);
    let mut rng = SmallRng::seed_from_u64(11);
    let mut state = k.initial_state();
    state.tune = false;
    for _ in 0..20 {
        let sd: Vec<f64> = state.leaf_sd.iter().map(|v| f(*v)).collect();
        let (after, info) = ErasedKernel::step(&k, &mut rng, state).expect("a step");
        assert_eq!(info.batch_size, 3);
        assert_eq!(after.leaf_sd.iter().map(|v| f(*v)).collect::<Vec<f64>>(), sd);
        let mut sum = vec![0.0; 6];
        let mut splits = vec![0u32; 2];
        for (t, tree) in after.forest.iter().enumerate() {
            let mut pred = Matrix::filled(1, 6, b(0.0));
            tree.predict_training_into_multi(&Host, &mut pred, Some(&k.data.x));
            // predicting the training rows as new ones gives the same
            let again = tree.predict(&Host, &k.data.x, None);
            for s in 0..6 {
                assert_eq!(f(again.get(0, s)), f(pred.get(0, s)));
                sum[s] += f(pred.get(0, s));
            }
            for var in tree.split_var.iter().filter(|v| **v != u32::MAX) {
                splits[*var as usize] += 1;
            }
            assert_eq!(info.tree_depths[t], tree_depth(tree));
        }
        for s in 0..6 {
            assert!((sum[s] - f(after.predictions.get(0, s))).abs() < 1e-6);
        }
        assert_eq!(after.get_variable_inclusion(), splits);
        state = after;
    }
    assert_eq!(state.running_sd.count, 0);
}

#[test]
fn tuning_waits_for_two_trees() {
    let mut k = kernel("gaussian", 4, &TARGET);
    k.config.batch_tune = b(0.25);
    let mut rng = SmallRng::seed_from_u64(2);
    let mut state = k.initial_state();
    let first = f(state.leaf_sd[0]);
    for step in 1..4 {
        let (after, _) = SamplingAlgorithm::step(&k, &mut rng, state).expect("a step");
        if step < 3 {
            assert_eq!(f(after.leaf_sd[0]), first);
        } else {
            assert!(f(after.leaf_sd[0]) != first);
        }
        state = after;
    }
}

#[test]
fn strategies_without_proposals_are_errors() {
    let mut rng = SmallRng::seed_from_u64(2);
    let unknown = kernel("poisson", 2, &TARGET);
    let state = unknown.initial_state();
    match unknown.take_step(&mut rng, state) {
        Err(StepError::UnknownResponse(message)) => {
            assert!(message.starts_with("Unknown response strategy: 'poisson'"));
        }
        _ => panic!("expected an error"),
    }
    let mut motr = kernel("motr", 2, &TARGET);
    let state = motr.initial_state();
    assert!(matches!(
        motr.take_step(&mut rng, state),
        Err(StepError::Smc(SmcError::ResponseNotImplemented))
    ));
    // nothing is proposed where nothing can grow
    motr.config.n_particles = 1;
    let state = motr.initial_state();
    assert!(motr.take_step(&mut rng, state).is_ok());
    motr.config.n_particles = 4;
    motr.config.max_depth = 0;
    let state = motr.initial_state();
    assert!(motr.take_step(&mut rng, state).is_ok());
    let mut probs = kernel("gaussian", 2, &TARGET);
    probs.config.splitting_probs = Some(vec![b(0.0), b(0.0), b(0.0), b(1.0)]);
    let state = probs.initial_state();
    assert!(matches!(probs.take_step(&mut rng, state), Err(StepError::Smc(_))));
}

fn proposal<S: ResponseStrategy<Host>>(strategy: &S, rng: &mut SmallRng) -> LeafProposal {
    let mut sums = Matrix::filled(2, 6, b(0.0));
    for s in 0..6 {
        sums.set(0, s, b(s as f64));
        sums.set(1, s, b((s * s) as f64));
    }
    strategy.sample_leaf_proposal(
        &Host,
        rng,
        &vec![0, 1, 2, 3, 4, 5],
        &features(),
        &sums,
        &vec![b(1.0), b(1.0)],
        1,
        2,
        b(2.5),
        0,
        0,
    )
}

fn contents(payload: &LeafPayload) -> Vec<f64> {
    let numbers = match payload {
        LeafPayload::Gaussian { value } => value.clone(),
        LeafPayload::Linear { intercept, slope, .. } => {
            let mut all = intercept.clone();
            all.extend(slope.iter().copied());
            all
        }
    };
    numbers.iter().map(|v| f(*v)).collect()
}

#[test]
fn noise_is_drawn_left_before_right() {
    let mut rng = SmallRng::seed_from_u64(12);
    let p = proposal(&GaussianResponseStrategy, &mut rng);
    let mut same = SmallRng::seed_from_u64(12);
    let z: Vec<f64> = (0..4).map(|_| f(Host.standard_normal(&mut same))).collect();
    assert_eq!(contents(&p.left), vec![1.0 + z[0], (0.0 + 1.0 + 4.0) / 3.0 + z[2]]);
    assert_eq!(contents(&p.right), vec![4.0 + z[1], (9.0 + 16.0 + 25.0) / 3.0 + z[3]]);
    assert_eq!(rng.random::<u64>(), same.random::<u64>());
}

#[test]
fn proposals_repeat_from_equal_states() {
    for name in ["gaussian", "linear"] {
        let strategy = ResponseStrategies::from_name(name).expect("a strategy");
        let mut rng = SmallRng::seed_from_u64(13);
        let mut same = rng.clone();
        let p = proposal(&strategy, &mut rng);
        let q = proposal(&strategy, &mut same);
        assert_eq!(contents(&p.left), contents(&q.left));
        assert_eq!(contents(&p.right), contents(&q.right));
        assert_eq!(rng.random::<u64>(), same.random::<u64>());
    }
    // the strategy in use proposes as the one inside it
    let mut rng = SmallRng::seed_from_u64(14);
    let mut same = rng.clone();
    let strategy = ResponseStrategies::from_name("gaussian").expect("a strategy");
    let p = proposal(&strategy, &mut rng);
    let q = proposal(&GaussianResponseStrategy, &mut same);
    assert_eq!(contents(&p.left), contents(&q.left));
    assert_eq!(contents(&p.right), contents(&q.right));
}

#[test]
fn kernels_tell_what_they_can_hold() {
    let mut k = kernel("gaussian", 2, &TARGET);
    assert!(k.is_sized() && k.is_ready());
    k.config.max_depth = 32;
    assert!(!k.is_sized());
    k.config.max_depth = 3;
    k.config.n_outputs = usize::MAX / 4;
    assert!(!k.is_sized());
    k.config.n_outputs = 1;
    k.config.n_trees = 0;
    assert!(k.is_sized() && !k.is_ready());
    k.config.n_trees = 2;
    k.split_rules.pop();
    assert!(!k.is_ready());
    k.split_rules.push(AnyValue);
    let mut state = k.initial_state();
    assert!(k.has_room(&state));
    state.iter = usize::MAX - 1;
    assert!(!k.has_room(&state));
    state.iter = 0;
    state.stump_count = usize::MAX - 1;
    assert!(!k.has_room(&state));
    state.stump_count = usize::MAX - 2;
    assert!(k.has_room(&state));
}

fn is_stump(tree: &TreeArrays) -> bool {
    tree.split_var[0] == u32::MAX
}

#[test]
fn stumps_are_counted() {
    // nothing grows, so every tree of a batch stays a stump
    let mut flat = kernel("gaussian", 5, &TARGET);
    flat.config.max_depth = 0;
    let mut rng = SmallRng::seed_from_u64(4);
    let mut state = flat.initial_state();
    for step in 1..4 {
        let (after, info) = flat.take_step(&mut rng, state).expect("a step");
        assert_eq!(info.batch_size, 2);
        assert_eq!(after.stump_count, 2 * step);
        state = after;
    }
    // otherwise those of the batch that have no split
    let mut k = kernel("gaussian", 5, &TARGET);
    k.weight_fn.target.clear();
    let mut state = k.initial_state();
    let mut seen = (false, false);
    for _ in 0..40 {
        let before = state.stump_count;
        let (after, info) = k.take_step(&mut rng, state).expect("a step");
        let mut stumps = 0;
        for j in 0..info.batch_size {
            if is_stump(&after.forest[(info.batch_start + j) % 5]) {
                stumps += 1;
            }
        }
        assert_eq!(after.stump_count, before + stumps);
        seen = (seen.0 || stumps > 0, seen.1 || stumps < info.batch_size);
        state = after;
    }
    assert_eq!(seen, (true, true));
}

fn tree_with_splits() -> TreeArrays {
    let k = kernel("gaussian", 1, &TARGET);
    let mut rng = SmallRng::seed_from_u64(6);
    let mut state = k.initial_state();
    loop {
        let (after, _) = k.take_step(&mut rng, state).expect("a step");
        if !is_stump(&after.forest[0]) {
            return after.forest[0].clone();
        }
        state = after;
    }
}

#[test]
fn counts_that_run_over_are_told() {
    let tree = tree_with_splits();
    let mut counts = vec![3u32, 4];
    assert!(count_splits(&tree, &mut counts));
    let splits = tree.split_var.iter().filter(|v| **v != u32::MAX).count() as u32;
    assert!(splits > 0);
    assert_eq!(counts[0] + counts[1], 7 + splits);
    let mut full = vec![u32::MAX, u32::MAX];
    assert!(!count_splits(&tree, &mut full));
    let stump = TreeArrays::new(b(0.0), 2, 6, 1);
    assert!(count_splits(&stump, &mut full));
    assert_eq!(full, vec![u32::MAX, u32::MAX]);
}

#[test]
fn counts_start_anew_in_every_step() {
    let k = kernel("gaussian", 1, &TARGET);
    let mut rng = SmallRng::seed_from_u64(6);
    let mut state = k.initial_state();
    state.tune = false;
    for _ in 0..20 {
        let mut full = state.clone();
        full.variable_inclusion = vec![u32::MAX, u32::MAX];
        let mut other = rng.clone();
        let (after, _) = k.take_step(&mut rng, state).expect("a step");
        let (same, _) = k.take_step(&mut other, full).expect("a step");
        assert_eq!(same.variable_inclusion, after.variable_inclusion);
        state = after;
    }
}

#[test]
fn a_kernel_without_columns_can_keep_its_trees() {
    let mut k = kernel("gaussian", 2, &TARGET);
    k.data.x = Matrix::filled(6, 0, b(0.0));
    k.split_rules.clear();
    assert!(!k.is_ready());
    k.config.n_particles = 1;
    assert!(k.is_ready());
    let state = k.initial_state();
    let mut rng = SmallRng::seed_from_u64(8);
    let (after, _) = k.take_step(&mut rng, state).expect("a step");
    assert!(after.forest.iter().all(is_stump));
    assert_eq!(f(after.predictions.get(0, 0)), 5.0);
}

#[test]
fn starting_draws_nothing() {
    let k = kernel("gaussian", 4, &TARGET);
    let mut rng = SmallRng::seed_from_u64(1);
    SamplingAlgorithm::init(&k, &mut rng);
    ErasedKernel::init(&k, &mut rng);
    assert_eq!(rng.random::<u64>(), SmallRng::seed_from_u64(1).random::<u64>());
}

#[test]
fn a_list_of_responses_is_a_table_of_one_row() {
    let y: Vec<Binary64> = TARGET.iter().map(|v| b(*v)).collect();
    let mut from_list = kernel("gaussian", 3, &TARGET);
    from_list.data.y = response_matrix(&y, &vec![6]).expect("a list");
    let mut from_table = kernel("gaussian", 3, &TARGET);
    from_table.data.y = response_matrix(&y, &vec![1, 6]).expect("a table");
    let mut one = from_list.initial_state();
    let mut two = from_table.initial_state();
    assert_eq!(one.leaf_sd, two.leaf_sd);
    let mut rng = SmallRng::seed_from_u64(7);
    let mut other = SmallRng::seed_from_u64(7);
    for _ in 0..5 {
        one = from_list.take_step(&mut rng, one).expect("a step").0;
        two = from_table.take_step(&mut other, two).expect("a step").0;
        for s in 0..6 {
            assert_eq!(one.predictions.get(0, s), two.predictions.get(0, s));
        }
    }
}

fn settings(max_depth: u8) -> PyBartSettings {
    PyBartSettings {
        n_trees: 3,
        n_particles: 4,
        max_depth,
        alpha: b(0.95),
        beta: b(2.0),
        sigma: b(1.0),
        n_outputs: 1,
        split_prior: vec![],
        split_rules: vec![],
        response_rule: "gaussian".to_string(),
        resampling_rule: "systematic".to_string(),
        batch_tune: b(0.1),
        batch_post: b(0.1),
        seed: 42,
    }
}

fn sampler(
    max_depth: u8,
    rules: Vec<AnyValue>,
) -> Result<Sampler<Host, AnyValue, Everyone, Squares>, SetupError> {
    Sampler::init(
        Host,
        features(),
        responses(&TARGET),
        rules,
        Everyone,
        Squares { target: TARGET.to_vec() },
        settings(max_depth),
    )
}

#[test]
fn a_sampler_runs_and_repeats_itself() {
    let mut one = sampler(3, vec![]).ok().expect("a sampler");
    let mut two = sampler(3, vec![AnyValue]).ok().expect("a sampler");
    assert_eq!(one.kernel.split_rules.len(), 2);
    for step in 0..6 {
        let tune = if step < 3 { None } else { Some(false) };
        let (p, trees, counts) = one.step(tune).ok().expect("a step");
        let (q, _, other) = two.step(tune).ok().expect("a step");
        assert_eq!((p.nrows(), p.ncols()), (1, 6));
        assert_eq!(trees.len(), 3);
        assert_eq!(counts, other);
        for s in 0..6 {
            assert_eq!(p.get(0, s), q.get(0, s));
        }
    }
    assert!(!one.state.expect("a state").tune);
}

fn seeded_sampler(seed: u64) -> Sampler<Host, AnyValue, Everyone, Squares> {
    let mut settings = settings(3);
    settings.seed = seed;
    settings.batch_tune = b(1.0);
    let mut x = features();
    for i in 0..6 {
        x.set(i, 0, b((i / 2) as f64));
    }
    Sampler::init(
        Host,
        x,
        responses(&TARGET),
        vec![],
        Everyone,
        Squares { target: vec![] },
        settings,
    )
    .ok()
    .expect("a sampler")
}

#[test]
fn a_sampler_draws_from_its_seed() {
    let mut one = seeded_sampler(5);
    let mut two = seeded_sampler(5);
    let mut three = seeded_sampler(6);
    // the repeated numbers of the first column are moved by the first three draws
    let mut rng = SmallRng::seed_from_u64(5);
    let sd = (2.0f64 / 3.0).sqrt();
    for i in [1usize, 3, 5] {
        let z = f(Host.standard_normal(&mut rng));
        let moved = (i / 2) as f64 + sd / 12.0 * z;
        assert!((f(one.kernel.data.x.get(i, 0)) - moved).abs() < 1e-12);
    }
    assert_eq!(one.rng.clone().random::<u64>(), rng.random::<u64>());
    let mut differs = false;
    for _ in 0..4 {
        let before = one.rng.clone().random::<u64>();
        let (p, _, _) = one.step(None).ok().expect("a step");
        let (q, _, _) = two.step(None).ok().expect("a step");
        let (r, _, _) = three.step(None).ok().expect("a step");
        assert!(one.rng.clone().random::<u64>() != before);
        for s in 0..6 {
            assert_eq!(p.get(0, s), q.get(0, s));
            differs = differs || p.get(0, s) != r.get(0, s);
        }
    }
    assert!(differs);
    assert_eq!(one.rng.random::<u64>(), two.rng.random::<u64>());
}

#[test]
fn a_failed_step_loses_the_state() {
    let mut s = sampler(3, vec![]).ok().expect("a sampler");
    s.kernel.config.response = "Constant".to_string();
    let error = s.step(None).err().expect("an error");
    assert!(matches!(error, SamplerError::Step(StepError::UnknownResponse(_))));
    assert_eq!(
        error.message(),
        "Unknown response strategy: 'Constant'. Supported: 'gaussian', 'motr', 'linear'."
    );
    assert_eq!(
        SamplerError::Step(StepError::CountOverflow).message(),
        "A feature was split on too often to be counted"
    );
    let missing = s.step(None).err().expect("an error");
    assert!(matches!(missing, SamplerError::StateMissing));
    assert_eq!(missing.message(), "Sampler state is missing (internal error)");
}

#[test]
fn impossible_settings_are_refused() {
    assert!(matches!(sampler(200, vec![]), Err(SetupError::TooLarge)));
    let many = vec![AnyValue, AnyValue, AnyValue];
    assert!(matches!(sampler(3, many), Err(SetupError::NoSuchColumn)));
    let mut s = sampler(3, vec![]).ok().expect("a sampler");
    s.kernel.config.n_particles = 0;
    assert!(matches!(s.step(None), Err(SamplerError::OutOfRange)));
}
