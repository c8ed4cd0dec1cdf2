use bartrs::binary64::Binary64;
use bartrs::matrix::Matrix;
use bartrs::numerics::Numerics;
use bartrs::response::{LeafKind, LeafPayload, LeafProposal};
use bartrs::tree::{max_nodes_for_depth, TreeArrays, LEAF_SENTINEL};
use rand::rngs::SmallRng;

struct Host;

fn b(v: f64) -> Binary64 {
    Binary64::from_bits(v.to_bits())
}

fn f(v: Binary64) -> f64 {
    f64::from_bits(v.to_bits())
}

impl Numerics for Host {
    fn plus(&self, x: Binary64, y: Binary64) -> Binary64 {
        b(f(x) + f(y))
    }
    fn minus(&self, x: Binary64, y: Binary64) -> Binary64 {
        b(f(x) - f(y))
    }
    fn times(&self, x: Binary64, y: Binary64) -> Binary64 {
        b(f(x) * f(y))
    }
    fn over(&self, x: Binary64, y: Binary64) -> Binary64 {
        b(f(x) / f(y))
    }
    fn sqrt(&self, x: Binary64) -> Binary64 {
        b(f(x).sqrt())
    }
    fn exp(&self, x: Binary64) -> Binary64 {
        b(f(x).exp())
    }
    fn powf(&self, x: Binary64, y: Binary64) -> Binary64 {
        b(f(x).powf(f(y)))
    }
    fn total(&self, values: &Vec<Binary64>) -> Binary64 {
        b(values.iter().map(|v| f(*v)).sum())
    }
    fn mean(&self, values: &Vec<Binary64>) -> Binary64 {
        b(values.iter().map(|v| f(*v)).sum::<f64>() / values.len() as f64)
    }
    fn spread(&self, values: &Vec<Binary64>) -> Binary64 {
        let mean = f(self.mean(values));
        let squares: f64 = values.iter().map(|v| (f(*v) - mean) * (f(*v) - mean)).sum();
        b((squares / values.len() as f64).sqrt())
    }
    fn uniform(&self, _rng: &mut SmallRng) -> Binary64 {
        b(0.5)
    }
    fn standard_normal(&self, _rng: &mut SmallRng) -> Binary64 {
        b(0.0)
    }
    fn weighted_index(&self, _rng: &mut SmallRng, _weights: &Vec<Binary64>) -> Option<usize> {
        Some(0)
    }
}

fn values(v: &[f64]) -> Vec<Binary64> {
    v.iter().map(|x| b(*x)).collect()
}

fn matrix(rows: &[&[f64]]) -> Matrix {
    let mut m = Matrix::filled(rows.len(), rows[0].len(), b(0.0));
    for (i, row) in rows.iter().enumerate() {
        for (j, v) in row.iter().enumerate() {
            m.set(i, j, b(*v));
        }
    }
    m
}

fn gaussian(v: &[f64]) -> LeafPayload {
    LeafPayload::Gaussian { value: values(v) }
}

fn proposal(
    node_idx: usize,
    split_var: u32,
    split_val: f64,
    left: LeafPayload,
    right: LeafPayload,
) -> LeafProposal {
    LeafProposal { node_idx, split_var, split_val: b(split_val), left, right }
}

fn split(
    tree: &mut TreeArrays,
    node: usize,
    var: u32,
    val: f64,
    left: LeafPayload,
    right: LeafPayload,
) {
    tree.split_node(node, var, b(val), proposal(node, var, val, left, right));
}

#[test]
fn test_new_tree_is_single_leaf() {
    let tree = TreeArrays::new(b(1.5), 10, 5, 1);
    assert_eq!(tree.size, 1);
    assert!(tree.is_leaf(0));
    assert_eq!(f(tree.leaf_val[0]), 1.5);
    assert_eq!(tree.leaf_indices.len(), 10);
    assert!(tree.leaf_indices.iter().all(|&idx| idx == 0));
}

#[test]
fn test_split_node_creates_children() {
    let mut tree = TreeArrays::new(b(0.0), 5, 5, 1);
    split(&mut tree, 0, 0, 2.5, gaussian(&[-1.0]), gaussian(&[1.0]));

    assert!(!tree.is_leaf(0));
    assert!(tree.is_leaf(1));
    assert!(tree.is_leaf(2));
    assert_eq!(f(tree.leaf_val[1]), -1.0);
    assert_eq!(f(tree.leaf_val[2]), 1.0);
    assert_eq!(tree.size, 3);
}

#[test]
fn test_get_depth() {
    let tree = TreeArrays::new(b(0.0), 1, 5, 1);
    assert_eq!(tree.get_depth(0), 0);
    assert_eq!(tree.get_depth(1), 1);
    assert_eq!(tree.get_depth(2), 1);
    assert_eq!(tree.get_depth(3), 2);
    assert_eq!(tree.get_depth(6), 2);
}

#[test]
fn test_max_nodes_for_depth() {
    assert_eq!(max_nodes_for_depth(0), 1);
    assert_eq!(max_nodes_for_depth(1), 3);
    assert_eq!(max_nodes_for_depth(2), 7);
    assert_eq!(max_nodes_for_depth(5), 63);
    assert_eq!(max_nodes_for_depth(6), 127);
    assert_eq!(max_nodes_for_depth(9), 1023);
}

#[test]
fn test_predict_training_root_only() {
    let tree = TreeArrays::new(b(3.14), 4, 5, 1);
    let preds = tree.predict_training();
    assert_eq!((preds.nrows(), preds.ncols()), (1, 4));
    for s in 0..4 {
        assert!((f(preds.get(0, s)) - 3.14).abs() < 1e-10);
    }
}

#[test]
fn test_get_leaf_samples() {
    let mut tree = TreeArrays::new(b(0.0), 4, 5, 1);
    // Manually assign samples to different leaves
    split(&mut tree, 0, 0, 0.5, gaussian(&[-1.0]), gaussian(&[1.0]));
    tree.leaf_indices = vec![1, 1, 2, 2]; // samples 0,1 -> left; 2,3 -> right

    let left_samples: Vec<usize> = tree.get_leaf_samples(1);
    let right_samples: Vec<usize> = tree.get_leaf_samples(2);

    assert_eq!(left_samples, vec![0, 1]);
    assert_eq!(right_samples, vec![2, 3]);
}

#[test]
fn test_multioutput_leaf_values() {
    let mut tree = TreeArrays::new(b(0.0), 3, 3, 2);
    // root leaf has two outputs both init 0.0
    assert_eq!(tree.leaf_val.len(), 2);
    // split root, set left=[1,2], right=[3,4]
    split(&mut tree, 0, 0, 0.5, gaussian(&[1.0, 2.0]), gaussian(&[3.0, 4.0]));
    assert_eq!(f(tree.leaf_val[1 * 2 + 0]), 1.0);
    assert_eq!(f(tree.leaf_val[1 * 2 + 1]), 2.0);
    assert_eq!(f(tree.leaf_val[2 * 2 + 0]), 3.0);
    assert_eq!(f(tree.leaf_val[2 * 2 + 1]), 4.0);

    // assign samples and test predict_training
    tree.leaf_indices = vec![1, 1, 2];
    let preds = tree.predict_training();
    assert_eq!((preds.nrows(), preds.ncols()), (2, 3));
    assert_eq!(f(preds.get(0, 0)), 1.0);
    assert_eq!(f(preds.get(1, 2)), 4.0);
}

#[test]
fn new_tree_counts_all_samples_at_the_root() {
    let tree = TreeArrays::new(b(0.5), 7, 2, 0);
    assert_eq!(tree.n_outputs(), 1);
    assert_eq!(tree.leaf_val.len(), 1);
    assert_eq!(tree.node_nvalue.len(), 7);
    assert_eq!(f(tree.node_nvalue[0]), 7.0);
    assert_eq!(f(tree.node_nvalue[1]), 0.0);
    assert!(f(tree.split_val[0]).is_nan());
    assert_eq!(tree.split_var[0], LEAF_SENTINEL);
    assert_eq!(tree.leaf_param_idx[0], usize::MAX);
}

#[test]
fn splitting_pads_the_arrays_up_to_the_children() {
    let mut tree = TreeArrays::new(b(0.0), 2, 3, 1);
    split(&mut tree, 0, 0, 0.0, gaussian(&[1.0]), gaussian(&[2.0]));
    split(&mut tree, 2, 1, 4.0, gaussian(&[3.0]), gaussian(&[5.0]));
    assert_eq!(tree.size, 7);
    assert_eq!(tree.get_leaf_indices(), vec![1, 3, 4, 5, 6]);
    assert_eq!(f(tree.leaf_val[3]), 0.0);
    assert_eq!(f(tree.leaf_val[5]), 3.0);
    assert_eq!(f(tree.leaf_val[6]), 5.0);
    assert_eq!(tree.split_var[2], 1);
    assert_eq!(f(tree.split_val[2]), 4.0);
}

#[test]
fn assignments_follow_the_threshold() {
    let x = matrix(&[&[1.0], &[2.0], &[3.0], &[f64::NAN]]);
    let mut tree = TreeArrays::new(b(0.0), 4, 2, 1);
    let affected = tree.get_leaf_samples(0);
    split(&mut tree, 0, 0, 2.0, gaussian(&[1.0]), gaussian(&[2.0]));
    tree.update_leaf_assignments(0, 0, b(2.0), &affected, &x);
    // a number equal to the threshold and a missing one go left
    assert_eq!(tree.leaf_indices, vec![1, 1, 2, 1]);
}

#[test]
fn a_line_is_evaluated_in_training() {
    let x = matrix(&[&[2.0], &[f64::NAN], &[5.0]]);
    let mut tree = TreeArrays::new(b(0.0), 3, 2, 1);
    let line = LeafPayload::Linear {
        intercept: values(&[1.0]),
        slope: values(&[10.0]),
        var: 0,
    };
    split(&mut tree, 0, 0, 3.0, line, gaussian(&[-4.0]));
    assert_eq!(tree.leaf_kind[1], LeafKind::Linear.as_u8());
    assert_eq!(tree.leaf_param_idx[1], 0);
    assert_eq!(tree.linear_var, vec![0]);
    tree.leaf_indices = vec![1, 1, 2];
    let mut out = Matrix::filled(1, 3, b(7.0));
    tree.predict_training_into_multi(&Host, &mut out, Some(&x));
    assert_eq!(f(out.get(0, 0)), 21.0);
    // a missing feature leaves the intercept
    assert_eq!(f(out.get(0, 1)), 1.0);
    assert_eq!(f(out.get(0, 2)), -4.0);
    // without the data a line cannot be evaluated, and the output keeps what it held
    let mut kept = Matrix::filled(1, 3, b(7.0));
    tree.predict_training_into_multi(&Host, &mut kept, None);
    assert_eq!(f(kept.get(0, 0)), 7.0);
}

#[test]
fn training_predictions_fill_a_list() {
    let mut tree = TreeArrays::new(b(0.0), 2, 2, 1);
    split(&mut tree, 0, 0, 3.0, gaussian(&[1.0]), gaussian(&[2.0]));
    tree.leaf_indices = vec![2, 1];
    let mut out = values(&[9.0, 9.0, 9.0]);
    tree.predict_training_into(&mut out);
    assert_eq!(out.iter().map(|v| f(*v)).collect::<Vec<f64>>(), vec![2.0, 1.0, 9.0]);
}

fn two_level_tree() -> TreeArrays {
    let mut tree = TreeArrays::new(b(0.0), 4, 3, 1);
    split(&mut tree, 0, 0, 2.0, gaussian(&[0.0]), gaussian(&[30.0]));
    split(&mut tree, 1, 1, 5.0, gaussian(&[10.0]), gaussian(&[20.0]));
    tree.node_nvalue[0] = b(4.0);
    tree.node_nvalue[1] = b(3.0);
    tree.node_nvalue[2] = b(1.0);
    tree.node_nvalue[3] = b(1.0);
    tree.node_nvalue[4] = b(2.0);
    tree
}

#[test]
fn new_rows_get_the_value_of_their_leaf() {
    let tree = two_level_tree();
    let x = matrix(&[&[1.0, 4.0], &[2.0, 6.0], &[3.0, 0.0], &[f64::NAN, 0.0]]);
    assert!(tree.can_predict(2, &vec![]));
    let r = tree.predict(&Host, &x, None);
    assert_eq!(f(r.get(0, 0)), 10.0);
    assert_eq!(f(r.get(0, 1)), 20.0);
    assert_eq!(f(r.get(0, 2)), 30.0);
    // a missing value goes right
    assert_eq!(f(r.get(0, 3)), 30.0);
}

#[test]
fn excluded_variables_are_averaged_over() {
    let tree = two_level_tree();
    let x = matrix(&[&[1.0, 4.0]]);
    let r = tree.predict_batch_test(&Host, &x, &vec![1]);
    let expected = 10.0 * (1.0 / 3.0) + 20.0 * (1.0 - 1.0 / 3.0);
    assert!((f(r.get(0, 0)) - expected).abs() < 1e-12);
    let both = tree.predict(&Host, &x, Some(vec![0, 1]));
    let expected = 0.25 * 30.0 + 0.75 * expected;
    assert!((f(both.get(0, 0)) - expected).abs() < 1e-12);
    // a variable that the tree does not split on changes nothing
    let other = tree.predict(&Host, &x, Some(vec![7]));
    assert_eq!(f(other.get(0, 0)), 10.0);
}

#[test]
fn rows_are_alike_where_all_variables_are_excluded() {
    let tree = two_level_tree();
    let x = matrix(&[&[1.0, 4.0], &[3.0, 9.0], &[f64::NAN, -1.0]]);
    let r = tree.predict(&Host, &x, Some(vec![1, 0]));
    assert_eq!(r.get(0, 0), r.get(0, 1));
    assert_eq!(r.get(0, 0), r.get(0, 2));
}

#[test]
fn a_line_adds_nothing_where_its_feature_is_missing() {
    let mut tree = TreeArrays::new(b(0.0), 1, 2, 1);
    let line = LeafPayload::Linear {
        intercept: values(&[1.0]),
        slope: values(&[2.0]),
        var: 1,
    };
    split(&mut tree, 0, 0, 0.0, line, gaussian(&[5.0]));
    let x = matrix(&[&[-1.0, 3.0], &[-1.0, f64::NAN]]);
    let r = tree.predict(&Host, &x, None);
    assert_eq!(f(r.get(0, 0)), 7.0);
    assert_eq!(f(r.get(0, 1)), 0.0);
}

#[test]
fn trees_that_cannot_be_followed_are_told() {
    let mut tree = two_level_tree();
    assert!(!tree.can_predict(1, &vec![]));
    assert!(tree.can_predict(1, &vec![1]));
    tree.split_var[3] = 0;
    assert!(!tree.can_predict(2, &vec![]));
    let mut short = two_level_tree();
    short.split_val.pop();
    assert!(!short.can_predict(2, &vec![]));
}

#[test]
fn pickling_restores_all_but_the_assignments() {
    let mut tree = two_level_tree();
    tree.leaf_indices = vec![3, 4, 2, 3];
    let (value, n_samples, max_depth, n_outputs) = tree.reduce_args();
    // a split node holds no value
    assert!(f(value).is_nan());
    assert_eq!((n_samples, max_depth, n_outputs), (4, 3, 1));
    let mut restored = TreeArrays::new(value, n_samples, max_depth, n_outputs);
    restored.set_state(tree.to_state());
    assert_eq!(restored.split_var, tree.split_var);
    assert_eq!(restored.size, 5);
    assert_eq!(f(restored.node_nvalue[4]), 2.0);
    assert_eq!(restored.leaf_indices, vec![0, 0, 0, 0]);
    let x = matrix(&[&[1.0, 6.0]]);
    assert_eq!(f(restored.predict(&Host, &x, None).get(0, 0)), 20.0);
}

#[test]
fn a_clone_is_independent() {
    let tree = two_level_tree();
    let mut copy = tree.clone();
    copy.leaf_val[2] = b(99.0);
    assert_eq!(f(tree.leaf_val[2]), 30.0);
    assert_eq!(copy.split_var, tree.split_var);
}

#[test]
fn arrays_hold_what_is_written() {
    let mut m = Matrix::filled(2, 3, b(1.5));
    assert_eq!((m.nrows(), m.ncols()), (2, 3));
    assert_eq!(f(m.get(1, 2)), 1.5);
    m.set(1, 2, b(-2.0));
    let copy = m.clone();
    m.set(0, 0, b(8.0));
    assert_eq!(f(m.get(1, 2)), -2.0);
    assert_eq!(f(copy.get(0, 0)), 1.5);
    assert_eq!(f(copy.get(1, 2)), -2.0);
    m.write_column(1, &values(&[4.0, 5.0]));
    assert_eq!(m.read_column(1), values(&[4.0, 5.0]));
    assert_eq!(f(m.get(1, 2)), -2.0);
}
