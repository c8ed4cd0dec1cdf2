//! Taking a tree apart and putting it together again.
use crate::binary64::{Binary64, ONE_BITS, ZERO_BITS};
use crate::matrix::Matrix;
use crate::numerics::{is_difference, Numerics};
use crate::predict::{
    are_child_weights, are_shared_weights, is_batch_prediction, is_leaf_added,
    is_leaf_contribution, is_left_share, is_row_split, is_subtree_added, left_indicator,
    unit_weights,
};
use crate::tree::{copied_rows, deep, TreeArrays};
use crate::tree_model::{or_zero, TreeModel};
use vstd::prelude::*;

verus! {

/// All of a tree but the leaves of the training samples.
pub struct TreeState {
    pub split_var: Vec<u32>,
    pub split_val: Vec<Binary64>,
    pub leaf_val: Vec<Binary64>,
    pub size: usize,
    pub max_depth: u8,
    pub n_outputs: usize,
    pub node_nvalue: Vec<Binary64>,
    pub leaf_kind: Vec<u8>,
    pub leaf_param_idx: Vec<usize>,
    pub linear_intercept: Vec<Vec<Binary64>>,
    pub linear_slope: Vec<Vec<Binary64>>,
    pub linear_var: Vec<u32>,
}

impl View for TreeState {
    type V = TreeModel;

    open spec fn view(&self) -> TreeModel {
        TreeModel {
            split_var: self.split_var@,
            split_val: self.split_val@,
            leaf_val: self.leaf_val@,
            leaf_indices: Seq::empty(),
            size: self.size as nat,
            max_depth: self.max_depth as nat,
            n_outputs: self.n_outputs as nat,
            node_nvalue: self.node_nvalue@,
            leaf_kind: self.leaf_kind@,
            leaf_param_idx: self.leaf_param_idx@,
            linear_intercept: deep(self.linear_intercept@),
            linear_slope: deep(self.linear_slope@),
            linear_var: self.linear_var@,
        }
    }
}

/// A tree with other leaves of the training samples.
pub open spec fn with_leaf_indices(t: TreeModel, leaf_indices: Seq<u32>) -> TreeModel {
    TreeModel { leaf_indices, ..t }
}

impl TreeArrays {
    /// Copies all but the leaves of the training samples.
    pub fn to_state(&self) -> (r: TreeState)
        ensures
            r@ == with_leaf_indices(self@, Seq::empty()),
    {
        let r = TreeState {
            split_var: self.split_var.clone(),
            split_val: self.split_val.clone(),
            leaf_val: self.leaf_val.clone(),
            size: self.size,
            max_depth: self.max_depth,
            n_outputs: self.n_outputs,
            node_nvalue: self.node_nvalue.clone(),
            leaf_kind: self.leaf_kind.clone(),
            leaf_param_idx: self.leaf_param_idx.clone(),
            linear_intercept: copied_rows(&self.linear_intercept),
            linear_slope: copied_rows(&self.linear_slope),
            linear_var: self.linear_var.clone(),
        };
        assert(r@ =~= with_leaf_indices(self@, Seq::empty()));
        r
    }

    /// Replaces all but the leaves of the training samples.
    pub fn set_state(&mut self, state: TreeState)
        ensures
            final(self)@ == with_leaf_indices(state@, old(self)@.leaf_indices),
    {
        self.split_var = state.split_var;
        self.split_val = state.split_val;
        self.leaf_val = state.leaf_val;
        self.size = state.size;
        self.max_depth = state.max_depth;
        self.n_outputs = state.n_outputs;
        self.node_nvalue = state.node_nvalue;
        self.leaf_kind = state.leaf_kind;
        self.leaf_param_idx = state.leaf_param_idx;
        self.linear_intercept = state.linear_intercept;
        self.linear_slope = state.linear_slope;
        self.linear_var = state.linear_var;
        assert(self@ =~= with_leaf_indices(state@, old(self)@.leaf_indices));
    }

    /// What a new tree is made from before its state is put in: the first leaf value, the
    /// number of samples, the greatest depth and the number of outputs.
    pub fn reduce_args(&self) -> (r: (Binary64, usize, u8, usize))
        ensures
            r.0 == or_zero(self@.leaf_val, 0),
            r.1 == self@.leaf_indices.len(),
            r.2 == self@.max_depth,
            r.3 == self@.n_outputs,
    {
        let first = if self.leaf_val.len() > 0 {
            self.leaf_val[0]
        } else {
            Binary64 { bits: ZERO_BITS }
        };
        (first, self.leaf_indices.len(), self.max_depth, self.n_outputs)
    }
}

/// A tree made anew from its arguments and given its state is the same tree, but for the
/// training samples, which all belong to the root.
pub proof fn law_pickling_restores(t: TreeModel)
    ensures
        ({
            let made = TreeModel::root(
                or_zero(t.leaf_val, 0),
                t.leaf_indices.len(),
                t.max_depth,
                t.n_outputs,
            );
            let state = with_leaf_indices(t, Seq::empty());
            with_leaf_indices(state, made.leaf_indices) == with_leaf_indices(
                t,
                Seq::new(t.leaf_indices.len(), |s: int| 0u32),
            )
        }),
{
    let made = TreeModel::root(
        or_zero(t.leaf_val, 0),
        t.leaf_indices.len(),
        t.max_depth,
        t.n_outputs,
    );
    assert(made.leaf_indices =~= Seq::new(t.leaf_indices.len(), |s: int| 0u32));
}

/// Two lists of excluded variables agree on those that a tree splits on.
pub open spec fn excludes_alike(t: TreeModel, a: Seq<usize>, b: Seq<usize>) -> bool {
    forall|i: int| #[trigger]
        t.is_internal(i) ==> (a.contains(t.split_var[i] as usize) <==> b.contains(
            t.split_var[i] as usize,
        ))
}

/// What a subtree adds does not depend on the leaves of the training samples, nor on
/// excluded variables that it does not split on.
proof fn lemma_subtree_depends_on_splits<N: Numerics>(
    num: &N,
    t: TreeModel,
    leaf_indices: Seq<u32>,
    node: int,
    weights: Seq<Binary64>,
    x: Matrix,
    a: Seq<usize>,
    b: Seq<usize>,
    before: Matrix,
    after: Matrix,
)
    requires
        is_subtree_added(num, t, node, weights, x, a, before, after),
        excludes_alike(t, a, b),
    ensures
        is_subtree_added(
            num,
            with_leaf_indices(t, leaf_indices),
            node,
            weights,
            x,
            b,
            before,
            after,
        ),
    decreases t.nodes_from(node),
{
    let u = with_leaf_indices(t, leaf_indices);
    if t.is_internal(node) {
        let (left, right, between) = choose|
            left: Seq<Binary64>,
            right: Seq<Binary64>,
            between: Matrix,
        |
            {
                &&& #[trigger] are_child_weights(num, t, node, x, a, weights, left, right)
                &&& #[trigger] between.same_shape(before)
                &&& is_subtree_added(num, t, 2 * node + 2, right, x, a, before, between)
                &&& is_subtree_added(num, t, 2 * node + 1, left, x, a, between, after)
            };
        lemma_subtree_depends_on_splits(
            num,
            t,
            leaf_indices,
            2 * node + 2,
            right,
            x,
            a,
            b,
            before,
            between,
        );
        lemma_subtree_depends_on_splits(
            num,
            t,
            leaf_indices,
            2 * node + 1,
            left,
            x,
            a,
            b,
            between,
            after,
        );
        assert(u.is_internal(node));
        assert(are_child_weights(num, u, node, x, b, weights, left, right)) by {
            if a.contains(t.split_var[node] as usize) {
                let (share, rest) = choose|share: Binary64, rest: Binary64|
                    {
                        &&& is_left_share(num, t, node, share)
                        &&& is_difference(
                            num,
                            Binary64 { bits: ONE_BITS },
                            share,
                            rest,
                        )
                        &&& #[trigger] are_shared_weights(num, share, rest, weights, left, right)
                    };
                assert(is_left_share(num, u, node, share));
            } else {
                assert forall|s: int|
                    #![trigger left[s]]
                    #![trigger right[s]]
                    0 <= s < weights.len() implies is_row_split(
                    num,
                    u,
                    node,
                    x,
                    s,
                    weights[s],
                    left[s],
                    right[s],
                ) by {
                    assert(is_row_split(num, t, node, x, s, weights[s], left[s], right[s]));
                    assert(left_indicator(u, node, x, s) == left_indicator(t, node, x, s));
                }
            }
        }
        assert(between.same_shape(before));
    } else {
        assert(!u.is_internal(node));
        assert(is_leaf_added(num, u, node, weights, x, before, after)) by {
            assert forall|o: int, s: int|
                0 <= o < after.height() && 0 <= s < after.width() implies is_leaf_contribution(
                num,
                u,
                node,
                s,
                o,
                x,
                weights[s],
                before.at(o, s),
                #[trigger] after.at(o, s),
            ) by {
                assert(is_leaf_contribution(
                    num,
                    t,
                    node,
                    s,
                    o,
                    x,
                    weights[s],
                    before.at(o, s),
                    after.at(o, s),
                ));
            }
        }
    }
}

/// What a tree predicts for new rows depends neither on the leaves of its training samples,
/// so that it outlives pickling, nor on excluded variables that it does not split on.
pub proof fn law_prediction_depends_on_splits<N: Numerics>(
    num: &N,
    t: TreeModel,
    leaf_indices: Seq<u32>,
    x: Matrix,
    a: Seq<usize>,
    b: Seq<usize>,
    r: Matrix,
)
    requires
        is_batch_prediction(num, t, x, a, r),
        excludes_alike(t, a, b),
    ensures
        is_batch_prediction(num, with_leaf_indices(t, leaf_indices), x, b, r),
{
    let zeros = choose|zeros: Matrix|
        {
            &&& zeros.height() == t.n_outputs
            &&& zeros.width() == x.height()
            &&& forall|o: int, s: int|
                0 <= o < t.n_outputs && 0 <= s < x.height() ==> #[trigger] zeros.at(o, s) == (
                Binary64 { bits: ZERO_BITS })
            &&& #[trigger] is_subtree_added(
                num,
                t,
                0,
                unit_weights(x.height()),
                x,
                a,
                zeros,
                r,
            )
        };
    lemma_subtree_depends_on_splits(
        num,
        t,
        leaf_indices,
        0,
        unit_weights(x.height()),
        x,
        a,
        b,
        zeros,
        r,
    );
    let u = with_leaf_indices(t, leaf_indices);
    assert(is_subtree_added(num, u, 0, unit_weights(x.height()), x, b, zeros, r));
}

} // verus!
