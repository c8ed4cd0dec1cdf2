//! What a tree predicts.
use crate::binary64::{Binary64, ONE_BITS, ZERO_BITS};
use crate::matrix::{can_allocate, Matrix};
use crate::numerics::{
    is_difference, is_line, is_product, is_quotient, is_sum, line, Numerics,
};
use crate::response::LeafKind;
use crate::tree::{TreeArrays, LEAF_SENTINEL};
use crate::tree_model::{or_zero, TreeModel, LEAF_PARAM_NONE};
use vstd::prelude::*;

verus! {

/// The element of `values` at `o`, zero past its end.
fn element_or_zero(values: &Vec<Binary64>, o: usize) -> (r: Binary64)
    ensures
        r == or_zero(values@, o as int),
{
    if o < values.len() {
        values[o]
    } else {
        Binary64 { bits: ZERO_BITS }
    }
}

impl TreeModel {
    /// Leaf `leaf` has a line.
    pub open spec fn has_line(self, leaf: int) -> bool {
        self.kind(leaf) == LeafKind::Linear && self.leaf_param_idx[leaf] != usize::MAX
    }

    /// The line of a leaf is stored, and its feature is one of `width`.
    pub open spec fn line_readable(self, leaf: int, width: nat) -> bool {
        let p = self.leaf_param_idx[leaf] as int;
        &&& leaf < self.leaf_param_idx.len()
        &&& self.leaf_param_idx[leaf] != usize::MAX ==> {
            &&& p < self.linear_var.len()
            &&& p < self.linear_intercept.len()
            &&& p < self.linear_slope.len()
            &&& self.linear_var[p] < width
        }
    }

    /// The feature in which a leaf's line runs.
    pub open spec fn line_var(self, leaf: int) -> int {
        self.linear_var[self.leaf_param_idx[leaf] as int] as int
    }

    /// The intercept of a leaf's line for output `o`.
    pub open spec fn line_intercept(self, leaf: int, o: int) -> Binary64 {
        or_zero(self.linear_intercept[self.leaf_param_idx[leaf] as int], o)
    }

    /// The slope of a leaf's line for output `o`.
    pub open spec fn line_slope(self, leaf: int, o: int) -> Binary64 {
        or_zero(self.linear_slope[self.leaf_param_idx[leaf] as int], o)
    }

    /// What a leaf predicts for `rows` outputs of training sample `s` can be looked up.
    pub open spec fn training_readable(
        self,
        leaf: int,
        s: int,
        rows: nat,
        x: Option<&Matrix>,
    ) -> bool {
        &&& 0 <= leaf < self.leaf_kind.len()
        &&& match self.kind(leaf) {
            LeafKind::Gaussian => leaf * self.n_outputs + rows <= self.leaf_val.len(),
            LeafKind::Linear => x matches Some(x) ==> {
                &&& self.line_readable(leaf, x.width())
                &&& self.leaf_param_idx[leaf] != usize::MAX ==> s < x.height()
            },
        }
    }
}

/// `after` is what leaf `leaf` predicts as output `o` of training sample `s`: the stored
/// value, or the point of its line, or the intercept where the feature is missing. A leaf
/// whose line cannot be evaluated keeps `before`.
pub open spec fn is_training_value<N: Numerics>(
    num: &N,
    t: TreeModel,
    leaf: int,
    s: int,
    o: int,
    x: Option<&Matrix>,
    before: Binary64,
    after: Binary64,
) -> bool {
    if t.kind(leaf) == LeafKind::Gaussian {
        after == t.value(leaf, o)
    } else if x is Some && t.has_line(leaf) {
        let v = x->0.at(s, t.line_var(leaf));
        if v.is_nan_spec() {
            after == t.line_intercept(leaf, o)
        } else {
            is_line(num, t.line_intercept(leaf, o), t.line_slope(leaf, o), v, after)
        }
    } else {
        after == before
    }
}

/// Every element of `after` is what the tree predicts for the training sample of its
/// column, given the array as it was `before`.
pub open spec fn is_training_prediction<N: Numerics>(
    num: &N,
    t: TreeModel,
    x: Option<&Matrix>,
    before: Matrix,
    after: Matrix,
) -> bool {
    &&& after.same_shape(before)
    &&& forall|o: int, s: int|
        0 <= o < after.height() && 0 <= s < after.width() ==> is_training_value(
            num,
            t,
            t.leaf_indices[s] as int,
            s,
            o,
            x,
            before.at(o, s),
            #[trigger] after.at(o, s),
        )
}

impl TreeArrays {
    /// Writes what a leaf predicts for one training sample.
    fn fill_training_leaf_value<N: Numerics>(
        &self,
        num: &N,
        leaf_idx: usize,
        sample_idx: usize,
        n_outputs: usize,
        x_data: Option<&Matrix>,
        out: &mut Matrix,
    )
        requires
            self@.training_readable(leaf_idx as int, sample_idx as int, n_outputs as nat, x_data),
            n_outputs == old(out).height(),
            sample_idx < old(out).width(),
        ensures
            final(out).same_shape(*old(out)),
            forall|o: int, s: int|
                0 <= o < n_outputs && s != sample_idx ==> #[trigger] final(out).at(o, s) == old(
                    out,
                ).at(o, s),
            forall|o: int|
                0 <= o < n_outputs ==> is_training_value(
                    num,
                    self@,
                    leaf_idx as int,
                    sample_idx as int,
                    o,
                    x_data,
                    old(out).at(o, sample_idx as int),
                    #[trigger] final(out).at(o, sample_idx as int),
                ),
    {
        match LeafKind::from_u8(self.leaf_kind[leaf_idx]) {
            LeafKind::Gaussian => {
                assert(self.leaf_val.len() == self@.leaf_val.len());
                assert(leaf_idx * self.n_outputs >= 0) by (nonlinear_arith);
                let start: usize = leaf_idx * self.n_outputs;
                for out_idx in 0..n_outputs
                    invariant
                        start == leaf_idx * self.n_outputs,
                        start + n_outputs <= self.leaf_val.len(),
                        n_outputs == old(out).height(),
                        sample_idx < old(out).width(),
                        out.same_shape(*old(out)),
                        forall|o: int, s: int|
                            0 <= o < n_outputs && s != sample_idx ==> #[trigger] out.at(o, s)
                                == old(out).at(o, s),
                        forall|o: int|
                            0 <= o < out_idx ==> #[trigger] out.at(o, sample_idx as int)
                                == self@.value(leaf_idx as int, o),
                {
                    out.set(out_idx, sample_idx, self.leaf_val[start + out_idx]);
                }
            },
            LeafKind::Linear => {
                let x = match x_data {
                    Some(x) => x,
                    None => {
                        return;
                    },
                };
                let param_idx: usize = self.leaf_param_idx[leaf_idx];
                if param_idx == LEAF_PARAM_NONE {
                    return;
                }
                let var: usize = self.linear_var[param_idx] as usize;
                let v = x.get(sample_idx, var);
                for out_idx in 0..n_outputs
                    invariant
                        x_data == Some(x),
                        self@.kind(leaf_idx as int) == LeafKind::Linear,
                        self@.leaf_param_idx[leaf_idx as int] == param_idx,
                        param_idx != usize::MAX,
                        param_idx < self.linear_intercept@.len(),
                        param_idx < self.linear_slope@.len(),
                        v == x.at(sample_idx as int, self@.line_var(leaf_idx as int)),
                        n_outputs == old(out).height(),
                        sample_idx < old(out).width(),
                        out.same_shape(*old(out)),
                        forall|o: int, s: int|
                            0 <= o < n_outputs && s != sample_idx ==> #[trigger] out.at(o, s)
                                == old(out).at(o, s),
                        forall|o: int|
                            0 <= o < out_idx ==> is_training_value(
                                num,
                                self@,
                                leaf_idx as int,
                                sample_idx as int,
                                o,
                                x_data,
                                old(out).at(o, sample_idx as int),
                                #[trigger] out.at(o, sample_idx as int),
                            ),
                {
                    let intercept = element_or_zero(&self.linear_intercept[param_idx], out_idx);
                    let slope = element_or_zero(&self.linear_slope[param_idx], out_idx);
                    let value = if v.is_nan() {
                        intercept
                    } else {
                        line(num, intercept, slope, v)
                    };
                    out.set(out_idx, sample_idx, value);
                }
            },
        }
    }

    /// Writes what the tree predicts for all training samples, one row per output.
    pub fn predict_training_into_multi<N: Numerics>(
        &self,
        num: &N,
        out: &mut Matrix,
        x_data: Option<&Matrix>,
    )
        requires
            old(out).width() == self@.leaf_indices.len(),
            forall|s: int|
                0 <= s < self@.leaf_indices.len() ==> self@.training_readable(
                    #[trigger] self@.leaf_indices[s] as int,
                    s,
                    old(out).height(),
                    x_data,
                ),
        ensures
            is_training_prediction(num, self@, x_data, *old(out), *final(out)),
    {
        let n_outputs = out.nrows();
        let n_samples = out.ncols();
        for sample_idx in 0..n_samples
            invariant
                n_outputs == old(out).height(),
                n_samples == old(out).width(),
                n_samples == self@.leaf_indices.len(),
                out.same_shape(*old(out)),
                forall|s: int|
                    0 <= s < self@.leaf_indices.len() ==> self@.training_readable(
                        #[trigger] self@.leaf_indices[s] as int,
                        s,
                        old(out).height(),
                        x_data,
                    ),
                forall|o: int, s: int|
                    0 <= o < n_outputs && sample_idx <= s < n_samples ==> #[trigger] out.at(o, s)
                        == old(out).at(o, s),
                forall|o: int, s: int|
                    0 <= o < n_outputs && 0 <= s < sample_idx ==> is_training_value(
                        num,
                        self@,
                        self@.leaf_indices[s] as int,
                        s,
                        o,
                        x_data,
                        old(out).at(o, s),
                        #[trigger] out.at(o, s),
                    ),
        {
            let leaf_idx: usize = self.leaf_indices[sample_idx] as usize;
            assert(self@.training_readable(
                self@.leaf_indices[sample_idx as int] as int,
                sample_idx as int,
                old(out).height(),
                x_data,
            ));
            self.fill_training_leaf_value(num, leaf_idx, sample_idx, n_outputs, x_data, out);
        }
    }
}

/// `after` is `before` plus `weight` times what leaf `leaf` predicts as output `o` of row
/// `s` of `x`. A line adds nothing where its feature is missing.
pub open spec fn is_leaf_contribution<N: Numerics>(
    num: &N,
    t: TreeModel,
    leaf: int,
    s: int,
    o: int,
    x: Matrix,
    weight: Binary64,
    before: Binary64,
    after: Binary64,
) -> bool {
    if t.kind(leaf) == LeafKind::Gaussian {
        is_weighted_sum(num, before, weight, t.value(leaf, o), after)
    } else if t.has_line(leaf) {
        let v = x.at(s, t.line_var(leaf));
        if v.is_nan_spec() {
            is_weighted_sum(num, before, weight, Binary64 { bits: ZERO_BITS }, after)
        } else {
            exists|c: Binary64|
                is_line(num, t.line_intercept(leaf, o), t.line_slope(leaf, o), v, c)
                    && #[trigger] is_weighted_sum(num, before, weight, c, after)
        }
    } else {
        after == before
    }
}

/// `after` is `before + weight * value`: the product first.
pub open spec fn is_weighted_sum<N: Numerics>(
    num: &N,
    before: Binary64,
    weight: Binary64,
    value: Binary64,
    after: Binary64,
) -> bool {
    exists|p: Binary64|
        is_product(num, weight, value, p) && #[trigger] is_sum(num, before, p, after)
}

/// `before + weight * value`.
fn weighted_sum<N: Numerics>(num: &N, before: Binary64, weight: Binary64, value: Binary64) -> (r:
    Binary64)
    ensures
        is_weighted_sum(num, before, weight, value, r),
{
    let p = num.times(weight, value);
    assert(is_product(num, weight, value, p));
    let r = num.plus(before, p);
    assert(is_sum(num, before, p, r));
    r
}

/// `after` is `before` with the weighted prediction of leaf `leaf` added throughout.
pub open spec fn is_leaf_added<N: Numerics>(
    num: &N,
    t: TreeModel,
    leaf: int,
    weights: Seq<Binary64>,
    x: Matrix,
    before: Matrix,
    after: Matrix,
) -> bool {
    &&& after.same_shape(before)
    &&& forall|o: int, s: int|
        0 <= o < after.height() && 0 <= s < after.width() ==> is_leaf_contribution(
            num,
            t,
            leaf,
            s,
            o,
            x,
            weights[s],
            before.at(o, s),
            #[trigger] after.at(o, s),
        )
}

/// `share` is the part of the samples of `node` that its left child got in training, zero
/// where the node has no samples.
pub open spec fn is_left_share<N: Numerics>(
    num: &N,
    t: TreeModel,
    node: int,
    share: Binary64,
) -> bool {
    let all = t.node_nvalue[node];
    if (Binary64 { bits: ZERO_BITS }).lt_spec(all) {
        is_quotient(num, t.node_nvalue[2 * node + 1], all, share)
    } else {
        share == (Binary64 { bits: ZERO_BITS })
    }
}

/// One where row `s` of `x` goes left at `node`, zero where it goes right or its feature
/// is missing.
pub open spec fn left_indicator(t: TreeModel, node: int, x: Matrix, s: int) -> Binary64 {
    if x.at(s, t.split_var[node] as int).le_spec(t.split_val[node]) {
        Binary64 { bits: ONE_BITS }
    } else {
        Binary64 { bits: ZERO_BITS }
    }
}

/// `left` and `right` are the two parts of a weight of which `share` goes left.
pub open spec fn is_weight_split<N: Numerics>(
    num: &N,
    weight: Binary64,
    share: Binary64,
    rest: Binary64,
    left: Binary64,
    right: Binary64,
) -> bool {
    &&& is_product(num, weight, share, left)
    &&& is_product(num, weight, rest, right)
}

/// `left` and `right` are the two parts of the weight with which row `s` of `x` reaches
/// `node`: all of it on the side of the row.
pub open spec fn is_row_split<N: Numerics>(
    num: &N,
    t: TreeModel,
    node: int,
    x: Matrix,
    s: int,
    weight: Binary64,
    left: Binary64,
    right: Binary64,
) -> bool {
    let indicator = left_indicator(t, node, x, s);
    exists|rest: Binary64|
        {
            &&& #[trigger] is_difference(num, Binary64 { bits: ONE_BITS }, indicator, rest)
            &&& is_weight_split(num, weight, indicator, rest, left, right)
        }
}

/// All `weights` are parted in the same way.
pub open spec fn are_shared_weights<N: Numerics>(
    num: &N,
    share: Binary64,
    rest: Binary64,
    weights: Seq<Binary64>,
    left: Seq<Binary64>,
    right: Seq<Binary64>,
) -> bool {
    forall|s: int|
        #![trigger left[s]]
        #![trigger right[s]]
        0 <= s < weights.len() ==> is_weight_split(
            num,
            weights[s],
            share,
            rest,
            left[s],
            right[s],
        )
}

/// How the weights that reach `node` are parted among its children: by the part of the
/// training samples where the split variable is excluded, otherwise row by row.
pub open spec fn are_child_weights<N: Numerics>(
    num: &N,
    t: TreeModel,
    node: int,
    x: Matrix,
    excluded: Seq<usize>,
    weights: Seq<Binary64>,
    left: Seq<Binary64>,
    right: Seq<Binary64>,
) -> bool {
    &&& left.len() == weights.len()
    &&& right.len() == weights.len()
    &&& if excluded.contains(t.split_var[node] as usize) {
        exists|share: Binary64, rest: Binary64|
            {
                &&& is_left_share(num, t, node, share)
                &&& is_difference(num, Binary64 { bits: ONE_BITS }, share, rest)
                &&& #[trigger] are_shared_weights(num, share, rest, weights, left, right)
            }
    } else {
        forall|s: int|
            #![trigger left[s]]
            #![trigger right[s]]
            0 <= s < weights.len() ==> is_row_split(
                num,
                t,
                node,
                x,
                s,
                weights[s],
                left[s],
                right[s],
            )
    }
}

/// `after` is `before` plus what the subtree under `node` predicts for rows of `x` that
/// reach it with `weights`, right subtrees first.
pub open spec fn is_subtree_added<N: Numerics>(
    num: &N,
    t: TreeModel,
    node: int,
    weights: Seq<Binary64>,
    x: Matrix,
    excluded: Seq<usize>,
    before: Matrix,
    after: Matrix,
) -> bool
    decreases t.nodes_from(node),
{
    if t.is_internal(node) {
        exists|left: Seq<Binary64>, right: Seq<Binary64>, between: Matrix|
            {
                &&& #[trigger] are_child_weights(num, t, node, x, excluded, weights, left, right)
                &&& #[trigger] between.same_shape(before)
                &&& is_subtree_added(
                    num,
                    t,
                    2 * node + 2,
                    right,
                    x,
                    excluded,
                    before,
                    between,
                )
                &&& is_subtree_added(num, t, 2 * node + 1, left, x, excluded, between, after)
            }
    } else {
        is_leaf_added(num, t, node, weights, x, before, after)
    }
}

/// `after` is the sum over the subtrees on a stack, taken from its top.
spec fn is_stack_added<N: Numerics>(
    num: &N,
    t: TreeModel,
    stack: Seq<(usize, Vec<Binary64>)>,
    x: Matrix,
    excluded: Seq<usize>,
    before: Matrix,
    after: Matrix,
) -> bool
    decreases stack.len(),
{
    if stack.len() == 0 {
        after == before
    } else {
        let (node, weights) = stack.last();
        exists|between: Matrix|
            {
                &&& #[trigger] is_subtree_added(
                    num,
                    t,
                    node as int,
                    weights@,
                    x,
                    excluded,
                    before,
                    between,
                )
                &&& is_stack_added(num, t, stack.drop_last(), x, excluded, between, after)
            }
    }
}

impl TreeModel {
    /// The number of nodes from `node` on.
    pub open spec fn nodes_from(self, node: int) -> nat {
        if 0 <= node < self.len() {
            (self.len() - node) as nat
        } else {
            0
        }
    }

    /// What the subtree under `node` predicts for rows of `width` features can be looked
    /// up.
    pub open spec fn subtree_readable(self, node: int, width: nat, excluded: Seq<usize>) -> bool
        decreases self.nodes_from(node),
    {
        if self.is_internal(node) {
            &&& 2 * node + 2 < self.len()
            &&& if excluded.contains(self.split_var[node] as usize) {
                2 * node + 1 < self.node_nvalue.len()
            } else {
                self.split_var[node] < width
            }
            &&& self.subtree_readable(2 * node + 1, width, excluded)
            &&& self.subtree_readable(2 * node + 2, width, excluded)
        } else {
            &&& self.is_leaf(node)
            &&& self.kind(node) == LeafKind::Linear ==> self.line_readable(node, width)
        }
    }

    /// The number of nodes in the subtree under `node`.
    pub open spec fn subtree_size(self, node: int) -> nat
        decreases self.nodes_from(node),
    {
        if self.is_internal(node) {
            1 + self.subtree_size(2 * node + 1) + self.subtree_size(2 * node + 2)
        } else {
            1
        }
    }

    /// The number of nodes in all subtrees on a stack.
    spec fn stack_size(self, stack: Seq<(usize, Vec<Binary64>)>) -> nat
        decreases stack.len(),
    {
        if stack.len() == 0 {
            0
        } else {
            self.stack_size(stack.drop_last()) + self.subtree_size(stack.last().0 as int)
        }
    }
}

impl TreeArrays {
    /// Adds the weighted prediction of a leaf.
    fn add_leaf_prediction<N: Numerics>(
        &self,
        num: &N,
        node_idx: usize,
        weights: &Vec<Binary64>,
        data: &Matrix,
        predictions: &mut Matrix,
    )
        requires
            self@.shaped(),
            node_idx < self@.len(),
            self@.kind(node_idx as int) == LeafKind::Linear ==> self@.line_readable(
                node_idx as int,
                data.width(),
            ),
            old(predictions).height() == self@.n_outputs,
            old(predictions).width() == data.height(),
            weights@.len() == data.height(),
        ensures
            is_leaf_added(
                num,
                self@,
                node_idx as int,
                weights@,
                *data,
                *old(predictions),
                *final(predictions),
            ),
    {
        let kind = LeafKind::from_u8(self.leaf_kind[node_idx]);
        let param_idx: usize = self.leaf_param_idx[node_idx];
        if kind == LeafKind::Linear && param_idx == LEAF_PARAM_NONE {
            return;
        }
        let n_samples = data.nrows();
        proof {
            assert(self.leaf_val.len() == self@.leaf_val.len());
            let (node, n, len) = (node_idx as int, self.n_outputs as int, self@.len() as int);
            assert(0 <= node * n) by (nonlinear_arith)
                requires
                    0 <= node,
                    0 <= n,
            ;
            assert(node * n + n <= len * n) by (nonlinear_arith)
                requires
                    node + 1 <= len,
                    0 <= n,
            ;
        }
        let start: usize = node_idx * self.n_outputs;
        for out_idx in 0..self.n_outputs
            invariant
                kind == self@.kind(node_idx as int),
                node_idx < self@.len(),
                param_idx == self@.leaf_param_idx[node_idx as int],
                kind == LeafKind::Linear ==> param_idx != usize::MAX && self@.line_readable(
                    node_idx as int,
                    data.width(),
                ),
                start == node_idx * self.n_outputs,
                start + self.n_outputs <= self.leaf_val.len(),
                n_samples == data.height(),
                weights@.len() == n_samples,
                predictions.same_shape(*old(predictions)),
                predictions.height() == self@.n_outputs,
                predictions.width() == n_samples,
                forall|o: int, s: int|
                    out_idx <= o < self.n_outputs && 0 <= s < n_samples
                        ==> #[trigger] predictions.at(o, s) == old(predictions).at(o, s),
                forall|o: int, s: int|
                    0 <= o < out_idx && 0 <= s < n_samples ==> is_leaf_contribution(
                        num,
                        self@,
                        node_idx as int,
                        s,
                        o,
                        *data,
                        weights@[s],
                        old(predictions).at(o, s),
                        #[trigger] predictions.at(o, s),
                    ),
        {
            for s in 0..n_samples
                invariant
                    out_idx < self.n_outputs,
                    kind == self@.kind(node_idx as int),
                    node_idx < self@.len(),
                    param_idx == self@.leaf_param_idx[node_idx as int],
                    kind == LeafKind::Linear ==> param_idx != usize::MAX && self@.line_readable(
                        node_idx as int,
                        data.width(),
                    ),
                    start == node_idx * self.n_outputs,
                    start + self.n_outputs <= self.leaf_val.len(),
                    n_samples == data.height(),
                    weights@.len() == n_samples,
                    predictions.same_shape(*old(predictions)),
                    predictions.height() == self@.n_outputs,
                    predictions.width() == n_samples,
                    forall|o: int, j: int|
                        (out_idx < o < self.n_outputs || o == out_idx && s <= j) && 0 <= j
                            < n_samples ==> #[trigger] predictions.at(o, j) == old(predictions).at(
                            o,
                            j,
                        ),
                    forall|o: int, j: int|
                        (0 <= o < out_idx || o == out_idx && j < s) && 0 <= j < n_samples
                            ==> is_leaf_contribution(
                            num,
                            self@,
                            node_idx as int,
                            j,
                            o,
                            *data,
                            weights@[j],
                            old(predictions).at(o, j),
                            #[trigger] predictions.at(o, j),
                        ),
            {
                let before = predictions.get(out_idx, s);
                let value = match kind {
                    LeafKind::Gaussian => self.leaf_val[start + out_idx],
                    LeafKind::Linear => {
                        let v = data.get(s, self.linear_var[param_idx] as usize);
                        if v.is_nan() {
                            Binary64 { bits: ZERO_BITS }
                        } else {
                            let intercept = element_or_zero(
                                &self.linear_intercept[param_idx],
                                out_idx,
                            );
                            let slope = element_or_zero(&self.linear_slope[param_idx], out_idx);
                            line(num, intercept, slope, v)
                        }
                    },
                };
                let after = weighted_sum(num, before, weights[s], value);
                assert(is_leaf_contribution(
                    num,
                    self@,
                    node_idx as int,
                    s as int,
                    out_idx as int,
                    *data,
                    weights@[s as int],
                    before,
                    after,
                ));
                predictions.set(out_idx, s, after);
            }
        }
    }

    /// Parts the weights that reach an internal node among its children.
    fn part_weights<N: Numerics>(
        &self,
        num: &N,
        node_idx: usize,
        data: &Matrix,
        excluded: &Vec<usize>,
        weights: &Vec<Binary64>,
    ) -> (r: (Vec<Binary64>, Vec<Binary64>))
        requires
            self@.shaped(),
            self@.is_internal(node_idx as int),
            2 * node_idx + 2 < self@.len(),
            if excluded@.contains(self@.split_var[node_idx as int] as usize) {
                2 * node_idx + 1 < self@.node_nvalue.len()
            } else {
                self@.split_var[node_idx as int] < data.width()
            },
            weights@.len() == data.height(),
        ensures
            are_child_weights(
                num,
                self@,
                node_idx as int,
                *data,
                excluded@,
                weights@,
                r.0@,
                r.1@,
            ),
    {
        let split_var: usize = self.split_var[node_idx] as usize;
        let threshold = self.split_val[node_idx];
        let one = Binary64 { bits: ONE_BITS };
        let zero = Binary64 { bits: ZERO_BITS };
        let mut left: Vec<Binary64> = Vec::new();
        let mut right: Vec<Binary64> = Vec::new();
        let n_samples = data.nrows();
        assert(self.split_var.len() == self@.len());
        if contains(excluded, split_var) {
            let left_child: usize = 2 * node_idx + 1;
            let all = self.node_nvalue[node_idx];
            let share = if zero.lt(all) {
                num.over(self.node_nvalue[left_child], all)
            } else {
                zero
            };
            let rest = num.minus(one, share);
            assert(is_left_share(num, self@, node_idx as int, share));
            assert(is_difference(num, one, share, rest));
            for s in 0..n_samples
                invariant
                    n_samples == weights@.len(),
                    left@.len() == s,
                    right@.len() == s,
                    forall|j: int|
                        #![trigger left@[j]]
                        #![trigger right@[j]]
                        0 <= j < s ==> is_weight_split(
                            num,
                            weights@[j],
                            share,
                            rest,
                            left@[j],
                            right@[j],
                        ),
            {
                let to_left = num.times(weights[s], share);
                assert(is_product(num, weights@[s as int], share, to_left));
                let to_right = num.times(weights[s], rest);
                assert(is_product(num, weights@[s as int], rest, to_right));
                left.push(to_left);
                right.push(to_right);
            }
            assert(are_shared_weights(num, share, rest, weights@, left@, right@));
        } else {
            for s in 0..n_samples
                invariant
                    n_samples == weights@.len(),
                    n_samples == data.height(),
                    split_var < data.width(),
                    split_var == self@.split_var[node_idx as int],
                    threshold == self@.split_val[node_idx as int],
                    one == (Binary64 { bits: ONE_BITS }),
                    zero == (Binary64 { bits: ZERO_BITS }),
                    left@.len() == s,
                    right@.len() == s,
                    forall|j: int|
                        #![trigger left@[j]]
                        #![trigger right@[j]]
                        0 <= j < s ==> is_row_split(
                            num,
                            self@,
                            node_idx as int,
                            *data,
                            j,
                            weights@[j],
                            left@[j],
                            right@[j],
                        ),
            {
                let indicator = if data.get(s, split_var).le(threshold) {
                    one
                } else {
                    zero
                };
                assert(indicator == left_indicator(self@, node_idx as int, *data, s as int));
                let rest = num.minus(one, indicator);
                assert(is_difference(
                    num,
                    Binary64 { bits: ONE_BITS },
                    left_indicator(self@, node_idx as int, *data, s as int),
                    rest,
                ));
                let to_left = num.times(weights[s], indicator);
                assert(is_product(num, weights@[s as int], indicator, to_left));
                let to_right = num.times(weights[s], rest);
                assert(is_product(num, weights@[s as int], rest, to_right));
                left.push(to_left);
                right.push(to_right);
                assert(is_weight_split(
                    num,
                    weights@[s as int],
                    indicator,
                    rest,
                    to_left,
                    to_right,
                ));
                assert(is_row_split(
                    num,
                    self@,
                    node_idx as int,
                    *data,
                    s as int,
                    weights@[s as int],
                    to_left,
                    to_right,
                ));
            }
        }
        (left, right)
    }

    /// Predicts each row of `data` by sending it down the tree, one row per output. At a
    /// node that splits on an excluded variable a row takes both ways, weighted by the
    /// training samples that went each way.
    pub fn predict_batch_test<N: Numerics>(
        &self,
        num: &N,
        data: &Matrix,
        excluded: &Vec<usize>,
    ) -> (r: Matrix)
        requires
            self@.shaped(),
            self@.subtree_readable(0, data.width(), excluded@),
            can_allocate(self@.n_outputs as int, data.height() as int),
        ensures
            is_batch_prediction(num, self@, *data, excluded@, r),
    {
        let n_samples = data.nrows();
        let mut predictions = Matrix::filled(self.n_outputs, n_samples, Binary64 { bits: ZERO_BITS });
        let ghost zeros = predictions;
        let ones: Vec<Binary64> = vec![Binary64 { bits: ONE_BITS }; n_samples];
        let ghost start = ones@;
        assert(start =~= unit_weights(n_samples as nat));
        let mut stack: Vec<(usize, Vec<Binary64>)> = Vec::new();
        stack.push((0, ones));
        proof {
            assert(stack@.drop_last() =~= Seq::empty());
            assert forall|out: Matrix|
                is_stack_added(num, self@, stack@, *data, excluded@, predictions, out) implies
                is_subtree_added(num, self@, 0, start, *data, excluded@, zeros, out) by {
                let between = choose|between: Matrix|
                    {
                        &&& #[trigger] is_subtree_added(
                            num,
                            self@,
                            0,
                            start,
                            *data,
                            excluded@,
                            predictions,
                            between,
                        )
                        &&& is_stack_added(
                            num,
                            self@,
                            stack@.drop_last(),
                            *data,
                            excluded@,
                            between,
                            out,
                        )
                    };
                assert(between == out);
            }
        }
        while !stack.is_empty()
            invariant
                self@.shaped(),
                n_samples == data.height(),
                predictions.height() == self@.n_outputs,
                predictions.width() == n_samples,
                forall|k: int|
                    0 <= k < stack@.len() ==> {
                        &&& self@.subtree_readable(
                            (#[trigger] stack@[k]).0 as int,
                            data.width(),
                            excluded@,
                        )
                        &&& stack@[k].1@.len() == n_samples
                    },
                forall|out: Matrix| #[trigger]
                    is_stack_added(num, self@, stack@, *data, excluded@, predictions, out)
                        ==> is_subtree_added(
                        num,
                        self@,
                        0,
                        start,
                        *data,
                        excluded@,
                        zeros,
                        out,
                    ),
            decreases self@.stack_size(stack@),
        {
            let ghost before_stack = stack@;
            let ghost before = predictions;
            let (node_idx, weights) = stack.pop().unwrap();
            let ghost rest = stack@;
            assert(rest =~= before_stack.drop_last());
            assert(before_stack.last() == (node_idx, weights));
            assert(before_stack =~= rest.push((node_idx, weights)));
            assert(self@.subtree_readable(
                before_stack[before_stack.len() - 1].0 as int,
                data.width(),
                excluded@,
            ));
            assert forall|k: int| 0 <= k < rest.len() implies {
                &&& self@.subtree_readable(
                    (#[trigger] rest[k]).0 as int,
                    data.width(),
                    excluded@,
                )
                &&& rest[k].1@.len() == n_samples
            } by {
                assert(rest[k] == before_stack[k]);
            }
            if self.is_leaf(node_idx) {
                self.add_leaf_prediction(num, node_idx, &weights, data, &mut predictions);
                assert(is_subtree_added(
                    num,
                    self@,
                    node_idx as int,
                    weights@,
                    *data,
                    excluded@,
                    before,
                    predictions,
                ));
                assert forall|out: Matrix| #[trigger]
                    is_stack_added(
                        num,
                        self@,
                        stack@,
                        *data,
                        excluded@,
                        predictions,
                        out,
                    ) implies is_stack_added(
                    num,
                    self@,
                    before_stack,
                    *data,
                    excluded@,
                    before,
                    out,
                ) by {
                    assert(before_stack.drop_last() =~= rest);
                }
            } else {
                assert(self.split_var.len() == self@.len());
                let left: usize = 2 * node_idx + 1;
                let right: usize = 2 * node_idx + 2;
                let (left_weights, right_weights) = self.part_weights(
                    num,
                    node_idx,
                    data,
                    excluded,
                    &weights,
                );
                stack.push((left, left_weights));
                let ghost middle = stack@;
                stack.push((right, right_weights));
                proof {
                    assert(middle.drop_last() =~= rest);
                    assert(stack@.drop_last() =~= middle);
                    assert(self@.stack_size(middle) == self@.stack_size(rest) + self@.subtree_size(
                        left as int,
                    ));
                    assert forall|out: Matrix| #[trigger]
                        is_stack_added(
                            num,
                            self@,
                            stack@,
                            *data,
                            excluded@,
                            predictions,
                            out,
                        ) implies is_stack_added(
                        num,
                        self@,
                        before_stack,
                        *data,
                        excluded@,
                        before,
                        out,
                    ) by {
                        lemma_split_on_stack(
                            num,
                            self@,
                            rest,
                            (node_idx, weights),
                            (left, left_weights),
                            (right, right_weights),
                            *data,
                            excluded@,
                            before,
                            out,
                        );
                    }
                }
            }
        }
        assert(is_stack_added(
            num,
            self@,
            stack@,
            *data,
            excluded@,
            predictions,
            predictions,
        ));
        predictions
    }

    /// [`TreeArrays::predict_batch_test`] with the excluded variables optional.
    pub fn predict<N: Numerics>(
        &self,
        num: &N,
        x: &Matrix,
        excluded: Option<Vec<usize>>,
    ) -> (r: Matrix)
        requires
            self@.shaped(),
            self@.subtree_readable(0, x.width(), excluded_variables(excluded)),
            can_allocate(self@.n_outputs as int, x.height() as int),
        ensures
            is_batch_prediction(num, self@, *x, excluded_variables(excluded), r),
    {
        let excl: Vec<usize> = match excluded {
            Some(list) => list,
            None => Vec::new(),
        };
        self.predict_batch_test(num, x, &excl)
    }
}

impl TreeArrays {
    /// Whether the subtree under a node can be followed and its leaves looked up.
    fn is_subtree_readable(&self, node: usize, width: usize, excluded: &Vec<usize>) -> (r: bool)
        requires
            self@.shaped(),
        ensures
            r == self@.subtree_readable(node as int, width as nat, excluded@),
        decreases self@.nodes_from(node as int),
    {
        let n: usize = self.split_var.len();
        if node >= n {
            return false;
        }
        let var: u32 = self.split_var[node];
        if var == LEAF_SENTINEL {
            return match LeafKind::from_u8(self.leaf_kind[node]) {
                LeafKind::Gaussian => true,
                LeafKind::Linear => self.is_line_readable(node, width),
            };
        }
        assert(self@.is_internal(node as int));
        if n < 3 || node > (n - 3) / 2 {
            return false;
        }
        let usable = if contains(excluded, var as usize) {
            2 * node + 1 < self.node_nvalue.len()
        } else {
            (var as usize) < width
        };
        usable && self.is_subtree_readable(2 * node + 1, width, excluded)
            && self.is_subtree_readable(2 * node + 2, width, excluded)
    }

    /// Whether the line of a leaf is stored, and its feature is one of `width`.
    fn is_line_readable(&self, leaf: usize, width: usize) -> (r: bool)
        ensures
            r == self@.line_readable(leaf as int, width as nat),
    {
        if leaf >= self.leaf_param_idx.len() {
            return false;
        }
        let p: usize = self.leaf_param_idx[leaf];
        p == LEAF_PARAM_NONE || (p < self.linear_var.len() && p < self.linear_intercept.len() && p
            < self.linear_slope.len() && (self.linear_var[p] as usize) < width)
    }

    /// Whether the tree can predict rows with `width` features.
    pub fn can_predict(&self, width: usize, excluded: &Vec<usize>) -> (r: bool)
        ensures
            r == (self@.shaped() && self@.subtree_readable(0, width as nat, excluded@)),
    {
        let n: usize = self.split_var.len();
        let values: usize = match n.checked_mul(self.n_outputs) {
            Some(values) => values,
            None => {
                assert(self.leaf_val.len() == self@.leaf_val.len());
                return false;
            },
        };
        self.n_outputs >= 1 && self.split_val.len() == n && self.leaf_kind.len() == n
            && self.leaf_param_idx.len() == n && self.leaf_val.len() == values
            && (self.max_depth as u32) + 1 < usize::BITS && self.is_subtree_readable(
            0,
            width,
            excluded,
        )
    }
}

/// The variables in an optional list.
pub open spec fn excluded_variables(excluded: Option<Vec<usize>>) -> Seq<usize> {
    match excluded {
        Some(list) => list@,
        None => Seq::empty(),
    }
}

/// The weight one for each of `n` rows.
pub open spec fn unit_weights(n: nat) -> Seq<Binary64> {
    Seq::new(n, |s: int| Binary64 { bits: ONE_BITS })
}

/// `r` is what the whole tree predicts for the rows of `x`, each starting at the root with
/// weight one.
pub open spec fn is_batch_prediction<N: Numerics>(
    num: &N,
    t: TreeModel,
    x: Matrix,
    excluded: Seq<usize>,
    r: Matrix,
) -> bool {
    exists|zeros: Matrix|
        {
            &&& zeros.height() == t.n_outputs
            &&& zeros.width() == x.height()
            &&& forall|o: int, s: int|
                0 <= o < t.n_outputs && 0 <= s < x.height() ==> #[trigger] zeros.at(o, s) == (
                Binary64 { bits: ZERO_BITS })
            &&& #[trigger] is_subtree_added(
                num,
                t,
                0,
                unit_weights(x.height()),
                x,
                excluded,
                zeros,
                r,
            )
        }
}

/// Whether `values` holds `value`.
fn contains(values: &Vec<usize>, value: usize) -> (r: bool)
    ensures
        r == values@.contains(value),
{
    for i in 0..values.len()
        invariant
            forall|j: int| 0 <= j < i ==> values@[j] != value,
    {
        if values[i] == value {
            return true;
        }
    }
    false
}

/// Adding a subtree leaves the shape of the array.
proof fn lemma_subtree_keeps_shape<N: Numerics>(
    num: &N,
    t: TreeModel,
    node: int,
    weights: Seq<Binary64>,
    x: Matrix,
    excluded: Seq<usize>,
    before: Matrix,
    after: Matrix,
)
    requires
        is_subtree_added(num, t, node, weights, x, excluded, before, after),
    ensures
        after.same_shape(before),
    decreases t.nodes_from(node),
{
    if t.is_internal(node) {
        let (left, right, between) = choose|
            left: Seq<Binary64>,
            right: Seq<Binary64>,
            between: Matrix,
        |
            {
                &&& #[trigger] are_child_weights(num, t, node, x, excluded, weights, left, right)
                &&& #[trigger] between.same_shape(before)
                &&& is_subtree_added(num, t, 2 * node + 2, right, x, excluded, before, between)
                &&& is_subtree_added(num, t, 2 * node + 1, left, x, excluded, between, after)
            };
        lemma_subtree_keeps_shape(num, t, 2 * node + 1, left, x, excluded, between, after);
    }
}

/// The two children on top of a stack add what their parent in their place adds.
proof fn lemma_split_on_stack<N: Numerics>(
    num: &N,
    t: TreeModel,
    rest: Seq<(usize, Vec<Binary64>)>,
    parent: (usize, Vec<Binary64>),
    left: (usize, Vec<Binary64>),
    right: (usize, Vec<Binary64>),
    x: Matrix,
    excluded: Seq<usize>,
    before: Matrix,
    after: Matrix,
)
    requires
        t.is_internal(parent.0 as int),
        left.0 == 2 * parent.0 + 1,
        right.0 == 2 * parent.0 + 2,
        are_child_weights(num, t, parent.0 as int, x, excluded, parent.1@, left.1@, right.1@),
        is_stack_added(num, t, rest.push(left).push(right), x, excluded, before, after),
    ensures
        is_stack_added(num, t, rest.push(parent), x, excluded, before, after),
{
    let both = rest.push(left).push(right);
    assert(both.drop_last() =~= rest.push(left));
    assert(rest.push(left).drop_last() =~= rest);
    assert(rest.push(parent).drop_last() =~= rest);
    let first = choose|first: Matrix|
        {
            &&& #[trigger] is_subtree_added(
                num,
                t,
                right.0 as int,
                right.1@,
                x,
                excluded,
                before,
                first,
            )
            &&& is_stack_added(num, t, rest.push(left), x, excluded, first, after)
        };
    let second = choose|second: Matrix|
        {
            &&& #[trigger] is_subtree_added(
                num,
                t,
                left.0 as int,
                left.1@,
                x,
                excluded,
                first,
                second,
            )
            &&& is_stack_added(num, t, rest, x, excluded, second, after)
        };
    let node = parent.0 as int;
    assert(is_subtree_added(num, t, 2 * node + 2, right.1@, x, excluded, before, first));
    assert(is_subtree_added(num, t, 2 * node + 1, left.1@, x, excluded, first, second));
    lemma_subtree_keeps_shape(num, t, 2 * node + 2, right.1@, x, excluded, before, first);
    assert(first.same_shape(before));
    assert(is_subtree_added(num, t, node, parent.1@, x, excluded, before, second));
    assert(rest.push(parent).last() == parent);
    assert(is_stack_added(
        num,
        t,
        rest.push(parent).drop_last(),
        x,
        excluded,
        second,
        after,
    ));
}

} // verus!
