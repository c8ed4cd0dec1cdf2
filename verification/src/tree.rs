//! Heap-indexed regression trees.
use crate::binary64::{Binary64, NAN_BITS, ZERO_BITS};
use crate::matrix::{can_allocate, Matrix};
use crate::response::{LeafKind, LeafPayload, LeafProposal};
use crate::tree_model::{max_nodes, node_depth, or_zero, with_row, TreeModel, LEAF_PARAM_NONE};
use vstd::arithmetic::power2::{
    lemma2_to64, lemma_pow2_pos, lemma_pow2_strictly_increases, lemma_pow2_unfold,
};
use vstd::prelude::*;

pub use crate::tree_model::LEAF_SENTINEL;

verus! {

/// A binary tree in heap order: the root is node 0 and node `i` has the children `2i + 1`
/// and `2i + 2`. Internal nodes store a split variable and a threshold, leaves store what
/// they predict. `leaf_indices` maps each training sample to its leaf.
#[derive(Debug)]
pub struct TreeArrays {
    /// Split variable per node, [`LEAF_SENTINEL`] for a leaf.
    pub split_var: Vec<u32>,
    /// Split threshold per node, NaN for a leaf.
    pub split_val: Vec<Binary64>,
    /// Leaf values, one row of outputs per node.
    pub leaf_val: Vec<Binary64>,
    /// Leaf node of each training sample.
    pub leaf_indices: Vec<u32>,
    /// Number of allocated nodes.
    pub size: usize,
    /// Maximum allowed depth.
    pub max_depth: u8,
    /// Number of outputs.
    pub n_outputs: usize,
    /// Number of samples in each node.
    pub node_nvalue: Vec<Binary64>,
    /// Leaf kind per node, as [`LeafKind::as_u8`] encodes it.
    pub leaf_kind: Vec<u8>,
    /// Place of the node's line in the three arrays below, [`LEAF_PARAM_NONE`] without one.
    pub leaf_param_idx: Vec<usize>,
    /// Intercepts per line and output.
    pub linear_intercept: Vec<Vec<Binary64>>,
    /// Slopes per line and output.
    pub linear_slope: Vec<Vec<Binary64>>,
    /// Feature of each line.
    pub linear_var: Vec<u32>,
}

/// The sequences behind a vector of vectors.
pub open spec fn deep(v: Seq<Vec<Binary64>>) -> Seq<Seq<Binary64>> {
    v.map_values(|w: Vec<Binary64>| w@)
}

impl View for TreeArrays {
    type V = TreeModel;

    open spec fn view(&self) -> TreeModel {
        TreeModel {
            split_var: self.split_var@,
            split_val: self.split_val@,
            leaf_val: self.leaf_val@,
            leaf_indices: self.leaf_indices@,
            size: self.size as nat,
            max_depth: self.max_depth as nat,
            n_outputs: self.n_outputs as nat,
            node_nvalue: self.node_nvalue@,
            leaf_kind: self.leaf_kind@,
            leaf_param_idx: self.leaf_param_idx@,
            linear_intercept: deep(self.linear_intercept@),
            linear_slope: deep(self.linear_slope@),
            linear_var: self.linear_var@,
        }
    }
}

/// A copy of a vector of vectors.
pub(crate) fn copied_rows(v: &Vec<Vec<Binary64>>) -> (r: Vec<Vec<Binary64>>)
    ensures
        deep(r@) == deep(v@),
{
    let mut r: Vec<Vec<Binary64>> = Vec::new();
    for i in 0..v.len()
        invariant
            deep(r@) == deep(v@).take(i as int),
    {
        let w = v[i].clone();
        assert(w@ =~= v[i as int]@);
        let ghost before = r@;
        r.push(w);
        assert(deep(v@).len() == v@.len());
        assert(deep(before).len() == i);
        assert(before.len() == i);
        assert forall|k: int| 0 <= k <= i implies deep(r@)[k] == deep(v@)[k] by {
            if k < i {
                assert(r@[k] == before[k]);
                assert(deep(before)[k] == deep(v@).take(i as int)[k]);
            }
        }
        assert(deep(r@) =~= deep(v@).take(i + 1));
    }
    assert(deep(v@).take(v.len() as int) =~= deep(v@));
    r
}

impl Clone for TreeArrays {
    fn clone(&self) -> (r: TreeArrays)
        ensures
            r@ == self@,
    {
        let r = TreeArrays {
            split_var: self.split_var.clone(),
            split_val: self.split_val.clone(),
            leaf_val: self.leaf_val.clone(),
            leaf_indices: self.leaf_indices.clone(),
            size: self.size,
            max_depth: self.max_depth,
            n_outputs: self.n_outputs,
            node_nvalue: self.node_nvalue.clone(),
            leaf_kind: self.leaf_kind.clone(),
            leaf_param_idx: self.leaf_param_idx.clone(),
            linear_intercept: copied_rows(&self.linear_intercept),
            linear_slope: copied_rows(&self.linear_slope),
            linear_var: self.linear_var.clone(),
        };
        assert(r@ =~= self@);
        r
    }
}

/// The number of nodes of a full tree of the given depth.
pub fn max_nodes_for_depth(depth: u8) -> (r: usize)
    requires
        depth + 1 < usize::BITS,
    ensures
        r == max_nodes(depth as nat),
{
    let shift: usize = depth as usize + 1;
    proof {
        let s = shift as nat;
        lemma_pow2_pos(s);
        lemma2_to64();
        lemma_pow2_strictly_increases(s, usize::BITS as nat);
        vstd::layout::unsigned_int_max_values();
        vstd::bits::lemma_usize_pow2_no_overflow(s);
        vstd::bits::lemma_usize_shl_is_mul(1, shift);
    }
    (1usize << shift) - 1
}

impl TreeArrays {
    /// A tree of one leaf, to which all samples belong.
    pub fn new(init_leaf_value: Binary64, n_samples: usize, max_depth: u8, n_outputs: usize) -> (r:
        TreeArrays)
        requires
            max_depth + 1 < usize::BITS,
            max_nodes(max_depth as nat) * (if n_outputs == 0 { 1 } else { n_outputs as int })
                <= usize::MAX,
        ensures
            r@ == TreeModel::root(
                init_leaf_value,
                n_samples as nat,
                max_depth as nat,
                n_outputs as nat,
            ),
    {
        let max_nodes = max_nodes_for_depth(max_depth);
        proof {
            lemma_pow2_unfold((max_depth + 1) as nat);
            lemma_pow2_pos(max_depth as nat);
        }
        let outputs: usize = if n_outputs < 1 {
            1
        } else {
            n_outputs
        };
        let mut split_var: Vec<u32> = Vec::with_capacity(max_nodes);
        let mut split_val: Vec<Binary64> = Vec::with_capacity(max_nodes);
        let mut leaf_val: Vec<Binary64> = Vec::with_capacity(max_nodes * outputs);
        let mut leaf_kind: Vec<u8> = Vec::with_capacity(max_nodes);
        let mut leaf_param_idx: Vec<usize> = Vec::with_capacity(max_nodes);
        split_var.push(LEAF_SENTINEL);
        split_val.push(Binary64 { bits: NAN_BITS });
        for o in 0..outputs
            invariant
                leaf_val@ == Seq::new(o as nat, |k: int| init_leaf_value),
        {
            leaf_val.push(init_leaf_value);
            assert(leaf_val@ =~= Seq::new((o + 1) as nat, |k: int| init_leaf_value));
        }
        leaf_kind.push(LeafKind::Gaussian.as_u8());
        leaf_param_idx.push(LEAF_PARAM_NONE);
        let mut node_nvalue: Vec<Binary64> = vec![Binary64 { bits: ZERO_BITS }; max_nodes];
        node_nvalue.set(0, Binary64::from_count(n_samples));
        let r = TreeArrays {
            split_var,
            split_val,
            leaf_val,
            leaf_indices: vec![0u32; n_samples],
            size: 1,
            max_depth,
            n_outputs: outputs,
            node_nvalue,
            leaf_kind,
            leaf_param_idx,
            linear_intercept: Vec::new(),
            linear_slope: Vec::new(),
            linear_var: Vec::new(),
        };
        assert(r@ =~= TreeModel::root(
            init_leaf_value,
            n_samples as nat,
            max_depth as nat,
            n_outputs as nat,
        ));
        r
    }

    /// The number of outputs.
    pub fn n_outputs(&self) -> (r: usize)
        ensures
            r == self@.n_outputs,
    {
        self.n_outputs
    }

    /// The depth of a node: `floor(log2(i + 1))`.
    pub fn get_depth(&self, node_idx: usize) -> (r: usize)
        requires
            node_idx < usize::MAX,
        ensures
            r == node_depth(node_idx as nat),
    {
        proof {
            lemma_leading_zeros(node_idx as nat);
        }
        let zeros: u32 = ((node_idx + 1) as u64).leading_zeros();
        63 - zeros as usize
    }

    /// Whether a node exists and has no split variable.
    pub fn is_leaf(&self, node_idx: usize) -> (r: bool)
        ensures
            r == self@.is_leaf(node_idx as int),
    {
        node_idx < self.split_var.len() && self.split_var[node_idx] == LEAF_SENTINEL
    }

    /// All leaves, in ascending order.
    pub fn get_leaf_indices(&self) -> (r: Vec<usize>)
        ensures
            r@ == self@.leaves_below(self@.size),
    {
        let mut r: Vec<usize> = Vec::new();
        for i in 0..self.size
            invariant
                r@ == self@.leaves_below(i as nat),
        {
            if self.is_leaf(i) {
                r.push(i);
            }
        }
        r
    }

    /// The samples assigned to a leaf, in ascending order.
    pub fn get_leaf_samples(&self, leaf_idx: usize) -> (r: Vec<usize>)
        requires
            self@.is_leaf(leaf_idx as int),
        ensures
            r@ == self@.samples_below(leaf_idx as u32, self@.leaf_indices.len()),
    {
        let leaf: u32 = leaf_idx as u32;
        let mut r: Vec<usize> = Vec::new();
        for s in 0..self.leaf_indices.len()
            invariant
                leaf == leaf_idx as u32,
                r@ == self@.samples_below(leaf, s as nat),
        {
            if self.leaf_indices[s] == leaf {
                r.push(s);
            }
        }
        r
    }
}

/// Where row `node` lies in a vector of rows of length `n`.
proof fn lemma_row_bounds(node: int, n: int, len: int)
    requires
        0 <= node < len,
        0 <= n,
    ensures
        0 <= node * n,
        node * n + n <= len * n,
{
    assert(0 <= node * n) by (nonlinear_arith)
        requires
            0 <= node,
            0 <= n,
    ;
    assert(node * n + n <= len * n) by (nonlinear_arith)
        requires
            node + 1 <= len,
            0 <= n,
    ;
}

/// Writes `row`, padded with zeros or cut to length `n`, as row `node`.
fn write_row(values: &mut Vec<Binary64>, n: usize, node: usize, row: &Vec<Binary64>)
    requires
        0 <= node * n,
        node * n + n <= old(values)@.len(),
    ensures
        final(values)@ == with_row(old(values)@, n as nat, node as int, |o: int| or_zero(row@, o)),
{
    let ghost before = values@;
    let len: usize = values.len();
    let start: usize = node * n;
    for o in 0..n
        invariant
            start == node * n,
            start + n <= len,
            len == before.len(),
            values@.len() == before.len(),
            forall|k: int|
                0 <= k < values@.len() ==> #[trigger] values@[k] == if start <= k < start + o {
                    or_zero(row@, k - start)
                } else {
                    before[k]
                },
    {
        let value = if o < row.len() {
            row[o]
        } else {
            Binary64 { bits: ZERO_BITS }
        };
        values.set(start + o, value);
    }
    assert(values@ =~= with_row(before, n as nat, node as int, |o: int| or_zero(row@, o)));
}

/// Appends `n` zeros.
fn push_zeros(values: &mut Vec<Binary64>, n: usize)
    ensures
        final(values)@ == old(values)@ + Seq::new(n as nat, |k: int| Binary64 { bits: ZERO_BITS }),
{
    let ghost before = values@;
    for o in 0..n
        invariant
            values@ == before + Seq::new(o as nat, |k: int| Binary64 { bits: ZERO_BITS }),
    {
        values.push(Binary64 { bits: ZERO_BITS });
        assert(values@ =~= before + Seq::new(
            (o + 1) as nat,
            |k: int| Binary64 { bits: ZERO_BITS },
        ));
    }
}

/// Writes NaN throughout row `node`.
fn clear_row(values: &mut Vec<Binary64>, n: usize, node: usize)
    requires
        0 <= node * n,
        node * n + n <= old(values)@.len(),
    ensures
        final(values)@ == with_row(
            old(values)@,
            n as nat,
            node as int,
            |o: int| Binary64 { bits: NAN_BITS },
        ),
{
    let ghost before = values@;
    let len: usize = values.len();
    let start: usize = node * n;
    for o in 0..n
        invariant
            start == node * n,
            start + n <= len,
            len == before.len(),
            values@.len() == before.len(),
            forall|k: int|
                0 <= k < values@.len() ==> #[trigger] values@[k] == if start <= k < start + o {
                    (Binary64 { bits: NAN_BITS })
                } else {
                    before[k]
                },
    {
        values.set(start + o, Binary64 { bits: NAN_BITS });
    }
    assert(values@ =~= with_row(
        before,
        n as nat,
        node as int,
        |o: int| Binary64 { bits: NAN_BITS },
    ));
}

impl TreeArrays {
    /// Gives node `node_idx` the contents of `payload`.
    fn apply_leaf_payload(&mut self, node_idx: usize, payload: LeafPayload)
        requires
            old(self)@.shaped(),
            node_idx < old(self)@.len(),
        ensures
            final(self)@ == old(self)@.with_payload(node_idx as int, payload),
    {
        proof {
            lemma_row_bounds(node_idx as int, self.n_outputs as int, self@.len() as int);
        }
        match payload {
            LeafPayload::Gaussian { value } => {
                self.leaf_kind.set(node_idx, LeafKind::Gaussian.as_u8());
                self.leaf_param_idx.set(node_idx, LEAF_PARAM_NONE);
                write_row(&mut self.leaf_val, self.n_outputs, node_idx, &value);
            },
            LeafPayload::Linear { intercept, slope, var } => {
                let idx: usize = self.linear_intercept.len();
                self.linear_intercept.push(intercept);
                self.linear_slope.push(slope);
                self.linear_var.push(var);
                self.leaf_kind.set(node_idx, LeafKind::Linear.as_u8());
                self.leaf_param_idx.set(node_idx, idx);
                clear_row(&mut self.leaf_val, self.n_outputs, node_idx);
                assert(self@.linear_intercept =~= old(self)@.linear_intercept.push(intercept@));
                assert(self@.linear_slope =~= old(self)@.linear_slope.push(slope@));
            },
        }
        assert(self@ =~= old(self)@.with_payload(node_idx as int, payload));
    }

    /// Appends leaves that predict zero until there are `required` nodes.
    fn grow(&mut self, required: usize)
        requires
            old(self)@.shaped(),
        ensures
            final(self)@ == old(self)@.grown(required as int),
            final(self)@.shaped(),
            final(self)@.len() >= required,
    {
        let ghost start = self@;
        assert(self@ =~= start.grown(start.len() as int));
        while self.split_var.len() < required
            invariant
                start.shaped(),
                self@.shaped(),
                self@ == start.grown(self@.len() as int),
                start.len() <= self@.len(),
                start.len() <= required ==> self@.len() <= required,
                required <= start.len() ==> self@ == start,
            decreases required - self@.len(),
        {
            let ghost before = self@;
            self.split_var.push(LEAF_SENTINEL);
            self.split_val.push(Binary64 { bits: NAN_BITS });
            push_zeros(&mut self.leaf_val, self.n_outputs);
            self.leaf_kind.push(LeafKind::Gaussian.as_u8());
            self.leaf_param_idx.push(LEAF_PARAM_NONE);
            proof {
                let n = before.n_outputs as int;
                let len = before.len() as int;
                assert((len + 1) * n == len * n + n) by (nonlinear_arith);
                assert(start.len() * n <= len * n) by (nonlinear_arith)
                    requires
                        start.len() <= len,
                        n >= 0,
                ;
                assert(self@.leaf_val =~= start.grown(len + 1).leaf_val);
                assert(self@ =~= start.grown(len + 1));
            }
        }
        proof {
            if start.len() >= required {
                let n = start.n_outputs as int;
                assert(required * n <= start.len() * n) by (nonlinear_arith)
                    requires
                        required <= start.len(),
                        n >= 0,
                ;
                assert(start.grown(required as int) =~= start);
            }
        }
    }

    /// Splits node `leaf_idx` into an internal node with two new leaves.
    pub fn split_node(
        &mut self,
        leaf_idx: usize,
        split_var: u32,
        split_val: Binary64,
        leaf_proposal: LeafProposal,
    )
        requires
            old(self)@.shaped(),
            2 * leaf_idx + 2 < max_nodes(old(self)@.max_depth),
        ensures
            final(self)@ == old(self)@.split(
                leaf_idx as int,
                split_var,
                split_val,
                leaf_proposal.left,
                leaf_proposal.right,
            ),
    {
        let max_nodes = max_nodes_for_depth(self.max_depth);
        let left_child: usize = 2 * leaf_idx + 1;
        let right_child: usize = 2 * leaf_idx + 2;
        let required_size: usize = right_child + 1;
        self.grow(required_size);
        let ghost grown = self@;
        proof {
            lemma_row_bounds(leaf_idx as int, self.n_outputs as int, self@.len() as int);
        }
        self.split_var.set(leaf_idx, split_var);
        self.split_val.set(leaf_idx, split_val);
        clear_row(&mut self.leaf_val, self.n_outputs, leaf_idx);
        assert(self@ =~= grown.with_split(leaf_idx as int, split_var, split_val));
        self.split_var.set(left_child, LEAF_SENTINEL);
        self.split_val.set(left_child, Binary64 { bits: NAN_BITS });
        self.apply_leaf_payload(left_child, leaf_proposal.left);
        self.split_var.set(right_child, LEAF_SENTINEL);
        self.split_val.set(right_child, Binary64 { bits: NAN_BITS });
        self.apply_leaf_payload(right_child, leaf_proposal.right);
        if self.size < right_child + 1 {
            self.size = right_child + 1;
        }
        assert(self@ =~= old(self)@.split(
            leaf_idx as int,
            split_var,
            split_val,
            leaf_proposal.left,
            leaf_proposal.right,
        ));
    }

    /// Moves samples of a split node to the child on their side of the threshold: to the
    /// right where their value exceeds it, otherwise to the left.
    pub fn update_leaf_assignments(
        &mut self,
        split_node_idx: usize,
        split_var: u32,
        split_val: Binary64,
        affected_samples: &Vec<usize>,
        x_data: &Matrix,
    )
        requires
            2 * split_node_idx + 1 <= usize::MAX,
            ((2 * split_node_idx + 1) as u32) < u32::MAX,
            affected_samples@.len() > 0 ==> split_var < x_data.width(),
            forall|k: int|
                0 <= k < affected_samples@.len() ==> {
                    &&& #[trigger] affected_samples@[k] < old(self)@.leaf_indices.len()
                    &&& affected_samples@[k] < x_data.height()
                },
        ensures
            final(self)@ == old(self)@.reassigned(
                (2 * split_node_idx + 1) as u32,
                split_var,
                split_val,
                affected_samples@,
                *x_data,
            ),
    {
        let base_child: u32 = (2 * split_node_idx + 1) as u32;
        let ghost before = self@;
        assert(self@ =~= before.reassigned(
            base_child,
            split_var,
            split_val,
            affected_samples@.take(0),
            *x_data,
        ));
        for k in 0..affected_samples.len()
            invariant
                base_child == (2 * split_node_idx + 1) as u32,
                base_child < u32::MAX,
                split_var < x_data.width() || affected_samples@.len() == 0,
                self@.leaf_indices.len() == before.leaf_indices.len(),
                forall|i: int|
                    0 <= i < affected_samples@.len() ==> {
                        &&& #[trigger] affected_samples@[i] < before.leaf_indices.len()
                        &&& affected_samples@[i] < x_data.height()
                    },
                self@ == before.reassigned(
                    base_child,
                    split_var,
                    split_val,
                    affected_samples@.take(k as int),
                    *x_data,
                ),
        {
            let ghost done = affected_samples@.take(k as int);
            let ghost next = affected_samples@.take(k + 1);
            let sample_idx: usize = affected_samples[k];
            let sample_val = x_data.get(sample_idx, split_var as usize);
            let child_offset: u32 = if split_val.lt(sample_val) {
                1
            } else {
                0
            };
            self.leaf_indices.set(sample_idx, base_child + child_offset);
            proof {
                assert(next =~= done.push(sample_idx));
                assert forall|s: usize| next.contains(s) <==> done.contains(s) || s == sample_idx by {
                    if done.contains(s) {
                        let i = choose|i: int| 0 <= i < done.len() && done[i] == s;
                        assert(next[i] == s);
                    }
                    assert(next[k as int] == sample_idx);
                }
                assert(self.leaf_indices.len() == self@.leaf_indices.len());
                assert forall|s: int| 0 <= s < before.leaf_indices.len() implies
                    self@.leaf_indices[s] == before.reassigned(
                        base_child,
                        split_var,
                        split_val,
                        next,
                        *x_data,
                    ).leaf_indices[s] by {
                    assert(next.contains(s as usize) <==> done.contains(s as usize) || s
                        == sample_idx);
                }
                assert(self@ =~= before.reassigned(
                    base_child,
                    split_var,
                    split_val,
                    next,
                    *x_data,
                ));
            }
        }
        assert(affected_samples@.take(affected_samples@.len() as int) =~= affected_samples@);
    }

    /// The stored leaf values of all training samples, one row per output.
    pub fn predict_training(&self) -> (r: Matrix)
        requires
            can_allocate(self@.n_outputs as int, self@.leaf_indices.len() as int),
            forall|s: int|
                0 <= s < self@.leaf_indices.len() ==> (#[trigger] self@.leaf_indices[s] as int)
                    * self@.n_outputs + self@.n_outputs <= self@.leaf_val.len(),
        ensures
            r.height() == self@.n_outputs,
            r.width() == self@.leaf_indices.len(),
            forall|o: int, s: int|
                0 <= o < r.height() && 0 <= s < r.width() ==> #[trigger] r.at(o, s) == self@.value(
                    self@.leaf_indices[s] as int,
                    o,
                ),
    {
        let n_samples: usize = self.leaf_indices.len();
        let mut out = Matrix::filled(self.n_outputs, n_samples, Binary64 { bits: ZERO_BITS });
        for s in 0..n_samples
            invariant
                n_samples == self@.leaf_indices.len(),
                out.height() == self@.n_outputs,
                out.width() == n_samples,
                forall|s: int|
                    0 <= s < self@.leaf_indices.len() ==> (#[trigger] self@.leaf_indices[s] as int)
                        * self@.n_outputs + self@.n_outputs <= self@.leaf_val.len(),
                forall|o: int, j: int|
                    0 <= o < self@.n_outputs && 0 <= j < s ==> #[trigger] out.at(o, j)
                        == self@.value(self@.leaf_indices[j] as int, o),
        {
            let leaf: usize = self.leaf_indices[s] as usize;
            assert(self@.leaf_indices[s as int] as int * self@.n_outputs + self@.n_outputs
                <= self@.leaf_val.len());
            assert(leaf * self.n_outputs >= 0) by (nonlinear_arith);
            for o in 0..self.n_outputs
                invariant
                    s < n_samples,
                    n_samples == self@.leaf_indices.len(),
                    leaf == self@.leaf_indices[s as int],
                    0 <= leaf * self.n_outputs,
                    leaf * self.n_outputs + self.n_outputs <= self@.leaf_val.len(),
                    out.height() == self@.n_outputs,
                    out.width() == n_samples,
                    forall|o: int, j: int|
                        0 <= o < self@.n_outputs && 0 <= j < s ==> #[trigger] out.at(o, j)
                            == self@.value(self@.leaf_indices[j] as int, o),
                    forall|k: int|
                        0 <= k < o ==> #[trigger] out.at(k, s as int) == self@.value(
                            leaf as int,
                            k,
                        ),
            {
                assert(self.leaf_val.len() == self@.leaf_val.len());
                out.set(o, s, self.leaf_val[leaf * self.n_outputs + o]);
            }
        }
        out
    }

    /// The stored value of the first output for each training sample, as far as `out` and
    /// the samples reach.
    pub fn predict_training_into(&self, out: &mut Vec<Binary64>)
        requires
            forall|s: int|
                0 <= s < self@.leaf_indices.len() && s < old(out)@.len() ==> (
                #[trigger] self@.leaf_indices[s] as int) * self@.n_outputs < self@.leaf_val.len(),
        ensures
            final(out)@ == Seq::new(
                old(out)@.len(),
                |s: int|
                    if s < self@.leaf_indices.len() {
                        self@.value(self@.leaf_indices[s] as int, 0)
                    } else {
                        old(out)@[s]
                    },
            ),
    {
        let ghost before = out@;
        let n: usize = if out.len() < self.leaf_indices.len() {
            out.len()
        } else {
            self.leaf_indices.len()
        };
        for s in 0..n
            invariant
                n <= self@.leaf_indices.len(),
                n <= before.len(),
                out@.len() == before.len(),
                forall|s: int|
                    0 <= s < self@.leaf_indices.len() && s < before.len() ==> (
                    #[trigger] self@.leaf_indices[s] as int) * self@.n_outputs
                        < self@.leaf_val.len(),
                forall|j: int|
                    0 <= j < before.len() ==> #[trigger] out@[j] == if j < s {
                        self@.value(self@.leaf_indices[j] as int, 0)
                    } else {
                        before[j]
                    },
        {
            let leaf: usize = self.leaf_indices[s] as usize;
            assert(self@.leaf_indices[s as int] as int * self@.n_outputs < self@.leaf_val.len());
            assert(leaf * self.n_outputs >= 0) by (nonlinear_arith);
            assert(self.leaf_val.len() == self@.leaf_val.len());
            out.set(s, self.leaf_val[leaf * self.n_outputs]);
        }
        assert(out@ =~= Seq::new(
            before.len(),
            |s: int|
                if s < self@.leaf_indices.len() {
                    self@.value(self@.leaf_indices[s] as int, 0)
                } else {
                    before[s]
                },
        ));
    }
}

/// The leading zeros of `i + 1` tell the depth of node `i`.
proof fn lemma_leading_zeros(i: nat)
    requires
        i + 1 <= u64::MAX,
    ensures
        vstd::std_specs::bits::u64_leading_zeros((i + 1) as u64) == 63 - node_depth(i),
        node_depth(i) <= 63,
    decreases i,
{
    reveal(vstd::std_specs::bits::u64_leading_zeros);
    vstd::std_specs::bits::axiom_u64_leading_zeros((i + 1) as u64);
    if i == 0 {
        assert(vstd::std_specs::bits::u64_leading_zeros(0) == 64);
        assert(1u64 / 2 == 0);
    } else {
        lemma_leading_zeros(((i - 1) / 2) as nat);
        assert(((i + 1) as u64) / 2 == ((i - 1) / 2 + 1) as u64);
    }
}

} // verus!
