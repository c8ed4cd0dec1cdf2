//! The mathematical model of a tree: what its arrays hold and what a split makes of them.
use crate::binary64::{count_number, Binary64, NAN_BITS, ZERO_BITS};
use crate::matrix::Matrix;
use crate::response::{LeafKind, LeafPayload};
use vstd::arithmetic::power2::pow2;
use vstd::prelude::*;

verus! {

/// The split variable of a node that is a leaf.
pub const LEAF_SENTINEL: u32 = u32::MAX;

/// The parameter index of a leaf without a line.
pub const LEAF_PARAM_NONE: usize = usize::MAX;

/// The arrays of a tree. Node `i` has the children `2i + 1` and `2i + 2`.
#[verifier::ext_equal]
pub struct TreeModel {
    pub split_var: Seq<u32>,
    pub split_val: Seq<Binary64>,
    pub leaf_val: Seq<Binary64>,
    pub leaf_indices: Seq<u32>,
    pub size: nat,
    pub max_depth: nat,
    pub n_outputs: nat,
    pub node_nvalue: Seq<Binary64>,
    pub leaf_kind: Seq<u8>,
    pub leaf_param_idx: Seq<usize>,
    pub linear_intercept: Seq<Seq<Binary64>>,
    pub linear_slope: Seq<Seq<Binary64>>,
    pub linear_var: Seq<u32>,
}

/// How many nodes a tree can have whose leaves are at most `depth` edges below the root.
pub open spec fn max_nodes(depth: nat) -> int {
    pow2(depth + 1) - 1
}

/// How many edges lie between node `i` and the root.
pub open spec fn node_depth(i: nat) -> nat
    decreases i,
{
    if i == 0 {
        0
    } else {
        1 + node_depth(((i - 1) / 2) as nat)
    }
}

/// The element of `values` at `o`, zero past its end.
pub open spec fn or_zero(values: Seq<Binary64>, o: int) -> Binary64 {
    if 0 <= o < values.len() {
        values[o]
    } else {
        Binary64 { bits: ZERO_BITS }
    }
}

/// `values` with the `n` elements of row `node` replaced.
pub open spec fn with_row(
    values: Seq<Binary64>,
    n: nat,
    node: int,
    row: spec_fn(int) -> Binary64,
) -> Seq<Binary64> {
    Seq::new(
        values.len(),
        |k: int|
            if node * n <= k < node * n + n {
                row(k - node * n)
            } else {
                values[k]
            },
    )
}

/// `s` followed by as many `filler` as it takes to reach length `n`.
pub open spec fn padded<T>(s: Seq<T>, n: int, filler: T) -> Seq<T> {
    s + Seq::new((if n > s.len() { n - s.len() } else { 0 }) as nat, |k: int| filler)
}

impl TreeModel {
    /// A tree of one leaf, to which all samples belong.
    pub open spec fn root(
        value: Binary64,
        n_samples: nat,
        max_depth: nat,
        n_outputs: nat,
    ) -> TreeModel {
        let outputs: nat = if n_outputs == 0 { 1 } else { n_outputs };
        TreeModel {
            split_var: seq![u32::MAX],
            split_val: seq![Binary64 { bits: NAN_BITS }],
            leaf_val: Seq::new(outputs, |o: int| value),
            leaf_indices: Seq::new(n_samples, |s: int| 0u32),
            size: 1,
            max_depth,
            n_outputs: outputs,
            node_nvalue: Seq::new(
                max_nodes(max_depth) as nat,
                |i: int| if i == 0 { count_number(n_samples) } else { Binary64 { bits: ZERO_BITS } },
            ),
            leaf_kind: seq![LeafKind::Gaussian.code()],
            leaf_param_idx: seq![usize::MAX],
            linear_intercept: Seq::empty(),
            linear_slope: Seq::empty(),
            linear_var: Seq::empty(),
        }
    }

    /// The leaves among the first `n` nodes, in ascending order.
    pub open spec fn leaves_below(self, n: nat) -> Seq<usize>
        decreases n,
    {
        if n == 0 {
            Seq::empty()
        } else if self.is_leaf(n - 1) {
            self.leaves_below((n - 1) as nat).push((n - 1) as usize)
        } else {
            self.leaves_below((n - 1) as nat)
        }
    }

    /// The samples assigned to `leaf` among the first `n`, in ascending order.
    pub open spec fn samples_below(self, leaf: u32, n: nat) -> Seq<usize>
        decreases n,
    {
        if n == 0 {
            Seq::empty()
        } else if self.leaf_indices[n - 1] == leaf {
            self.samples_below(leaf, (n - 1) as nat).push((n - 1) as usize)
        } else {
            self.samples_below(leaf, (n - 1) as nat)
        }
    }

    /// The number of allocated nodes.
    pub open spec fn len(self) -> nat {
        self.split_var.len()
    }

    pub open spec fn is_leaf(self, i: int) -> bool {
        0 <= i < self.len() && self.split_var[i] == u32::MAX
    }

    pub open spec fn is_internal(self, i: int) -> bool {
        0 <= i < self.len() && self.split_var[i] != u32::MAX
    }

    /// The value of output `o` stored for node `i`.
    pub open spec fn value(self, i: int, o: int) -> Binary64 {
        self.leaf_val[i * self.n_outputs + o]
    }

    pub open spec fn kind(self, i: int) -> LeafKind {
        LeafKind::of_code(self.leaf_kind[i])
    }

    /// The per-node arrays hold one entry, or one row of outputs, for each node.
    pub open spec fn shaped(self) -> bool {
        &&& self.n_outputs >= 1
        &&& self.split_val.len() == self.len()
        &&& self.leaf_kind.len() == self.len()
        &&& self.leaf_param_idx.len() == self.len()
        &&& self.leaf_val.len() == self.len() * self.n_outputs
        &&& self.max_depth + 1 < usize::BITS
    }

    /// The lines of the leaves that have one are stored.
    pub open spec fn lines_stored(self) -> bool {
        &&& self.linear_slope.len() == self.linear_intercept.len()
        &&& self.linear_var.len() == self.linear_intercept.len()
        &&& self.linear_intercept.len() <= usize::MAX
        &&& forall|i: int|
            0 <= i < self.leaf_param_idx.len() ==> {
                ||| #[trigger] self.leaf_param_idx[i] == usize::MAX
                ||| self.leaf_param_idx[i] < self.linear_var.len()
            }
    }

    /// A split node has both its children.
    pub open spec fn complete(self) -> bool {
        forall|i: int| #[trigger] self.is_internal(i) ==> 2 * i + 2 < self.len()
    }

    /// The invariant of a tree.
    pub open spec fn wf(self) -> bool {
        &&& self.shaped()
        &&& self.lines_stored()
        &&& self.complete()
        &&& self.size == self.len()
        &&& 1 <= self.len() <= max_nodes(self.max_depth)
        &&& self.node_nvalue.len() == max_nodes(self.max_depth)
    }

    /// Every training sample is assigned to a leaf.
    pub open spec fn assigned(self) -> bool {
        forall|s: int|
            0 <= s < self.leaf_indices.len() ==> self.is_leaf(#[trigger] self.leaf_indices[s] as int)
    }

    /// The per-node arrays extended to `n` nodes, the new ones being leaves that predict
    /// zero.
    pub open spec fn grown(self, n: int) -> TreeModel {
        TreeModel {
            split_var: padded(self.split_var, n, u32::MAX),
            split_val: padded(self.split_val, n, Binary64 { bits: NAN_BITS }),
            leaf_val: padded(self.leaf_val, n * self.n_outputs, Binary64 { bits: ZERO_BITS }),
            leaf_kind: padded(self.leaf_kind, n, LeafKind::Gaussian.code()),
            leaf_param_idx: padded(self.leaf_param_idx, n, usize::MAX),
            ..self
        }
    }

    /// Node `node` with the contents of `payload`.
    pub open spec fn with_payload(self, node: int, payload: LeafPayload) -> TreeModel {
        match payload {
            LeafPayload::Gaussian { value } => TreeModel {
                leaf_kind: self.leaf_kind.update(node, LeafKind::Gaussian.code()),
                leaf_param_idx: self.leaf_param_idx.update(node, usize::MAX),
                leaf_val: with_row(self.leaf_val, self.n_outputs, node, |o: int| or_zero(value@, o)),
                ..self
            },
            LeafPayload::Linear { intercept, slope, var } => TreeModel {
                leaf_kind: self.leaf_kind.update(node, LeafKind::Linear.code()),
                leaf_param_idx: self.leaf_param_idx.update(
                    node,
                    self.linear_intercept.len() as usize,
                ),
                leaf_val: with_row(
                    self.leaf_val,
                    self.n_outputs,
                    node,
                    |o: int| Binary64 { bits: NAN_BITS },
                ),
                linear_intercept: self.linear_intercept.push(intercept@),
                linear_slope: self.linear_slope.push(slope@),
                linear_var: self.linear_var.push(var),
                ..self
            },
        }
    }

    /// Node `node` as a leaf with the contents of `payload`.
    pub open spec fn with_leaf(self, node: int, payload: LeafPayload) -> TreeModel {
        TreeModel {
            split_var: self.split_var.update(node, u32::MAX),
            split_val: self.split_val.update(node, Binary64 { bits: NAN_BITS }),
            ..self
        }.with_payload(node, payload)
    }

    /// Node `node` as an internal node, without a value of its own.
    pub open spec fn with_split(self, node: int, var: u32, val: Binary64) -> TreeModel {
        TreeModel {
            split_var: self.split_var.update(node, var),
            split_val: self.split_val.update(node, val),
            leaf_val: with_row(
                self.leaf_val,
                self.n_outputs,
                node,
                |o: int| Binary64 { bits: NAN_BITS },
            ),
            ..self
        }
    }

    /// The tree after node `leaf` was split into two leaves.
    pub open spec fn split(
        self,
        leaf: int,
        var: u32,
        val: Binary64,
        left: LeafPayload,
        right: LeafPayload,
    ) -> TreeModel {
        let t = self.grown(2 * leaf + 3).with_split(leaf, var, val).with_leaf(
            2 * leaf + 1,
            left,
        ).with_leaf(2 * leaf + 2, right);
        TreeModel {
            size: if self.size > 2 * leaf + 3 { self.size } else { (2 * leaf + 3) as nat },
            ..t
        }
    }
}

impl TreeModel {
    /// The tree after `samples` were sent to the left child `base`, or to the right child
    /// next to it where their value of `var` exceeds `val`.
    pub open spec fn reassigned(
        self,
        base: u32,
        var: u32,
        val: Binary64,
        samples: Seq<usize>,
        x: Matrix,
    ) -> TreeModel {
        TreeModel {
            leaf_indices: Seq::new(
                self.leaf_indices.len(),
                |s: int|
                    if samples.contains(s as usize) {
                        if val.lt_spec(x.at(s, var as int)) {
                            (base + 1) as u32
                        } else {
                            base
                        }
                    } else {
                        self.leaf_indices[s]
                    },
            ),
            ..self
        }
    }
}

} // verus!
