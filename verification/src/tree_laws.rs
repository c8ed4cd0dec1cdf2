//! What holds of every tree, and what a split keeps and changes.
use crate::binary64::{Binary64, NAN_BITS};
use crate::response::{LeafKind, LeafPayload};
use crate::tree_model::{max_nodes, node_depth, or_zero, TreeModel};
use vstd::arithmetic::power2::{lemma_pow2_pos, lemma_pow2_unfold, pow2};
use vstd::prelude::*;

verus! {

/// In heap order a child lies one edge deeper than its parent, and the root at depth zero.
pub proof fn law_child_depth(i: nat)
    ensures
        node_depth(0) == 0,
        node_depth(2 * i + 1) == node_depth(i) + 1,
        node_depth(2 * i + 2) == node_depth(i) + 1,
{
    assert((2 * i + 1 - 1) / 2 == i);
    assert((2 * i + 2 - 1) / 2 == i);
}

/// The depth of node `i` is `floor(log2(i + 1))`.
pub proof fn law_depth_is_logarithm(i: nat)
    ensures
        pow2(node_depth(i)) <= i + 1 < pow2(node_depth(i) + 1),
    decreases i,
{
    lemma_pow2_unfold(node_depth(i) + 1);
    if i == 0 {
        lemma_pow2_pos(0);
        vstd::arithmetic::power2::lemma2_to64();
    } else {
        law_depth_is_logarithm(((i - 1) / 2) as nat);
        lemma_pow2_unfold(node_depth(i));
    }
}

/// The nodes that a tree of depth `d` can have are those at most `d` edges deep.
pub proof fn law_max_nodes_by_depth(i: nat, d: nat)
    ensures
        i < max_nodes(d) <==> node_depth(i) <= d,
{
    law_depth_is_logarithm(i);
    let k = node_depth(i);
    if k <= d {
        if k < d {
            vstd::arithmetic::power2::lemma_pow2_strictly_increases(k + 1, d + 1);
        }
    } else {
        if d + 1 < k {
            vstd::arithmetic::power2::lemma_pow2_strictly_increases(d + 1, k);
        }
    }
}

/// A tree of one leaf is well formed, and all samples are assigned to its leaf.
pub proof fn law_root_is_well_formed(
    value: Binary64,
    n_samples: nat,
    max_depth: nat,
    n_outputs: nat,
)
    requires
        max_depth + 1 < usize::BITS,
    ensures
        ({
            let t = TreeModel::root(value, n_samples, max_depth, n_outputs);
            &&& t.wf()
            &&& t.connected()
            &&& t.assigned()
            &&& t.is_leaf(0)
            &&& t.leaf_indices.len() == n_samples
        }),
{
    let t = TreeModel::root(value, n_samples, max_depth, n_outputs);
    lemma_pow2_unfold(max_depth + 1);
    lemma_pow2_pos(max_depth);
    assert(1 * t.n_outputs == t.n_outputs);
}

impl TreeModel {
    /// The parent of every internal node but the root is internal.
    pub open spec fn connected(self) -> bool {
        forall|i: int| i > 0 && #[trigger] self.is_internal(i) ==> self.is_internal((i - 1) / 2)
    }

    /// Node `i` hangs in the tree: it is the root or the child of an internal node.
    pub open spec fn attached(self, i: int) -> bool {
        i == 0 || self.is_internal((i - 1) / 2)
    }

    /// All splits and lines are in the first `n_features` features.
    pub open spec fn uses_only(self, n_features: nat) -> bool {
        &&& forall|i: int| #[trigger] self.is_internal(i) ==> self.split_var[i] < n_features
        &&& forall|p: int| 0 <= p < self.linear_var.len() ==> #[trigger] self.linear_var[p] < n_features
    }
}

/// What each array holds of a split, node by node.
pub proof fn lemma_split_nodes(
    t: TreeModel,
    leaf: int,
    var: u32,
    val: Binary64,
    left: LeafPayload,
    right: LeafPayload,
)
    requires
        t.shaped(),
        0 <= leaf,
    ensures
        ({
            let r = t.split(leaf, var, val, left, right);
            &&& r.shaped()
            &&& r.len() == if t.len() > 2 * leaf + 3 { t.len() as int } else { 2 * leaf + 3 }
            &&& r.n_outputs == t.n_outputs
            &&& r.max_depth == t.max_depth
            &&& r.leaf_indices == t.leaf_indices
            &&& r.node_nvalue == t.node_nvalue
            &&& r.split_var[leaf] == var
            &&& r.split_val[leaf] == val
            &&& r.split_var[2 * leaf + 1] == u32::MAX
            &&& r.split_var[2 * leaf + 2] == u32::MAX
            &&& forall|i: int|
                0 <= i < r.len() && i != leaf && i != 2 * leaf + 1 && i != 2 * leaf + 2 ==> {
                    &&& #[trigger] r.split_var[i] == if i < t.len() { t.split_var[i] } else { u32::MAX }
                    &&& i < t.len() ==> r.split_val[i] == t.split_val[i]
                    &&& i < t.len() ==> r.leaf_kind[i] == t.leaf_kind[i]
                    &&& i < t.len() ==> r.leaf_param_idx[i] == t.leaf_param_idx[i]
                }
        }),
{
    let r = t.split(leaf, var, val, left, right);
    let n = t.n_outputs as int;
    let required = 2 * leaf + 3;
    if t.len() > required {
        assert(required * n <= t.len() * n) by (nonlinear_arith)
            requires
                required <= t.len(),
                n >= 0,
        ;
    } else {
        assert(t.len() * n <= required * n) by (nonlinear_arith)
            requires
                t.len() <= required,
                n >= 0,
        ;
    }
}

/// A split keeps the invariant.
pub proof fn law_split_keeps_wf(
    t: TreeModel,
    leaf: int,
    var: u32,
    val: Binary64,
    left: LeafPayload,
    right: LeafPayload,
)
    requires
        t.wf(),
        0 <= leaf,
        2 * leaf + 2 < max_nodes(t.max_depth),
        t.split(leaf, var, val, left, right).linear_var.len() <= usize::MAX,
    ensures
        t.split(leaf, var, val, left, right).wf(),
{
    lemma_split_nodes(t, leaf, var, val, left, right);
    let r = t.split(leaf, var, val, left, right);
    assert forall|i: int| #[trigger] r.is_internal(i) implies 2 * i + 2 < r.len() by {
        if i != leaf {
            assert(t.is_internal(i));
        }
    }
    let grown = t.grown(2 * leaf + 3).with_split(leaf, var, val);
    let first = grown.with_leaf(2 * leaf + 1, left);
    assert(grown.lines_stored());
    lemma_payload_keeps_lines(grown, 2 * leaf + 1, left);
    lemma_payload_keeps_lines(first, 2 * leaf + 2, right);
    assert(r.lines_stored());
}

proof fn lemma_payload_keeps_lines(t: TreeModel, node: int, payload: LeafPayload)
    requires
        t.lines_stored(),
        t.with_leaf(node, payload).linear_var.len() <= usize::MAX,
        0 <= node < t.leaf_param_idx.len(),
    ensures
        t.with_leaf(node, payload).lines_stored(),
{
    let r = t.with_leaf(node, payload);
    assert forall|i: int| 0 <= i < r.leaf_param_idx.len() implies {
        ||| #[trigger] r.leaf_param_idx[i] == usize::MAX
        ||| r.leaf_param_idx[i] < r.linear_var.len()
    } by {
        if i != node {
            assert(r.leaf_param_idx[i] == t.leaf_param_idx[i]);
        }
    }
}

/// Rows of different nodes do not overlap.
proof fn lemma_rows_apart(i: int, j: int, n: int, o: int)
    requires
        0 <= o < n,
        i != j,
    ensures
        !(j * n <= i * n + o < j * n + n),
{
    if i < j {
        assert(i * n + n <= j * n) by (nonlinear_arith)
            requires
                i + 1 <= j,
                n > 0,
        ;
    } else {
        assert(j * n + n <= i * n) by (nonlinear_arith)
            requires
                j + 1 <= i,
                n > 0,
        ;
    }
}

/// Row `i` lies within the values of `len` nodes.
proof fn lemma_row_within(i: int, n: int, o: int, len: int)
    requires
        0 <= o < n,
        0 <= i < len,
    ensures
        0 <= i * n + o < len * n,
{
    assert(0 <= i * n) by (nonlinear_arith)
        requires
            0 <= i,
            0 <= n,
    ;
    assert(i * n + n <= len * n) by (nonlinear_arith)
        requires
            i + 1 <= len,
            0 <= n,
    ;
}

/// Giving a node contents sets its values and leaves those of the other nodes.
proof fn lemma_payload_values(t: TreeModel, node: int, payload: LeafPayload, i: int, o: int)
    requires
        t.shaped(),
        0 <= node < t.len(),
        0 <= i < t.len(),
        0 <= o < t.n_outputs,
    ensures
        ({
            let r = t.with_leaf(node, payload);
            r.value(i, o) == if i != node {
                t.value(i, o)
            } else {
                match payload {
                    LeafPayload::Gaussian { value } => or_zero(value@, o),
                    LeafPayload::Linear { .. } => Binary64 { bits: NAN_BITS },
                }
            }
        }),
{
    let n = t.n_outputs as int;
    lemma_row_within(i, n, o, t.len() as int);
    if i != node {
        lemma_rows_apart(i, node, n, o);
    }
}

/// Splitting a leaf makes it an internal node whose two children are leaves with the
/// proposed contents. Every other node keeps its kind, its split, its line and its values.
pub proof fn law_split_makes_two_leaves(
    t: TreeModel,
    leaf: int,
    var: u32,
    val: Binary64,
    left: LeafPayload,
    right: LeafPayload,
)
    requires
        t.wf(),
        0 <= leaf,
        2 * leaf + 2 < max_nodes(t.max_depth),
        t.split(leaf, var, val, left, right).linear_var.len() <= usize::MAX,
        var != u32::MAX,
    ensures
        ({
            let r = t.split(leaf, var, val, left, right);
            &&& r.is_internal(leaf)
            &&& r.split_var[leaf] == var
            &&& r.split_val[leaf] == val
            &&& r.is_leaf(2 * leaf + 1)
            &&& r.is_leaf(2 * leaf + 2)
            &&& r.holds(2 * leaf + 1, left)
            &&& r.holds(2 * leaf + 2, right)
            &&& r.size == if t.size > 2 * leaf + 3 { t.size as int } else { 2 * leaf + 3 }
            &&& r.leaf_indices == t.leaf_indices
            &&& forall|i: int|
                0 <= i < t.len() && i != leaf && i != 2 * leaf + 1 && i != 2 * leaf + 2 ==> {
                    &&& r.is_leaf(i) == #[trigger] t.is_leaf(i)
                    &&& r.split_var[i] == t.split_var[i]
                    &&& r.split_val[i] == t.split_val[i]
                    &&& r.leaf_kind[i] == t.leaf_kind[i]
                    &&& r.leaf_param_idx[i] == t.leaf_param_idx[i]
                    &&& forall|o: int| 0 <= o < t.n_outputs ==> #[trigger] r.value(i, o) == t.value(i, o)
                }
            &&& forall|p: int|
                0 <= p < t.linear_var.len() ==> {
                    &&& #[trigger] r.linear_var[p] == t.linear_var[p]
                    &&& r.linear_intercept[p] == t.linear_intercept[p]
                    &&& r.linear_slope[p] == t.linear_slope[p]
                }
        }),
{
    lemma_split_nodes(t, leaf, var, val, left, right);
    law_split_keeps_wf(t, leaf, var, val, left, right);
    let r = t.split(leaf, var, val, left, right);
    let grown = t.grown(2 * leaf + 3);
    let a = grown.with_split(leaf, var, val);
    let b = a.with_leaf(2 * leaf + 1, left);
    let n = t.n_outputs as int;
    assert(grown.shaped() && a.shaped()) by {
        if t.len() > 2 * leaf + 3 {
            assert((2 * leaf + 3) * n <= t.len() * n) by (nonlinear_arith)
                requires
                    2 * leaf + 3 <= t.len(),
                    n >= 0,
            ;
        } else {
            assert(t.len() * n <= (2 * leaf + 3) * n) by (nonlinear_arith)
                requires
                    t.len() <= 2 * leaf + 3,
                    n >= 0,
            ;
        }
    }
    assert(b.shaped());
    assert forall|i: int|
        0 <= i < t.len() && i != leaf && i != 2 * leaf + 1 && i != 2 * leaf + 2 implies {
        &&& r.is_leaf(i) == #[trigger] t.is_leaf(i)
        &&& r.split_var[i] == t.split_var[i]
        &&& r.split_val[i] == t.split_val[i]
        &&& r.leaf_kind[i] == t.leaf_kind[i]
        &&& r.leaf_param_idx[i] == t.leaf_param_idx[i]
        &&& forall|o: int| 0 <= o < t.n_outputs ==> #[trigger] r.value(i, o) == t.value(i, o)
    } by {
        assert(r.split_var[i] == t.split_var[i]);
        assert forall|o: int| 0 <= o < t.n_outputs implies #[trigger] r.value(i, o) == t.value(i, o) by {
            lemma_payload_values(b, 2 * leaf + 2, right, i, o);
            lemma_payload_values(a, 2 * leaf + 1, left, i, o);
            lemma_row_within(i, n, o, t.len() as int);
            lemma_row_within(i, n, o, grown.len() as int);
            lemma_rows_apart(i, leaf, n, o);
            assert(r.value(i, o) == b.with_leaf(2 * leaf + 2, right).value(i, o));
            assert(a.value(i, o) == grown.value(i, o));
            assert(grown.value(i, o) == t.value(i, o));
        }
    }
    assert(r.holds(2 * leaf + 1, left)) by {
        assert forall|o: int| 0 <= o < n implies r.value(2 * leaf + 1, o) == #[trigger] b.value(2 * leaf + 1, o) by {
            lemma_payload_values(b, 2 * leaf + 2, right, 2 * leaf + 1, o);
            assert(r.value(2 * leaf + 1, o) == b.with_leaf(2 * leaf + 2, right).value(2 * leaf + 1, o));
        }
        assert forall|o: int| 0 <= o < n implies #[trigger] r.value(2 * leaf + 1, o)
            == payload_value(left, o) by {
            lemma_payload_values(a, 2 * leaf + 1, left, 2 * leaf + 1, o);
            assert(b.value(2 * leaf + 1, o) == payload_value(left, o));
        }
    }
    assert(r.holds(2 * leaf + 2, right)) by {
        assert forall|o: int| 0 <= o < n implies #[trigger] r.value(2 * leaf + 2, o)
            == payload_value(right, o) by {
            lemma_payload_values(b, 2 * leaf + 2, right, 2 * leaf + 2, o);
            assert(r.value(2 * leaf + 2, o) == b.with_leaf(2 * leaf + 2, right).value(2 * leaf + 2, o));
        }
    }
}

/// The value of output `o` stored for a leaf with these contents.
pub open spec fn payload_value(payload: LeafPayload, o: int) -> Binary64 {
    match payload {
        LeafPayload::Gaussian { value } => or_zero(value@, o),
        LeafPayload::Linear { .. } => Binary64 { bits: NAN_BITS },
    }
}

impl TreeModel {
    /// Node `i` has the contents of `payload`.
    pub open spec fn holds(self, i: int, payload: LeafPayload) -> bool {
        let p = self.leaf_param_idx[i] as int;
        &&& forall|o: int|
            0 <= o < self.n_outputs ==> #[trigger] self.value(i, o) == payload_value(payload, o)
        &&& match payload {
            LeafPayload::Gaussian { .. } => {
                &&& self.kind(i) == LeafKind::Gaussian
                &&& self.leaf_param_idx[i] == usize::MAX
            },
            LeafPayload::Linear { intercept, slope, var } => {
                &&& self.kind(i) == LeafKind::Linear
                &&& p < self.linear_var.len()
                &&& self.linear_intercept[p] == intercept@
                &&& self.linear_slope[p] == slope@
                &&& self.linear_var[p] == var
            },
        }
    }
}

/// The samples listed for a leaf are those assigned to it, in ascending order.
pub proof fn law_leaf_samples(t: TreeModel, leaf: u32, n: nat)
    requires
        n <= t.leaf_indices.len() <= usize::MAX,
    ensures
        ({
            let r = t.samples_below(leaf, n);
            &&& r.len() <= n
            &&& forall|s: usize| #[trigger] r.contains(s) <==> s < n && t.leaf_indices[s as int] == leaf
            &&& forall|a: int, b: int| 0 <= a < b < r.len() ==> r[a] < r[b]
            &&& forall|a: int| 0 <= a < r.len() ==> #[trigger] r[a] < n
        }),
    decreases n,
{
    if n > 0 {
        law_leaf_samples(t, leaf, (n - 1) as nat);
        let before = t.samples_below(leaf, (n - 1) as nat);
        let r = t.samples_below(leaf, n);
        assert forall|s: usize| #[trigger] r.contains(s) <==> s < n && t.leaf_indices[s as int] == leaf by {
            if r.contains(s) {
                let a = choose|a: int| 0 <= a < r.len() && r[a] == s;
                if a < before.len() {
                    assert(before[a] == s);
                    assert(before.contains(s));
                }
            }
            if s < n && t.leaf_indices[s as int] == leaf {
                if s < n - 1 {
                    assert(before.contains(s));
                    let a = choose|a: int| 0 <= a < before.len() && before[a] == s;
                    assert(r[a] == s);
                } else {
                    assert(r[r.len() - 1] == s);
                }
            }
        }
    }
}

/// The leaves listed are those among the first `n` nodes, in ascending order.
pub proof fn law_leaf_indices(t: TreeModel, n: nat)
    requires
        n <= usize::MAX,
    ensures
        ({
            let r = t.leaves_below(n);
            &&& forall|i: usize| #[trigger] r.contains(i) <==> i < n && t.is_leaf(i as int)
            &&& forall|a: int, b: int| 0 <= a < b < r.len() ==> r[a] < r[b]
            &&& forall|a: int| 0 <= a < r.len() ==> #[trigger] r[a] < n
        }),
    decreases n,
{
    if n > 0 {
        law_leaf_indices(t, (n - 1) as nat);
        let before = t.leaves_below((n - 1) as nat);
        let r = t.leaves_below(n);
        assert forall|i: usize| #[trigger] r.contains(i) <==> i < n && t.is_leaf(i as int) by {
            if r.contains(i) {
                let a = choose|a: int| 0 <= a < r.len() && r[a] == i;
                if a < before.len() {
                    assert(before[a] == i);
                    assert(before.contains(i));
                }
            }
            if i < n && t.is_leaf(i as int) {
                if i < n - 1 {
                    assert(before.contains(i));
                    let a = choose|a: int| 0 <= a < before.len() && before[a] == i;
                    assert(r[a] == i);
                } else {
                    assert(r[r.len() - 1] == i);
                }
            }
        }
    }
}

/// The leaves part the samples: each sample is listed for one leaf and for no other.
pub proof fn law_leaves_part_samples(t: TreeModel, s: usize)
    requires
        t.wf(),
        t.assigned(),
        t.len() <= u32::MAX,
        t.leaf_indices.len() <= usize::MAX,
        s < t.leaf_indices.len(),
    ensures
        t.leaves_below(t.size).contains(t.leaf_indices[s as int] as usize),
        forall|leaf: u32|
            t.samples_below(leaf, t.leaf_indices.len()).contains(s) <==> leaf
                == t.leaf_indices[s as int],
{
    law_leaf_indices(t, t.size);
    assert(t.is_leaf(t.leaf_indices[s as int] as int));
    assert forall|leaf: u32|
        t.samples_below(leaf, t.leaf_indices.len()).contains(s) <==> leaf
            == t.leaf_indices[s as int] by {
        law_leaf_samples(t, leaf, t.leaf_indices.len());
    }
}

} // verus!
