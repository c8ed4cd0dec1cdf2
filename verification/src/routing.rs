//! Which leaf a sample belongs to.
use crate::binary64::Binary64;
use crate::matrix::Matrix;
use crate::response::LeafPayload;
use crate::tree_laws::{law_split_keeps_wf, lemma_split_nodes};
use crate::tree_model::{max_nodes, TreeModel};
use vstd::prelude::*;

verus! {

/// The node under `node` in which row `s` of `x` ends when it goes right at each split
/// whose threshold it exceeds, and left otherwise. This is the rule by which training
/// samples are assigned: a missing value goes left.
pub open spec fn route(t: TreeModel, x: Matrix, s: int, node: int) -> int
    decreases t.nodes_from(node),
{
    if t.is_internal(node) {
        if t.split_val[node].lt_spec(x.at(s, t.split_var[node] as int)) {
            route(t, x, s, 2 * node + 2)
        } else {
            route(t, x, s, 2 * node + 1)
        }
    } else {
        node
    }
}

/// The node under `node` in which row `s` of `x` ends when it goes left at each split
/// whose threshold it does not exceed, and right otherwise. This is the rule by which new
/// rows are predicted: a missing value goes right.
pub open spec fn test_route(t: TreeModel, x: Matrix, s: int, node: int) -> int
    decreases t.nodes_from(node),
{
    if t.is_internal(node) {
        if x.at(s, t.split_var[node] as int).le_spec(t.split_val[node]) {
            test_route(t, x, s, 2 * node + 1)
        } else {
            test_route(t, x, s, 2 * node + 2)
        }
    } else {
        node
    }
}

/// Every training sample is assigned to the leaf where its route from the root ends.
pub open spec fn routed(t: TreeModel, x: Matrix) -> bool {
    forall|s: int|
        0 <= s < t.leaf_indices.len() ==> #[trigger] t.leaf_indices[s] == route(t, x, s, 0)
}

/// The invariant of a tree that was grown on the rows of `x`.
pub open spec fn grown_on(t: TreeModel, x: Matrix) -> bool {
    &&& t.wf()
    &&& t.connected()
    &&& t.uses_only(x.width())
    &&& t.leaf_indices.len() == x.height()
    &&& routed(t, x)
}

/// A route ends in a leaf.
pub proof fn law_route_ends_in_leaf(t: TreeModel, x: Matrix, s: int, node: int)
    requires
        t.complete(),
        0 <= node < t.len(),
    ensures
        t.is_leaf(route(t, x, s, node)),
        t.is_leaf(test_route(t, x, s, node)),
    decreases t.nodes_from(node),
{
    if t.is_internal(node) {
        law_route_ends_in_leaf(t, x, s, 2 * node + 1);
        law_route_ends_in_leaf(t, x, s, 2 * node + 2);
    }
}

/// In a tree grown on its training rows every sample is assigned to a leaf.
pub proof fn law_grown_tree_is_assigned(t: TreeModel, x: Matrix)
    requires
        grown_on(t, x),
    ensures
        t.assigned(),
{
    assert forall|s: int| 0 <= s < t.leaf_indices.len() implies t.is_leaf(
        #[trigger] t.leaf_indices[s] as int,
    ) by {
        law_route_ends_in_leaf(t, x, s, 0);
    }
}

/// A row without missing values takes the same route in training and in prediction.
pub proof fn law_routes_agree(t: TreeModel, x: Matrix, s: int, node: int)
    requires
        t.uses_only(x.width()),
        forall|j: int| 0 <= j < x.width() ==> !(#[trigger] x.at(s, j)).is_nan_spec(),
        forall|i: int| #[trigger] t.is_internal(i) ==> !t.split_val[i].is_nan_spec(),
    ensures
        route(t, x, s, node) == test_route(t, x, s, node),
    decreases t.nodes_from(node),
{
    if t.is_internal(node) {
        let v = x.at(s, t.split_var[node] as int);
        assert(!v.is_nan_spec());
        law_routes_agree(t, x, s, 2 * node + 1);
        law_routes_agree(t, x, s, 2 * node + 2);
    }
}

/// A tree of one leaf is grown on any rows.
pub proof fn law_root_is_grown(value: Binary64, max_depth: nat, n_outputs: nat, x: Matrix)
    requires
        max_depth + 1 < usize::BITS,
    ensures
        grown_on(TreeModel::root(value, x.height(), max_depth, n_outputs), x),
{
    crate::tree_laws::law_root_is_well_formed(value, x.height(), max_depth, n_outputs);
    let t = TreeModel::root(value, x.height(), max_depth, n_outputs);
    assert(!t.is_internal(0));
}

/// The route of a row after `leaf` was split: unchanged, but for those that ended in
/// `leaf`, which go on to one of its children.
proof fn lemma_route_after_split(
    t: TreeModel,
    r: TreeModel,
    leaf: int,
    var: u32,
    val: Binary64,
    x: Matrix,
    s: int,
    node: int,
)
    requires
        t.connected(),
        t.is_leaf(leaf),
        var != u32::MAX,
        0 <= node,
        2 * leaf + 2 < r.len(),
        t.len() <= r.len(),
        r.split_var[leaf] == var,
        r.split_val[leaf] == val,
        r.split_var[2 * leaf + 1] == u32::MAX,
        r.split_var[2 * leaf + 2] == u32::MAX,
        forall|i: int|
            0 <= i < r.len() && i != leaf && i != 2 * leaf + 1 && i != 2 * leaf + 2 ==> {
                &&& #[trigger] r.split_var[i] == if i < t.len() { t.split_var[i] } else { u32::MAX }
                &&& i < t.len() ==> r.split_val[i] == t.split_val[i]
            },
    ensures
        route(r, x, s, node) == if route(t, x, s, node) == leaf {
            if val.lt_spec(x.at(s, var as int)) {
                2 * leaf + 2
            } else {
                2 * leaf + 1
            }
        } else {
            route(t, x, s, node)
        },
    decreases t.nodes_from(node),
{
    if t.is_internal(node) {
        assert(node != 2 * leaf + 1 && node != 2 * leaf + 2) by {
            assert((2 * leaf + 1 - 1) / 2 == leaf);
            assert((2 * leaf + 2 - 1) / 2 == leaf);
        }
        assert(r.split_var[node] == t.split_var[node]);
        assert(r.is_internal(node));
        lemma_route_after_split(t, r, leaf, var, val, x, s, 2 * node + 1);
        lemma_route_after_split(t, r, leaf, var, val, x, s, 2 * node + 2);
    } else if node == leaf {
        assert(r.is_internal(leaf));
        assert(!r.is_internal(2 * leaf + 1));
        assert(!r.is_internal(2 * leaf + 2));
        assert(route(r, x, s, 2 * leaf + 1) == 2 * leaf + 1);
        assert(route(r, x, s, 2 * leaf + 2) == 2 * leaf + 2);
    } else {
        if node < r.len() && node != 2 * leaf + 1 && node != 2 * leaf + 2 {
            assert(r.split_var[node] == if node < t.len() { t.split_var[node] } else { u32::MAX });
        }
        assert(!r.is_internal(node));
    }
}

/// Splitting a leaf and moving its samples to the children keeps every sample in the leaf
/// where its route ends, so the tree stays one that was grown on its rows.
pub proof fn law_split_keeps_routes(
    t: TreeModel,
    leaf: int,
    var: u32,
    val: Binary64,
    left: LeafPayload,
    right: LeafPayload,
    samples: Seq<usize>,
    x: Matrix,
)
    requires
        grown_on(t, x),
        t.is_leaf(leaf),
        t.attached(leaf),
        2 * leaf + 2 < max_nodes(t.max_depth),
        2 * leaf + 2 <= u32::MAX,
        t.split(leaf, var, val, left, right).linear_var.len() <= usize::MAX,
        var < x.width(),
        var != u32::MAX,
        payload_uses_only(left, x.width()),
        payload_uses_only(right, x.width()),
        x.height() <= usize::MAX,
        forall|s: usize|
            samples.contains(s) <==> s < t.leaf_indices.len() && t.leaf_indices[s as int] == leaf,
    ensures
        grown_on(
            t.split(leaf, var, val, left, right).reassigned(
                (2 * leaf + 1) as u32,
                var,
                val,
                samples,
                x,
            ),
            x,
        ),
{
    let split = t.split(leaf, var, val, left, right);
    let base = (2 * leaf + 1) as u32;
    let r = split.reassigned(base, var, val, samples, x);
    lemma_split_nodes(t, leaf, var, val, left, right);
    law_split_keeps_wf(t, leaf, var, val, left, right);
    assert forall|i: int| #[trigger] r.is_internal(i) implies split.is_internal(i) by {}
    assert forall|i: int| i > 0 && #[trigger] r.is_internal(i) implies r.is_internal((i - 1) / 2) by {
        let parent = (i - 1) / 2;
        if i == leaf {
            assert(t.is_internal(parent));
        } else {
            assert(t.is_internal(i));
            assert(t.is_internal(parent));
        }
        if parent == 2 * leaf + 1 || parent == 2 * leaf + 2 {
            assert((2 * leaf + 1 - 1) / 2 == leaf);
            assert((2 * leaf + 2 - 1) / 2 == leaf);
            assert(t.is_internal((parent - 1) / 2));
        }
        assert(r.split_var[parent] == split.split_var[parent]);
    }
    assert forall|i: int| #[trigger] r.is_internal(i) implies r.split_var[i] < x.width() by {
        if i != leaf {
            assert(t.is_internal(i));
        }
    }
    assert forall|s: int| 0 <= s < r.leaf_indices.len() implies #[trigger] r.leaf_indices[s]
        == route(r, x, s, 0) by {
        lemma_route_after_split(t, r, leaf, var, val, x, s, 0);
        assert(t.leaf_indices[s] == route(t, x, s, 0));
        assert(samples.contains(s as usize) <==> t.leaf_indices[s] == leaf);
    }
    assert(r.complete());
    assert(r.lines_stored());
    assert(r.wf());
}

/// A line in the contents of a leaf is in the first `n_features` features.
pub open spec fn payload_uses_only(payload: LeafPayload, n_features: nat) -> bool {
    payload matches LeafPayload::Linear { var, .. } ==> var < n_features
}

} // verus!
