//! What the nodes of a tree that grows by mutations hold.
use crate::binary64::{count_number, Binary64, NAN_BITS};
use crate::matrix::Matrix;
use crate::particle::{has_room, indexable, law_mutation_parts_samples, mutated, proposal_fits};
use crate::response::{goes_left, left_samples, right_samples, LeafProposal};
use crate::routing::grown_on;
use crate::tree_laws::lemma_split_nodes;
use crate::tree_model::{max_nodes, TreeModel};
use vstd::prelude::*;

verus! {

impl TreeModel {
    /// The number of training samples in the leaves under `node`.
    pub open spec fn samples_under(self, node: int) -> nat
        decreases self.nodes_from(node),
    {
        if self.is_internal(node) {
            self.samples_under(2 * node + 1) + self.samples_under(2 * node + 2)
        } else {
            self.samples_below(node as u32, self.leaf_indices.len()).len()
        }
    }

    /// Every node of the tree holds the number of training samples under it.
    pub open spec fn counted(self) -> bool {
        forall|i: int|
            0 <= i < self.len() && #[trigger] self.attached(i) ==> self.node_nvalue[i]
                == count_number(self.samples_under(i))
    }

    /// No leaf has a threshold.
    pub open spec fn leaves_marked(self) -> bool {
        forall|i: int| #[trigger]
            self.is_leaf(i) ==> self.split_val[i] == (Binary64 { bits: NAN_BITS })
    }

    /// Nodes hold what they should: sample counts, and thresholds only where they split.
    pub open spec fn tidy(self) -> bool {
        &&& self.counted()
        &&& self.leaves_marked()
    }
}

/// All samples of a single leaf are counted at the root.
pub proof fn law_root_is_tidy(value: Binary64, n_samples: nat, max_depth: nat, n_outputs: nat)
    ensures
        TreeModel::root(value, n_samples, max_depth, n_outputs).tidy(),
{
    let t = TreeModel::root(value, n_samples, max_depth, n_outputs);
    lemma_all_at_root(t, n_samples);
    vstd::arithmetic::power2::lemma_pow2_pos(max_depth);
    vstd::arithmetic::power2::lemma_pow2_unfold(max_depth + 1);
    assert(t.len() == 1);
    assert(t.samples_under(0) == n_samples);
}

proof fn lemma_all_at_root(t: TreeModel, n: nat)
    requires
        n <= t.leaf_indices.len(),
        forall|s: int| 0 <= s < n ==> #[trigger] t.leaf_indices[s] == 0,
    ensures
        t.samples_below(0, n).len() == n,
    decreases n,
{
    if n > 0 {
        assert(t.leaf_indices[n - 1] == 0);
        lemma_all_at_root(t, (n - 1) as nat);
    }
}

/// Which samples a leaf has depends on the assignments alone.
proof fn lemma_samples_by_assignment(a: TreeModel, b: TreeModel, leaf: u32, n: nat)
    requires
        a.leaf_indices == b.leaf_indices,
    ensures
        a.samples_below(leaf, n) == b.samples_below(leaf, n),
    decreases n,
{
    if n > 0 {
        lemma_samples_by_assignment(a, b, leaf, (n - 1) as nat);
    }
}

/// The samples of a split node are those of its two children together.
proof fn lemma_parted_counts(t: TreeModel, p: LeafProposal, x: Matrix, n: nat)
    requires
        grown_on(t, x),
        indexable(t.max_depth),
        proposal_fits(t, p, x),
        x.height() <= usize::MAX,
        n <= x.height(),
    ensures
        ({
            let r = mutated(t, p, x);
            let node = p.node_idx as int;
            r.samples_below((2 * node + 1) as u32, n).len() + r.samples_below(
                (2 * node + 2) as u32,
                n,
            ).len() == t.samples_below(node as u32, n).len()
        }),
    decreases n,
{
    if n > 0 {
        lemma_parted_counts(t, p, x, (n - 1) as nat);
        law_mutation_parts_samples(t, p, x, n - 1);
        lemma_node_fits(t, p);
    }
}

/// The samples of a leaf that is not split stay the same.
proof fn lemma_kept_samples(t: TreeModel, p: LeafProposal, x: Matrix, leaf: u32, n: nat)
    requires
        grown_on(t, x),
        indexable(t.max_depth),
        proposal_fits(t, p, x),
        x.height() <= usize::MAX,
        n <= x.height(),
        leaf != p.node_idx,
        leaf != 2 * p.node_idx + 1,
        leaf != 2 * p.node_idx + 2,
    ensures
        mutated(t, p, x).samples_below(leaf, n) == t.samples_below(leaf, n),
    decreases n,
{
    if n > 0 {
        lemma_kept_samples(t, p, x, leaf, (n - 1) as nat);
        law_mutation_parts_samples(t, p, x, n - 1);
    }
}

/// The indices of a node with room and its children fit `u32`.
proof fn lemma_node_fits(t: TreeModel, p: LeafProposal)
    requires
        indexable(t.max_depth),
        has_room(t, p.node_idx as int),
    ensures
        2 * p.node_idx + 2 < u32::MAX,
{
    crate::particle::lemma_indexable(t.max_depth);
}

/// A mutation keeps the number of samples under each node that there was.
proof fn lemma_kept_counts(t: TreeModel, p: LeafProposal, x: Matrix, i: int)
    requires
        grown_on(t, x),
        indexable(t.max_depth),
        proposal_fits(t, p, x),
        x.height() <= usize::MAX,
        0 <= i < max_nodes(t.max_depth),
        i != 2 * p.node_idx + 1,
        i != 2 * p.node_idx + 2,
    ensures
        mutated(t, p, x).samples_under(i) == t.samples_under(i),
    decreases t.nodes_from(i),
{
    let r = mutated(t, p, x);
    let node = p.node_idx as int;
    lemma_node_fits(t, p);
    crate::particle::lemma_indexable(t.max_depth);
    lemma_split_nodes(t, node, p.split_var, p.split_val, p.left, p.right);
    if i == node {
        assert(r.is_internal(node));
        assert(!r.is_internal(2 * node + 1));
        assert(!r.is_internal(2 * node + 2));
        lemma_parted_counts(t, p, x, x.height());
        assert(r.samples_under(2 * node + 1) == r.samples_below(
            (2 * node + 1) as u32,
            x.height(),
        ).len());
        assert(r.samples_under(2 * node + 2) == r.samples_below(
            (2 * node + 2) as u32,
            x.height(),
        ).len());
        assert(t.samples_under(node) == t.samples_below(node as u32, x.height()).len());
        assert(r.samples_under(node) == r.samples_under(2 * node + 1) + r.samples_under(
            2 * node + 2,
        ));
    } else if t.is_internal(i) {
        assert(2 * i + 2 < t.len());
        assert(r.split_var[i] == t.split_var[i]);
        assert(r.is_internal(i));
        lemma_kept_counts(t, p, x, 2 * i + 1);
        lemma_kept_counts(t, p, x, 2 * i + 2);
    } else {
        assert(!r.is_internal(i)) by {
            if r.is_internal(i) {
                assert(r.split_var[i] == if i < t.len() {
                    t.split_var[i]
                } else {
                    u32::MAX
                });
            }
        }
        lemma_kept_samples(t, p, x, i as u32, x.height());
    }
}

/// A mutation counts the samples of the two new leaves, and leaves no threshold in a leaf.
pub proof fn law_mutation_keeps_tidy(t: TreeModel, p: LeafProposal, x: Matrix)
    requires
        grown_on(t, x),
        indexable(t.max_depth),
        proposal_fits(t, p, x),
        x.height() <= usize::MAX,
        t.tidy(),
    ensures
        mutated(t, p, x).tidy(),
{
    let r = mutated(t, p, x);
    let node = p.node_idx as int;
    lemma_node_fits(t, p);
    lemma_split_nodes(t, node, p.split_var, p.split_val, p.left, p.right);
    let moved = t.split(node, p.split_var, p.split_val, p.left, p.right).reassigned(
        (2 * node + 1) as u32,
        p.split_var,
        p.split_val,
        t.samples_below(node as u32, t.leaf_indices.len()),
        x,
    );
    assert((2 * node + 1 - 1) / 2 == node);
    assert((2 * node + 2 - 1) / 2 == node);
    assert forall|i: int| 0 <= i < r.len() && #[trigger] r.attached(i) implies r.node_nvalue[i]
        == count_number(r.samples_under(i)) by {
        if i == 2 * node + 1 || i == 2 * node + 2 {
            assert(!r.is_internal(i));
            lemma_samples_by_assignment(moved, r, i as u32, x.height());
        } else {
            assert(t.attached(i) && i < t.len()) by {
                if i != 0 && i != node {
                    let parent = (i - 1) / 2;
                    assert(r.is_internal(parent));
                    assert(parent != node);
                    assert(r.split_var[parent] == if parent < t.len() {
                        t.split_var[parent]
                    } else {
                        u32::MAX
                    });
                    assert(t.is_internal(parent));
                    assert(2 * parent + 2 < t.len());
                    if parent > 0 {
                        assert(t.is_internal((parent - 1) / 2));
                    }
                }
            }
            lemma_kept_counts(t, p, x, i);
        }
    }
    assert forall|i: int| #[trigger] r.is_leaf(i) implies r.split_val[i] == (Binary64 {
        bits: NAN_BITS,
    }) by {
        if i != 2 * node + 1 && i != 2 * node + 2 && i < t.len() {
            assert(i != node);
            assert(r.split_var[i] == t.split_var[i]);
            assert(t.is_leaf(i));
        }
    }
}

/// Each sample of a node lies on exactly one side of a split.
pub proof fn law_sides_part_samples(x: Matrix, var: u32, val: Binary64, samples: Seq<u32>)
    ensures
        left_samples(x, var, val, samples).len() + right_samples(x, var, val, samples).len()
            == samples.len(),
        forall|s: u32|
            #![trigger left_samples(x, var, val, samples).contains(s)]
            #![trigger right_samples(x, var, val, samples).contains(s)]
            {
                &&& left_samples(x, var, val, samples).contains(s) <==> samples.contains(s)
                    && goes_left(x, var, val, s)
                &&& right_samples(x, var, val, samples).contains(s) <==> samples.contains(s)
                    && !goes_left(x, var, val, s)
            },
    decreases samples.len(),
{
    reveal(Seq::filter);
    let left = left_samples(x, var, val, samples);
    let right = right_samples(x, var, val, samples);
    if samples.len() > 0 {
        let rest = samples.drop_last();
        let last = samples.last();
        law_sides_part_samples(x, var, val, rest);
        assert(samples =~= rest.push(last));
        let rest_left = left_samples(x, var, val, rest);
        let rest_right = right_samples(x, var, val, rest);
        assert forall|s: u32|
            #![trigger left.contains(s)]
            #![trigger right.contains(s)]
            {
                &&& left.contains(s) <==> samples.contains(s) && goes_left(x, var, val, s)
                &&& right.contains(s) <==> samples.contains(s) && !goes_left(x, var, val, s)
            } by {
            lemma_push_contains(rest, last, s);
            lemma_push_contains(rest_left, last, s);
            lemma_push_contains(rest_right, last, s);
            assert(rest_left.contains(s) <==> rest.contains(s) && goes_left(x, var, val, s));
            assert(rest_right.contains(s) <==> rest.contains(s) && !goes_left(x, var, val, s));
        }
    }
}

proof fn lemma_push_contains(a: Seq<u32>, v: u32, s: u32)
    ensures
        a.push(v).contains(s) <==> a.contains(s) || s == v,
{
    let b = a.push(v);
    if a.contains(s) {
        let k = choose|k: int| 0 <= k < a.len() && a[k] == s;
        assert(b[k] == s);
    }
    if s == v {
        assert(b[a.len() as int] == s);
    }
    if b.contains(s) {
        let k = choose|k: int| 0 <= k < b.len() && b[k] == s;
        if k < a.len() {
            assert(a[k] == s);
        }
    }
}

/// Where neither value nor threshold is missing, a sample ends up in the leaf whose contents
/// were proposed with it.
pub proof fn law_sides_match_assignment(t: TreeModel, p: LeafProposal, x: Matrix, s: int)
    requires
        grown_on(t, x),
        indexable(t.max_depth),
        proposal_fits(t, p, x),
        x.height() <= u32::MAX,
        x.height() <= usize::MAX,
        0 <= s < x.height(),
        t.leaf_indices[s] == p.node_idx,
        !x.at(s, p.split_var as int).is_nan_spec(),
        !p.split_val.is_nan_spec(),
    ensures
        mutated(t, p, x).leaf_indices[s] == if goes_left(x, p.split_var, p.split_val, s as u32) {
            2 * p.node_idx + 1
        } else {
            2 * p.node_idx + 2
        },
{
    law_mutation_parts_samples(t, p, x, s);
}

} // verus!
