//! What is told of the shape of a tree.
use crate::kernel::{count_splits, leaf_depth, split_count, tree_depth};
use crate::proposal_laws::lies_at;
use crate::tree::TreeArrays;
use crate::tree_laws::law_depth_is_logarithm;
use crate::tree_model::{node_depth, TreeModel};
use vstd::arithmetic::power2::pow2;
use vstd::prelude::*;

verus! {

proof fn lemma_deepest(t: TreeModel, n: nat)
    requires
        n <= t.len(),
    ensures
        forall|i: int|
            0 <= i < n && #[trigger] t.split_var[i] == u32::MAX ==> i + 1 < pow2(
                leaf_depth(t, n) + 1,
            ),
        leaf_depth(t, n) > 0 ==> exists|i: int|
            0 <= i < n && #[trigger] t.split_var[i] == u32::MAX && lies_at(i, leaf_depth(t, n)),
    decreases n,
{
    if n > 0 {
        let m = (n - 1) as nat;
        lemma_deepest(t, m);
        law_depth_is_logarithm(m);
        let d = leaf_depth(t, n);
        let e = leaf_depth(t, m);
        if e < d {
            vstd::arithmetic::power2::lemma_pow2_strictly_increases(e + 1, d + 1);
        }
        if t.split_var[m as int] == u32::MAX && node_depth(m) < d {
            vstd::arithmetic::power2::lemma_pow2_strictly_increases(node_depth(m) + 1, d + 1);
        }
        if d > e {
            assert(t.split_var[m as int] == u32::MAX && lies_at(m as int, d));
        } else if d > 0 {
            let i = choose|i: int|
                0 <= i < m && #[trigger] t.split_var[i] == u32::MAX && lies_at(i, e);
            assert(t.split_var[i] == u32::MAX && lies_at(i, d));
        }
    }
}

/// The depth that is told of a tree is that of its deepest leaf: no leaf lies deeper, and one
/// lies that deep, or the tree is told to have no depth and no leaf but the root.
pub proof fn law_depth_is_that_of_the_deepest_leaf(tree: TreeArrays, r: u8)
    requires
        call_ensures(tree_depth, (&tree,), r),
        tree@.size == tree@.split_var.len(),
    ensures
        forall|i: int|
            0 <= i < tree@.split_var.len() && #[trigger] tree@.split_var[i] == u32::MAX ==> i + 1
                < pow2((r + 1) as nat),
        r > 0 ==> exists|i: int|
            {
                &&& 0 <= i < tree@.split_var.len()
                &&& #[trigger] tree@.split_var[i] == u32::MAX
                &&& lies_at(i, r as nat)
            },
{
    lemma_deepest(tree@, tree@.size);
}

/// Whether a node splits on feature `f`.
pub open spec fn splits_by(t: TreeModel, f: int) -> spec_fn(int) -> bool {
    |i: int| t.split_var[i] != u32::MAX && t.split_var[i] == f
}

/// The nodes of a tree that split on feature `f`.
pub open spec fn nodes_on(t: TreeModel, n: nat, f: int) -> Seq<int> {
    Seq::new(n, |i: int| i).filter(splits_by(t, f))
}

proof fn lemma_nodes_on(t: TreeModel, n: nat, f: int)
    requires
        n <= t.len(),
    ensures
        nodes_on(t, n, f).len() == split_count(t, n, f),
    decreases n,
{
    let p = splits_by(t, f);
    reveal(Seq::filter);
    if n > 0 {
        let m = (n - 1) as nat;
        lemma_nodes_on(t, m, f);
        let all = Seq::new(n, |i: int| i);
        assert(all.drop_last() =~= Seq::new(m, |i: int| i));
        assert(all.last() == m);
        assert(nodes_on(t, n, f) == all.filter(p));
        assert(nodes_on(t, m, f) == all.drop_last().filter(p));
    }
}

/// The counts grow, feature by feature, by the number of nodes that split on it.
pub proof fn law_counts_grow_by_nodes(tree: TreeArrays, before: Seq<u32>, after: Seq<u32>, f: int)
    requires
        exists|counts: &mut Vec<u32>|
            {
                &&& counts@ == before
                &&& final(counts)@ == after
                &&& #[trigger] call_ensures(count_splits, (&tree, counts), true)
            },
        tree@.size == tree@.split_var.len(),
        0 <= f < before.len(),
    ensures
        after.len() == before.len(),
        after[f] == before[f] + nodes_on(tree@, tree@.split_var.len(), f).len(),
{
    lemma_nodes_on(tree@, tree@.size, f);
}

} // verus!
