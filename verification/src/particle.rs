//! A tree in the making.
use crate::binary64::{count_number, Binary64, ZERO_BITS};
use crate::matrix::Matrix;
use crate::node_laws::{law_mutation_keeps_tidy, law_root_is_tidy};
use crate::response::LeafProposal;
use crate::routing::{grown_on, law_root_is_grown, law_split_keeps_routes, payload_uses_only, route};
use crate::tree::{max_nodes_for_depth, TreeArrays};
use crate::tree_laws::{law_leaf_samples, lemma_split_nodes};
use crate::tree_model::{max_nodes, TreeModel};
use crate::update::TreeProposal;
use vstd::arithmetic::power2::{lemma_pow2_pos, lemma_pow2_unfold, pow2};
use vstd::prelude::*;

verus! {

/// A tree, its weight, and the leaves that may still be split, oldest first.
pub struct Particle {
    pub tree: TreeArrays,
    pub log_weight: Binary64,
    pub expandable: Vec<u32>,
}

/// What a particle holds.
#[verifier::ext_equal]
pub struct ParticleModel {
    pub tree: TreeModel,
    pub log_weight: Binary64,
    pub expandable: Seq<u32>,
}

impl View for Particle {
    type V = ParticleModel;

    open spec fn view(&self) -> ParticleModel {
        ParticleModel {
            tree: self.tree@,
            log_weight: self.log_weight,
            expandable: self.expandable@,
        }
    }
}

impl Clone for Particle {
    fn clone(&self) -> (r: Self)
        ensures
            r@ == self@,
    {
        let r = Particle {
            tree: self.tree.clone(),
            log_weight: self.log_weight,
            expandable: self.expandable.clone(),
        };
        assert(r.expandable@ =~= self.expandable@);
        r
    }
}

/// Node `i` has room for children.
pub open spec fn has_room(t: TreeModel, i: int) -> bool {
    2 * i + 2 < max_nodes(t.max_depth)
}

/// The nodes waiting to be split are different leaves of the tree with room for children.
pub open spec fn queue_ok(t: TreeModel, queue: Seq<u32>) -> bool {
    &&& queue.no_duplicates()
    &&& forall|k: int|
        0 <= k < queue.len() ==> {
            &&& t.is_leaf(#[trigger] queue[k] as int)
            &&& t.attached(queue[k] as int)
            &&& has_room(t, queue[k] as int)
        }
}

/// The number of nodes that the subtree under `node` can have where there are `m` in all.
pub open spec fn full_size(node: int, m: int) -> nat
    decreases (if 0 <= node < m { m - node } else { 0 }),
{
    if 0 <= node < m {
        1 + full_size(2 * node + 1, m) + full_size(2 * node + 2, m)
    } else {
        0
    }
}

/// The number of nodes that can still be visited when these nodes are waiting.
pub open spec fn potential(queue: Seq<u32>, m: int) -> nat
    decreases queue.len(),
{
    if queue.len() == 0 {
        0
    } else {
        potential(queue.drop_last(), m) + full_size(queue.last() as int, m)
    }
}

/// The child nodes of `node` that may be split in turn.
pub open spec fn new_expandable(t: TreeModel, node: int) -> Seq<u32> {
    let left = if has_room(t, 2 * node + 1) {
        seq![(2 * node + 1) as u32]
    } else {
        Seq::empty()
    };
    if has_room(t, 2 * node + 2) {
        left.push((2 * node + 2) as u32)
    } else {
        left
    }
}

/// The tree after a split, with its samples moved to the new leaves and counted there.
pub open spec fn mutated(t: TreeModel, p: LeafProposal, x: Matrix) -> TreeModel {
    let node = p.node_idx as int;
    let moved = t.split(node, p.split_var, p.split_val, p.left, p.right).reassigned(
        (2 * node + 1) as u32,
        p.split_var,
        p.split_val,
        t.samples_below(node as u32, t.leaf_indices.len()),
        x,
    );
    let n = moved.leaf_indices.len();
    let left = moved.samples_below((2 * node + 1) as u32, n).len();
    let right = moved.samples_below((2 * node + 2) as u32, n).len();
    TreeModel {
        node_nvalue: moved.node_nvalue.update(2 * node + 1, count_number(left)).update(
            2 * node + 2,
            count_number(right),
        ),
        ..moved
    }
}

/// A proposal fits a tree: it splits a leaf with room for children, in a feature of `x`.
pub open spec fn proposal_fits(t: TreeModel, p: LeafProposal, x: Matrix) -> bool {
    &&& t.is_leaf(p.node_idx as int)
    &&& t.attached(p.node_idx as int)
    &&& has_room(t, p.node_idx as int)
    &&& p.split_var < x.width()
    &&& p.split_var != u32::MAX
    &&& payload_uses_only(p.left, x.width())
    &&& payload_uses_only(p.right, x.width())
}

/// Every node of a tree this deep has an index that fits `u32`.
pub open spec fn indexable(max_depth: nat) -> bool {
    &&& max_depth + 1 < usize::BITS
    &&& max_depth <= 31
}

pub proof fn lemma_indexable(max_depth: nat)
    requires
        indexable(max_depth),
    ensures
        1 <= max_nodes(max_depth) <= u32::MAX,
{
    vstd::arithmetic::power2::lemma2_to64();
    vstd::arithmetic::power2::lemma_pow2_pos(max_depth);
    vstd::arithmetic::power2::lemma_pow2_unfold(max_depth + 1);
    if max_depth + 1 < 32 {
        vstd::arithmetic::power2::lemma_pow2_strictly_increases(max_depth + 1, 32);
    }
}

impl ParticleModel {
    /// The invariant of a particle that grows on the rows of `x`.
    pub open spec fn wf(self, x: Matrix) -> bool {
        &&& grown_on(self.tree, x)
        &&& indexable(self.tree.max_depth)
        &&& queue_ok(self.tree, self.expandable)
        &&& self.tree.tidy()
    }

    /// The number of nodes that can still be visited.
    pub open spec fn potential(self) -> nat {
        potential(self.expandable, max_nodes(self.tree.max_depth))
    }
}

/// The nodes of two queues together.
proof fn lemma_potential_of_both(a: Seq<u32>, b: Seq<u32>, m: int)
    ensures
        potential(a + b, m) == potential(a, m) + potential(b, m),
    decreases b.len(),
{
    if b.len() == 0 {
        assert(a + b =~= a);
    } else {
        assert((a + b).drop_last() =~= a + b.drop_last());
        lemma_potential_of_both(a, b.drop_last(), m);
    }
}

/// Taking a node off the queue takes its subtree off what can be visited.
pub proof fn lemma_potential_of_first(queue: Seq<u32>, m: int)
    requires
        queue.len() > 0,
    ensures
        potential(queue, m) == full_size(queue[0] as int, m) + potential(queue.drop_first(), m),
{
    let first = seq![queue[0]];
    assert(queue =~= first + queue.drop_first());
    lemma_potential_of_both(first, queue.drop_first(), m);
    assert(first.drop_last() =~= Seq::empty());
    assert(potential(first.drop_last(), m) == 0);
}

/// Visiting a node leaves fewer nodes to visit, also where its children take its place.
pub proof fn lemma_potential_after_visit(t: TreeModel, queue: Seq<u32>)
    requires
        indexable(t.max_depth),
        queue.len() > 0,
        has_room(t, queue[0] as int),
    ensures
        potential(queue.drop_first(), max_nodes(t.max_depth)) < potential(
            queue,
            max_nodes(t.max_depth),
        ),
        potential(
            queue.drop_first() + new_expandable(t, queue[0] as int),
            max_nodes(t.max_depth),
        ) < potential(queue, max_nodes(t.max_depth)),
{
    lemma_indexable(t.max_depth);
    let m = max_nodes(t.max_depth);
    let node = queue[0] as int;
    let added = new_expandable(t, node);
    lemma_potential_of_first(queue, m);
    lemma_potential_of_both(queue.drop_first(), added, m);
    assert(full_size(node, m) == 1 + full_size(2 * node + 1, m) + full_size(2 * node + 2, m));
    let left = if has_room(t, 2 * node + 1) {
        seq![(2 * node + 1) as u32]
    } else {
        Seq::empty()
    };
    assert(potential(left, m) <= full_size(2 * node + 1, m)) by {
        if left.len() > 0 {
            assert(left.drop_last() =~= Seq::empty());
            assert(potential(left.drop_last(), m) == 0);
        }
    }
    if has_room(t, 2 * node + 2) {
        assert(added.drop_last() =~= left);
    }
}

/// The number of nodes that can lie under a node at depth `k` or deeper.
proof fn lemma_full_size_by_depth(node: int, k: nat, depth: nat)
    requires
        k <= depth + 1,
        node >= pow2(k) - 1,
    ensures
        full_size(node, max_nodes(depth)) <= pow2((depth + 1 - k) as nat) - 1,
    decreases depth + 1 - k,
{
    lemma_pow2_pos((depth + 1 - k) as nat);
    lemma_pow2_pos(k);
    if k < depth + 1 {
        lemma_pow2_unfold(k + 1);
        lemma_pow2_unfold((depth + 1 - k) as nat);
        lemma_full_size_by_depth(2 * node + 1, k + 1, depth);
        lemma_full_size_by_depth(2 * node + 2, k + 1, depth);
    }
}

/// From the root no more nodes can be visited than there are.
pub proof fn lemma_full_size_of_root(depth: nat)
    ensures
        full_size(0, max_nodes(depth)) <= max_nodes(depth),
{
    vstd::arithmetic::power2::lemma2_to64();
    lemma_full_size_by_depth(0, 0, depth);
}

impl Particle {
    /// The invariant of a particle that grows on the rows of `x`.
    pub open spec fn wf(self, x: Matrix) -> bool {
        self@.wf(x)
    }

    /// A particle of one leaf, which may be split where the depth allows.
    pub fn new(init_leaf_value: Binary64, n_samples: usize, max_depth: u8, n_outputs: usize) -> (r:
        Particle)
        requires
            indexable(max_depth as nat),
            max_nodes(max_depth as nat) * (if n_outputs == 0 { 1 } else { n_outputs as int })
                <= usize::MAX,
        ensures
            r.tree@ == TreeModel::root(
                init_leaf_value,
                n_samples as nat,
                max_depth as nat,
                n_outputs as nat,
            ),
            r.log_weight == (Binary64 { bits: ZERO_BITS }),
            r.expandable@ == if max_depth > 0 { seq![0u32] } else { Seq::empty() },
            forall|x: Matrix| x.height() == n_samples ==> #[trigger] r.wf(x),
    {
        let mut expandable: Vec<u32> = Vec::new();
        if max_depth > 0 {
            expandable.push(0);
        }
        let r = Particle {
            tree: TreeArrays::new(init_leaf_value, n_samples, max_depth, n_outputs),
            log_weight: Binary64 { bits: ZERO_BITS },
            expandable,
        };
        assert forall|x: Matrix| x.height() == n_samples implies #[trigger] r.wf(x) by {
            law_root_is_grown(init_leaf_value, max_depth as nat, n_outputs as nat, x);
            law_root_is_tidy(
                init_leaf_value,
                n_samples as nat,
                max_depth as nat,
                n_outputs as nat,
            );
            vstd::arithmetic::power2::lemma2_to64();
            if max_depth > 1 {
                vstd::arithmetic::power2::lemma_pow2_strictly_increases(2, (max_depth + 1) as nat);
            }
        }
        r
    }

    /// A particle that keeps a given tree.
    pub fn from_reference(tree: TreeArrays) -> (r: Particle)
        ensures
            r.tree == tree,
            r.log_weight == (Binary64 { bits: ZERO_BITS }),
            r.expandable@ == Seq::<u32>::empty(),
    {
        Particle { tree, log_weight: Binary64 { bits: ZERO_BITS }, expandable: Vec::new() }
    }

    pub fn has_expandable_nodes(&self) -> (r: bool)
        ensures
            r == (self.expandable@.len() > 0),
    {
        self.expandable.len() > 0
    }

    /// The node that is next to be split.
    pub fn peek_next_expandable(&self) -> (r: Option<u32>)
        ensures
            r == if self.expandable@.len() > 0 { Some(self.expandable@[0]) } else { None },
    {
        if self.expandable.len() > 0 {
            Some(self.expandable[0])
        } else {
            None
        }
    }

    /// Takes the node that is next to be split off the queue.
    pub fn pop_next_expandable(&mut self) -> (r: Option<u32>)
        ensures
            final(self).tree == old(self).tree,
            final(self).log_weight == old(self).log_weight,
            if old(self).expandable@.len() > 0 {
                &&& r == Some(old(self).expandable@[0])
                &&& final(self).expandable@ == old(self).expandable@.drop_first()
            } else {
                &&& r is None
                &&& final(self).expandable@ == old(self).expandable@
            },
    {
        if self.expandable.len() > 0 {
            let node: u32 = self.expandable.remove(0);
            assert(self.expandable@ =~= old(self).expandable@.drop_first());
            Some(node)
        } else {
            None
        }
    }

    /// The samples in a leaf.
    pub fn leaf_samples(&self, node_idx: usize) -> (r: Vec<u32>)
        requires
            self.tree@.is_leaf(node_idx as int),
            self.tree@.leaf_indices.len() <= u32::MAX,
        ensures
            r@ == sample_numbers(self.tree@, node_idx as u32),
    {
        let samples = self.tree.get_leaf_samples(node_idx);
        proof {
            law_leaf_samples(self.tree@, node_idx as u32, self.tree@.leaf_indices.len());
        }
        let mut r: Vec<u32> = Vec::new();
        for k in 0..samples.len()
            invariant
                r@ == samples@.take(k as int).map_values(|s: usize| s as u32),
        {
            r.push(samples[k] as u32);
            assert(r@ =~= samples@.take(k + 1).map_values(|s: usize| s as u32));
        }
        assert(samples@.take(samples@.len() as int) =~= samples@);
        r
    }
}

/// A mutated tree is still one that was grown on its rows.
pub proof fn law_mutation_keeps_growth(t: TreeModel, p: LeafProposal, x: Matrix)
    requires
        grown_on(t, x),
        indexable(t.max_depth),
        proposal_fits(t, p, x),
        mutated(t, p, x).linear_var.len() <= usize::MAX,
        x.height() <= usize::MAX,
    ensures
        grown_on(mutated(t, p, x), x),
        mutated(t, p, x).max_depth == t.max_depth,
        mutated(t, p, x).n_outputs == t.n_outputs,
{
    lemma_indexable(t.max_depth);
    let node = p.node_idx as int;
    let samples = t.samples_below(node as u32, t.leaf_indices.len());
    law_leaf_samples(t, node as u32, t.leaf_indices.len());
    law_split_keeps_routes(t, node, p.split_var, p.split_val, p.left, p.right, samples, x);
    let moved = t.split(node, p.split_var, p.split_val, p.left, p.right).reassigned(
        (2 * node + 1) as u32,
        p.split_var,
        p.split_val,
        samples,
        x,
    );
    let r = mutated(t, p, x);
    assert forall|i: int| #[trigger] r.is_internal(i) implies moved.is_internal(i) by {}
    assert forall|s: int| 0 <= s < r.leaf_indices.len() implies #[trigger] r.leaf_indices[s]
        == route(r, x, s, 0) by {
        lemma_route_by_splits(moved, r, x, s, 0);
        assert(moved.leaf_indices[s] == route(moved, x, s, 0));
    }
    assert forall|i: int| i > 0 && #[trigger] r.is_internal(i) implies r.is_internal((i - 1) / 2) by {
        assert(moved.is_internal(i));
        assert(moved.is_internal((i - 1) / 2));
    }
    assert(r.complete());
    assert(r.lines_stored());
    assert(r.uses_only(x.width()));
    lemma_split_nodes(t, node, p.split_var, p.split_val, p.left, p.right);
}

/// A route depends on the splits alone.
proof fn lemma_route_by_splits(a: TreeModel, b: TreeModel, x: Matrix, s: int, node: int)
    requires
        a.split_var == b.split_var,
        a.split_val == b.split_val,
    ensures
        route(a, x, s, node) == route(b, x, s, node),
    decreases a.nodes_from(node),
{
    if a.is_internal(node) {
        assert(b.is_internal(node));
        lemma_route_by_splits(a, b, x, s, 2 * node + 1);
        lemma_route_by_splits(a, b, x, s, 2 * node + 2);
    } else {
        assert(!b.is_internal(node));
    }
}

/// A route that starts at an attached node ends at one.
proof fn lemma_route_is_attached(t: TreeModel, x: Matrix, s: int, node: int)
    requires
        t.attached(node),
        0 <= node,
    ensures
        t.attached(route(t, x, s, node)),
        route(t, x, s, node) >= 0,
    decreases t.nodes_from(node),
{
    if t.is_internal(node) {
        assert((2 * node + 1 - 1) / 2 == node);
        assert((2 * node + 2 - 1) / 2 == node);
        lemma_route_is_attached(t, x, s, 2 * node + 1);
        lemma_route_is_attached(t, x, s, 2 * node + 2);
    }
}

/// A mutation parts the samples of the node it splits among the two children, those that
/// exceed the threshold on the right, and leaves all other samples where they are.
pub proof fn law_mutation_parts_samples(t: TreeModel, p: LeafProposal, x: Matrix, s: int)
    requires
        grown_on(t, x),
        indexable(t.max_depth),
        proposal_fits(t, p, x),
        x.height() <= usize::MAX,
        0 <= s < x.height(),
    ensures
        ({
            let r = mutated(t, p, x);
            let node = p.node_idx as int;
            &&& t.leaf_indices[s] == node ==> r.leaf_indices[s] == if p.split_val.lt_spec(
                x.at(s, p.split_var as int),
            ) {
                2 * node + 2
            } else {
                2 * node + 1
            }
            &&& t.leaf_indices[s] != node ==> r.leaf_indices[s] == t.leaf_indices[s]
            &&& (r.leaf_indices[s] == 2 * node + 1 || r.leaf_indices[s] == 2 * node + 2) <==> t.leaf_indices[s]
                == node
        }),
{
    lemma_indexable(t.max_depth);
    let node = p.node_idx as int;
    law_leaf_samples(t, node as u32, t.leaf_indices.len());
    let samples = t.samples_below(node as u32, t.leaf_indices.len());
    assert(samples.contains(s as usize) <==> t.leaf_indices[s] == node);
    assert(t.leaf_indices[s] == route(t, x, s, 0));
    lemma_route_is_attached(t, x, s, 0);
    assert((2 * node + 1 - 1) / 2 == node);
    assert((2 * node + 2 - 1) / 2 == node);
}

/// The nodes waiting after a mutation are different leaves with room for children.
proof fn lemma_queue_after_mutation(t: TreeModel, queue: Seq<u32>, p: LeafProposal, x: Matrix)
    requires
        grown_on(t, x),
        indexable(t.max_depth),
        proposal_fits(t, p, x),
        queue_ok(t, queue),
        !queue.contains(p.node_idx as u32),
    ensures
        queue_ok(mutated(t, p, x), queue + new_expandable(t, p.node_idx as int)),
{
    lemma_indexable(t.max_depth);
    let node = p.node_idx as int;
    let r = mutated(t, p, x);
    let added = new_expandable(t, node);
    let all = queue + added;
    lemma_split_nodes(t, node, p.split_var, p.split_val, p.left, p.right);
    assert((2 * node + 1 - 1) / 2 == node);
    assert((2 * node + 2 - 1) / 2 == node);
    assert(r.is_internal(node));
    assert forall|k: int| 0 <= k < queue.len() implies {
        &&& #[trigger] queue[k] != 2 * node + 1
        &&& queue[k] != 2 * node + 2
        &&& queue[k] != node
    } by {
        assert(t.attached(queue[k] as int));
        assert(queue.contains(queue[k]));
    }
    assert forall|k: int| 0 <= k < all.len() implies {
        &&& r.is_leaf(#[trigger] all[k] as int)
        &&& r.attached(all[k] as int)
        &&& has_room(r, all[k] as int)
    } by {
        if k < queue.len() {
            let q = queue[k] as int;
            assert(all[k] == queue[k]);
            assert(t.is_leaf(q) && t.attached(q) && has_room(t, q));
            assert(r.split_var[q] == t.split_var[q]);
            if q != 0 {
                let parent = (q - 1) / 2;
                assert(t.is_internal(parent));
                if parent > 0 {
                    assert(t.is_internal((parent - 1) / 2));
                }
                assert(r.split_var[parent] == t.split_var[parent]);
            }
        } else {
            assert(all[k] == added[k - queue.len()]);
        }
    }
    assert(all.no_duplicates()) by {
        assert forall|i: int, j: int| 0 <= i < all.len() && 0 <= j < all.len() && i != j implies all[i]
            != all[j] by {
            if i < queue.len() {
                assert(all[i] == queue[i]);
            } else {
                assert(all[i] == added[i - queue.len()]);
            }
            if j < queue.len() {
                assert(all[j] == queue[j]);
            } else {
                assert(all[j] == added[j - queue.len()]);
            }
        }
    }
}

impl Particle {
    /// Splits a node and moves its samples to the new leaves, which may be split in turn
    /// where the depth allows.
    pub fn apply_mutation(&mut self, proposal: TreeProposal, x: &Matrix)
        requires
            old(self).wf(*x),
            proposal_fits(old(self).tree@, proposal.leaf_proposal, *x),
            !old(self).expandable@.contains(proposal.leaf_proposal.node_idx as u32),
        ensures
            final(self).wf(*x),
            final(self).tree@ == mutated(old(self).tree@, proposal.leaf_proposal, *x),
            final(self).tree@.max_depth == old(self).tree@.max_depth,
            final(self).tree@.n_outputs == old(self).tree@.n_outputs,
            final(self).log_weight == old(self).log_weight,
            final(self).expandable@ == old(self).expandable@ + new_expandable(
                old(self).tree@,
                proposal.leaf_proposal.node_idx as int,
            ),
    {
        let p = proposal.leaf_proposal;
        let ghost t = self.tree@;
        let node_idx: usize = p.node_idx;
        let split_var: u32 = p.split_var;
        let split_val = p.split_val;
        let max_nodes = max_nodes_for_depth(self.tree.max_depth);
        proof {
            lemma_indexable(t.max_depth);
            assert(self.tree.leaf_indices.len() == t.leaf_indices.len());
            law_leaf_samples(t, node_idx as u32, t.leaf_indices.len());
        }
        let left: usize = 2 * node_idx + 1;
        let right: usize = 2 * node_idx + 2;
        let affected = self.tree.get_leaf_samples(node_idx);
        self.tree.split_node(node_idx, split_var, split_val, p);
        proof {
            assert forall|k: int| 0 <= k < affected@.len() implies #[trigger] affected@[k]
                < t.leaf_indices.len() by {
                assert(affected@.contains(affected@[k]));
            }
            lemma_split_nodes(t, node_idx as int, split_var, split_val, p.left, p.right);
        }
        self.tree.update_leaf_assignments(node_idx, split_var, split_val, &affected, x);
        let left_count = self.tree.get_leaf_samples(left).len();
        let right_count = self.tree.get_leaf_samples(right).len();
        self.tree.node_nvalue.set(left, Binary64::from_count(left_count));
        self.tree.node_nvalue.set(right, Binary64::from_count(right_count));
        assert(self.tree@ =~= mutated(t, p, *x));
        let ghost queue = self.expandable@;
        proof {
            assert(self.tree.linear_var.len() == self.tree@.linear_var.len());
            law_mutation_keeps_growth(t, p, *x);
            law_mutation_keeps_tidy(t, p, *x);
            lemma_queue_after_mutation(t, queue, p, *x);
        }
        if left < max_nodes / 2 && 2 * left + 2 < max_nodes {
            self.expandable.push(left as u32);
        }
        if right < max_nodes / 2 && 2 * right + 2 < max_nodes {
            self.expandable.push(right as u32);
        }
        assert(self.expandable@ =~= queue + new_expandable(t, node_idx as int));
    }
}

/// The numbers of the samples in a leaf.
pub open spec fn sample_numbers(t: TreeModel, leaf: u32) -> Seq<u32> {
    t.samples_below(leaf, t.leaf_indices.len()).map_values(|s: usize| s as u32)
}

} // verus!
