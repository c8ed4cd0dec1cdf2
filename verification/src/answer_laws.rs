//! What a tree answers after it was split.
use crate::binary64::Binary64;
use crate::growth_laws::answers;
use crate::matrix::Matrix;
use crate::numerics::Numerics;
use crate::particle::{
    indexable, law_mutation_parts_samples, lemma_indexable, mutated, proposal_fits,
};
use crate::response::{LeafKind, LeafPayload, LeafProposal};
use crate::routing::{grown_on, law_grown_tree_is_assigned};
use crate::tree::TreeArrays;
use crate::tree_laws::{law_split_makes_two_leaves, payload_value};
use crate::tree_model::TreeModel;
use vstd::prelude::*;

verus! {

/// A leaf with the contents of `payload` answers `v` as output `o` of sample `s`: the value,
/// or the point of the line at the sample, or the intercept where the feature is missing.
pub open spec fn payload_answers<N: Numerics>(
    num: &N,
    payload: LeafPayload,
    x: Matrix,
    o: int,
    s: int,
    v: Binary64,
) -> bool {
    match payload {
        LeafPayload::Gaussian { value } => o < value@.len() ==> v == value@[o],
        LeafPayload::Linear { intercept, slope, var } => {
            let feature = x.at(s, var as int);
            o < intercept@.len() && o < slope@.len() ==> if feature.is_nan_spec() {
                v == intercept@[o]
            } else {
                exists|rise: Binary64|
                    {
                        &&& call_ensures(N::times, (num, slope@[o], feature), rise)
                        &&& #[trigger] call_ensures(N::plus, (num, intercept@[o], rise), v)
                    }
            }
        },
    }
}

/// After a split, the samples of the node that was split answer from the side that they go
/// to: from the right leaf where their value exceeds the threshold, from the left one where it
/// does not. All other samples answer as they did.
pub proof fn law_split_changes_only_its_samples<N: Numerics>(
    num: &N,
    t: TreeModel,
    p: LeafProposal,
    x: Matrix,
    o: int,
    s: int,
    v: Binary64,
)
    requires
        grown_on(t, x),
        indexable(t.max_depth),
        proposal_fits(t, p, x),
        mutated(t, p, x).linear_var.len() <= usize::MAX,
        x.height() <= usize::MAX,
        0 <= s < x.height(),
        0 <= o < t.n_outputs,
    ensures
        t.leaf_indices[s] == p.node_idx && answers(num, mutated(t, p, x), x, o, s, v) ==> {
            if p.split_val.lt_spec(x.at(s, p.split_var as int)) {
                payload_answers(num, p.right, x, o, s, v)
            } else {
                payload_answers(num, p.left, x, o, s, v)
            }
        },
        t.leaf_indices[s] != p.node_idx ==> answers(num, mutated(t, p, x), x, o, s, v) == answers(
            num,
            t,
            x,
            o,
            s,
            v,
        ),
{
    lemma_indexable(t.max_depth);
    let r = mutated(t, p, x);
    let node = p.node_idx as int;
    let cut = t.split(node, p.split_var, p.split_val, p.left, p.right);
    law_mutation_parts_samples(t, p, x, s);
    law_split_makes_two_leaves(t, node, p.split_var, p.split_val, p.left, p.right);
    assert(r.leaf_val == cut.leaf_val && r.leaf_kind == cut.leaf_kind);
    assert(r.leaf_param_idx == cut.leaf_param_idx && r.linear_var == cut.linear_var);
    assert(r.n_outputs == t.n_outputs);
    if t.leaf_indices[s] == node {
        let leaf = r.leaf_indices[s] as int;
        let payload = if p.split_val.lt_spec(x.at(s, p.split_var as int)) {
            p.right
        } else {
            p.left
        };
        assert(cut.holds(leaf, payload));
        assert(cut.value(leaf, o) == payload_value(payload, o));
        if answers(num, r, x, o, s, v) {
            match payload {
                LeafPayload::Gaussian { value } => {},
                LeafPayload::Linear { intercept, slope, var } => {
                    let line = r.leaf_param_idx[leaf] as int;
                    assert(line < r.linear_var.len());
                    assert(r.linear_var[line] == var);
                },
            }
        }
    } else {
        let leaf = t.leaf_indices[s] as int;
        assert(leaf != 2 * node + 1 && leaf != 2 * node + 2);
        assert(t.is_leaf(leaf)) by {
            law_grown_tree_is_assigned(t, x);
            assert(t.is_leaf(t.leaf_indices[s] as int));
        }
        assert(cut.value(leaf, o) == t.value(leaf, o));
        let line = t.leaf_param_idx[leaf] as int;
        if t.leaf_param_idx[leaf] != usize::MAX {
            assert(line < t.linear_var.len());
            assert(cut.linear_var[line] == t.linear_var[line]);
        }
    }
}

/// The stored values of the training samples are what a tree without lines answers, and the
/// values of the first output alone are the first row of them. What is beyond the samples
/// stays.
pub proof fn law_stored_values_are_answers<N: Numerics>(
    num: &N,
    tree: TreeArrays,
    x: Matrix,
    values: Matrix,
    before: Seq<Binary64>,
    after: Seq<Binary64>,
    o: int,
    s: int,
    v: Binary64,
)
    requires
        call_ensures(TreeArrays::predict_training, (&tree,), values),
        exists|out: &mut Vec<Binary64>|
            {
                &&& out@ == before
                &&& final(out)@ == after
                &&& #[trigger] call_ensures(TreeArrays::predict_training_into, (&tree, out), ())
            },
        0 <= o < tree@.n_outputs,
        0 <= s < tree@.leaf_indices.len(),
        LeafKind::of_code(tree@.leaf_kind[tree@.leaf_indices[s] as int]) == LeafKind::Gaussian,
        answers(num, tree@, x, o, s, v),
    ensures
        values.height() == tree@.n_outputs,
        values.width() == tree@.leaf_indices.len(),
        values.at(o, s) == v,
        after.len() == before.len(),
        s < before.len() ==> after[s] == values.at(0, s),
        forall|k: int|
            tree@.leaf_indices.len() <= k < before.len() ==> #[trigger] after[k] == before[k],
{
}

} // verus!
