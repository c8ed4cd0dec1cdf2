//! What calls on trees give, and how they go together.
use crate::binary64::Binary64;
use crate::growth_laws::{answers, law_training_predictions_are_answers};
use crate::leaf_laws::{computes_exactly, fits_exactly, is_exact, unit_scale};
use crate::matrix::Matrix;
use crate::numerics::Numerics;
use crate::pickling::TreeState;
use crate::predict::is_batch_prediction;
use crate::response::LeafKind;
use crate::share_laws::law_left_out_split_blends_its_leaves;
use crate::tree::{deep, TreeArrays};
use vstd::prelude::*;

verus! {

/// A tree that is taken apart, made anew from its arguments and given its state holds all
/// that it held, but its training samples are all at the root.
pub proof fn law_pickled_tree_comes_back(
    tree: TreeArrays,
    state: TreeState,
    args: (Binary64, usize, u8, usize),
    made: TreeArrays,
    back: TreeArrays,
)
    requires
        call_ensures(TreeArrays::to_state, (&tree,), state),
        call_ensures(TreeArrays::reduce_args, (&tree,), args),
        call_ensures(TreeArrays::new, args, made),
        exists|a: &mut TreeArrays|
            {
                &&& *a == made
                &&& *final(a) == back
                &&& #[trigger] call_ensures(TreeArrays::set_state, (a, state), ())
            },
    ensures
        back.split_var@ == tree.split_var@,
        back.split_val@ == tree.split_val@,
        back.leaf_val@ == tree.leaf_val@,
        back.size == tree.size,
        back.max_depth == tree.max_depth,
        back.n_outputs == tree.n_outputs,
        back.node_nvalue@ == tree.node_nvalue@,
        back.leaf_kind@ == tree.leaf_kind@,
        back.leaf_param_idx@ == tree.leaf_param_idx@,
        back.linear_var@ == tree.linear_var@,
        back.linear_intercept@.len() == tree.linear_intercept@.len(),
        back.linear_slope@.len() == tree.linear_slope@.len(),
        forall|i: int|
            0 <= i < tree.linear_intercept@.len() ==> (#[trigger] back.linear_intercept@[i])@
                == tree.linear_intercept@[i]@,
        forall|i: int|
            0 <= i < tree.linear_slope@.len() ==> (#[trigger] back.linear_slope@[i])@
                == tree.linear_slope@[i]@,
        back.leaf_indices@.len() == tree.leaf_indices@.len(),
        forall|s: int|
            0 <= s < back.leaf_indices@.len() ==> #[trigger] back.leaf_indices@[s] == 0,
{
    let t = tree@;
    let b = back@;
    assert(b.split_var == t.split_var && b.split_val == t.split_val);
    assert(b.leaf_val == t.leaf_val && b.node_nvalue == t.node_nvalue);
    assert(b.leaf_kind == t.leaf_kind && b.leaf_param_idx == t.leaf_param_idx);
    assert(b.linear_var == t.linear_var);
    assert(deep(back.linear_intercept@) == deep(tree.linear_intercept@));
    assert(deep(back.linear_slope@) == deep(tree.linear_slope@));
    assert(deep(back.linear_intercept@).len() == back.linear_intercept@.len());
    assert(deep(tree.linear_intercept@).len() == tree.linear_intercept@.len());
    assert(deep(back.linear_slope@).len() == back.linear_slope@.len());
    assert(deep(tree.linear_slope@).len() == tree.linear_slope@.len());
    assert forall|i: int| 0 <= i < tree.linear_intercept@.len() implies (
    #[trigger] back.linear_intercept@[i])@ == tree.linear_intercept@[i]@ by {
        assert(deep(back.linear_intercept@)[i] == deep(tree.linear_intercept@)[i]);
    }
    assert forall|i: int| 0 <= i < tree.linear_slope@.len() implies (
    #[trigger] back.linear_slope@[i])@ == tree.linear_slope@[i]@ by {
        assert(deep(back.linear_slope@)[i] == deep(tree.linear_slope@)[i]);
    }
}

/// Writing the predictions for the training samples writes what the tree answers for each.
pub proof fn law_training_call_writes_answers<N: Numerics>(
    num: &N,
    tree: TreeArrays,
    x: Matrix,
    before: Matrix,
    after: Matrix,
    o: int,
    s: int,
)
    requires
        exists|out: &mut Matrix|
            {
                &&& *out == before
                &&& *final(out) == after
                &&& #[trigger] call_ensures(
                    TreeArrays::predict_training_into_multi::<N>,
                    (&tree, num, out, Some(&x)),
                    (),
                )
            },
        0 <= o < before.height(),
        0 <= s < before.width(),
    ensures
        after.height() == before.height(),
        after.width() == before.width(),
        answers(num, tree@, x, o, s, after.at(o, s)),
{
    law_training_predictions_are_answers(num, tree@, x, before, after, o, s);
}

/// Predictions leave out the features that are named, and none where no list is given: the
/// two calls of prediction agree on what to leave out.
pub proof fn law_predict_takes_its_list<N: Numerics>(
    num: &N,
    tree: TreeArrays,
    x: Matrix,
    list: Vec<usize>,
    r: Matrix,
    none: Matrix,
    q: Matrix,
)
    requires
        call_ensures(TreeArrays::predict::<N>, (&tree, num, &x, Some(list)), r),
        call_ensures(TreeArrays::predict::<N>, (&tree, num, &x, None::<Vec<usize>>), none),
        call_ensures(TreeArrays::predict_batch_test::<N>, (&tree, num, &x, &list), q),
    ensures
        is_batch_prediction(num, tree@, x, list@, r),
        is_batch_prediction(num, tree@, x, list@, q),
        is_batch_prediction(num, tree@, x, Seq::empty(), none),
{
}

/// A call for a tree of one split and two stored values that leaves its feature out gives the
/// values weighted by the training samples on each side.
pub proof fn law_predict_blends_what_is_left_out<N: Numerics>(
    num: &N,
    tree: TreeArrays,
    x: Matrix,
    list: Vec<usize>,
    r: Matrix,
    o: int,
    s: int,
    share: int,
    from_left: int,
    from_right: int,
    unit: int,
    bound: int,
)
    requires
        call_ensures(TreeArrays::predict::<N>, (&tree, num, &x, Some(list)), r),
        list@.contains(tree.split_var@[0] as usize),
        computes_exactly(num, unit, bound),
        bound >= 0,
        unit > 0,
        tree.split_var@.len() == 3,
        tree.split_var@[0] != u32::MAX,
        tree.split_var@[1] == u32::MAX,
        tree.split_var@[2] == u32::MAX,
        LeafKind::of_code(tree.leaf_kind@[1]) == LeafKind::Gaussian,
        LeafKind::of_code(tree.leaf_kind@[2]) == LeafKind::Gaussian,
        0 <= o < tree.n_outputs,
        0 <= s < x.height(),
        tree.node_nvalue@[0].is_finite_spec(),
        tree.node_nvalue@[0].scaled() > 0,
        tree.node_nvalue@[1].is_finite_spec(),
        is_exact(tree.leaf_val@[tree.n_outputs + o], unit, bound),
        is_exact(tree.leaf_val@[2 * tree.n_outputs + o], unit, bound),
        share * tree.node_nvalue@[0].scaled() == tree.node_nvalue@[1].scaled() * unit_scale(),
        from_left * unit_scale() == share * tree.leaf_val@[tree.n_outputs + o].scaled(),
        from_right * unit_scale() == (unit_scale() - share) * tree.leaf_val@[2 * tree.n_outputs
            + o].scaled(),
        fits_exactly(unit_scale(), unit, bound),
        fits_exactly(share, unit, bound),
        fits_exactly(unit_scale() - share, unit, bound),
        fits_exactly(from_left, unit, bound),
        fits_exactly(from_right, unit, bound),
        fits_exactly(from_left + from_right, unit, bound),
    ensures
        tree.node_nvalue@[0].scaled() * r.at(o, s).scaled() == tree.node_nvalue@[1].scaled()
            * tree.leaf_val@[tree.n_outputs + o].scaled() + (tree.node_nvalue@[0].scaled()
            - tree.node_nvalue@[1].scaled()) * tree.leaf_val@[2 * tree.n_outputs + o].scaled(),
{
    let t = tree@;
    assert(t.n_outputs + o == tree.n_outputs + o);
    assert(2 * t.n_outputs + o == 2 * tree.n_outputs + o);
    law_left_out_split_blends_its_leaves(
        num,
        t,
        x,
        list@,
        r,
        o,
        s,
        share,
        from_left,
        from_right,
        unit,
        bound,
    );
}

} // verus!
