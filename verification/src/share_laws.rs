//! How a row is parted among the leaves where features are left out.
use crate::binary64::{Binary64, ONE_BITS, ZERO_BITS};
use crate::leaf_laws::{computes_exactly, fits_exactly, is_exact, unit_scale};
use crate::matrix::Matrix;
use crate::numerics::{is_difference, is_product, is_sum, Numerics};
use crate::predict::{
    are_child_weights, are_shared_weights, is_batch_prediction, is_leaf_added,
    is_leaf_contribution, is_left_share, is_row_split, is_subtree_added, is_weight_split,
    left_indicator, unit_weights,
};
use crate::response::LeafKind;
use crate::tree_model::TreeModel;
use vstd::prelude::*;

verus! {

/// What the encodings of zero and one denote.
proof fn lemma_zero_and_one()
    ensures
        (Binary64 { bits: ZERO_BITS }).is_finite_spec(),
        (Binary64 { bits: ZERO_BITS }).scaled() == 0,
        (Binary64 { bits: ONE_BITS }).is_finite_spec(),
        (Binary64 { bits: ONE_BITS }).scaled() == unit_scale(),
{
    vstd::arithmetic::power2::lemma2_to64_rest();
    vstd::arithmetic::power2::lemma_pow2_adds(52, 1022);
}

/// At a node whose feature is left out a row takes both ways. The weight that goes left is to
/// the whole as the training samples of the left child are to those of the node, and nothing
/// is lost: so it is for every row, whatever the row holds.
pub proof fn law_left_out_rows_part_as_in_training<N: Numerics>(
    num: &N,
    t: TreeModel,
    node: int,
    x: Matrix,
    excluded: Seq<usize>,
    weights: Seq<Binary64>,
    left: Seq<Binary64>,
    right: Seq<Binary64>,
    s: int,
    share: int,
    to_left: int,
    to_right: int,
    unit: int,
    bound: int,
)
    requires
        are_child_weights(num, t, node, x, excluded, weights, left, right),
        excluded.contains(t.split_var[node] as usize),
        computes_exactly(num, unit, bound),
        0 <= s < weights.len(),
        is_exact(weights[s], unit, bound),
        t.node_nvalue[node].is_finite_spec(),
        t.node_nvalue[node].scaled() > 0,
        t.node_nvalue[2 * node + 1].is_finite_spec(),
        share * t.node_nvalue[node].scaled() == t.node_nvalue[2 * node + 1].scaled()
            * unit_scale(),
        to_left * unit_scale() == weights[s].scaled() * share,
        to_right * unit_scale() == weights[s].scaled() * (unit_scale() - share),
        fits_exactly(unit_scale(), unit, bound),
        fits_exactly(share, unit, bound),
        fits_exactly(unit_scale() - share, unit, bound),
        fits_exactly(to_left, unit, bound),
        fits_exactly(to_right, unit, bound),
    ensures
        is_exact(left[s], unit, bound),
        is_exact(right[s], unit, bound),
        left[s].scaled() == to_left,
        right[s].scaled() == to_right,
        left[s].scaled() * t.node_nvalue[node].scaled() == weights[s].scaled()
            * t.node_nvalue[2 * node + 1].scaled(),
        left[s].scaled() + right[s].scaled() == weights[s].scaled(),
{
    let one = unit_scale();
    let all = t.node_nvalue[node];
    let some = t.node_nvalue[2 * node + 1];
    let w = weights[s].scaled();
    lemma_zero_and_one();
    vstd::arithmetic::power2::lemma_pow2_pos(1074);
    let (part, rest) = choose|part: Binary64, rest: Binary64|
        {
            &&& is_left_share(num, t, node, part)
            &&& is_difference(num, Binary64 { bits: ONE_BITS }, part, rest)
            &&& #[trigger] are_shared_weights(num, part, rest, weights, left, right)
        };
    assert((Binary64 { bits: ZERO_BITS }).lt_spec(all));
    assert(call_ensures(N::over, (num, some, all), part));
    assert(part.scaled() == share);
    assert(call_ensures(N::minus, (num, Binary64 { bits: ONE_BITS }, part), rest));
    assert(is_weight_split(num, weights[s], part, rest, left[s], right[s]));
    assert(call_ensures(N::times, (num, weights[s], part), left[s]));
    assert(call_ensures(N::times, (num, weights[s], rest), right[s]));
    let a = all.scaled();
    let b = some.scaled();
    assert(to_left * a == w * b) by (nonlinear_arith)
        requires
            to_left * one == w * share,
            share * a == b * one,
            one > 0,
    ;
    assert(to_left + to_right == w) by (nonlinear_arith)
        requires
            to_left * one == w * share,
            to_right * one == w * (one - share),
            one > 0,
    ;
}

/// At a node whose feature is not left out all of a weight goes one way: left where the value
/// of the row does not exceed the threshold, right where it does or is missing.
pub proof fn law_other_rows_go_one_way<N: Numerics>(
    num: &N,
    t: TreeModel,
    node: int,
    x: Matrix,
    excluded: Seq<usize>,
    weights: Seq<Binary64>,
    left: Seq<Binary64>,
    right: Seq<Binary64>,
    s: int,
    unit: int,
    bound: int,
)
    requires
        are_child_weights(num, t, node, x, excluded, weights, left, right),
        !excluded.contains(t.split_var[node] as usize),
        computes_exactly(num, unit, bound),
        bound >= 0,
        unit > 0,
        0 <= s < weights.len(),
        is_exact(weights[s], unit, bound),
        fits_exactly(unit_scale(), unit, bound),
    ensures
        x.at(s, t.split_var[node] as int).le_spec(t.split_val[node]) ==> {
            &&& left[s].scaled() == weights[s].scaled()
            &&& right[s].scaled() == 0
        },
        !x.at(s, t.split_var[node] as int).le_spec(t.split_val[node]) ==> {
            &&& left[s].scaled() == 0
            &&& right[s].scaled() == weights[s].scaled()
        },
{
    let one = unit_scale();
    let w = weights[s].scaled();
    lemma_zero_and_one();
    assert(is_row_split(num, t, node, x, s, weights[s], left[s], right[s]));
    let indicator = left_indicator(t, node, x, s);
    let rest = choose|rest: Binary64|
        {
            &&& #[trigger] is_difference(num, Binary64 { bits: ONE_BITS }, indicator, rest)
            &&& is_weight_split(num, weights[s], indicator, rest, left[s], right[s])
        };
    assert(fits_exactly(0, unit, bound)) by {
        vstd::arithmetic::div_mod::lemma_small_mod(0, unit as nat);
    }
    assert(fits_exactly(w, unit, bound));
    assert(call_ensures(N::minus, (num, Binary64 { bits: ONE_BITS }, indicator), rest));
    assert(call_ensures(N::times, (num, weights[s], indicator), left[s]));
    assert(call_ensures(N::times, (num, weights[s], rest), right[s]));
    assert(0 * one == w * 0);
}

/// A tree of one split and two stored values, with its feature left out, predicts the values
/// weighted by the training samples on each side: `all * r == left * a + (all - left) * b`.
pub proof fn law_left_out_split_blends_its_leaves<N: Numerics>(
    num: &N,
    t: TreeModel,
    x: Matrix,
    excluded: Seq<usize>,
    r: Matrix,
    o: int,
    s: int,
    share: int,
    from_left: int,
    from_right: int,
    unit: int,
    bound: int,
)
    requires
        is_batch_prediction(num, t, x, excluded, r),
        computes_exactly(num, unit, bound),
        bound >= 0,
        unit > 0,
        t.split_var.len() == 3,
        t.split_var[0] != u32::MAX,
        t.split_var[1] == u32::MAX,
        t.split_var[2] == u32::MAX,
        LeafKind::of_code(t.leaf_kind[1]) == LeafKind::Gaussian,
        LeafKind::of_code(t.leaf_kind[2]) == LeafKind::Gaussian,
        excluded.contains(t.split_var[0] as usize),
        0 <= o < t.n_outputs,
        0 <= s < x.height(),
        t.node_nvalue[0].is_finite_spec(),
        t.node_nvalue[0].scaled() > 0,
        t.node_nvalue[1].is_finite_spec(),
        is_exact(t.leaf_val[t.n_outputs + o], unit, bound),
        is_exact(t.leaf_val[2 * t.n_outputs + o], unit, bound),
        share * t.node_nvalue[0].scaled() == t.node_nvalue[1].scaled() * unit_scale(),
        from_left * unit_scale() == share * t.leaf_val[t.n_outputs + o].scaled(),
        from_right * unit_scale() == (unit_scale() - share) * t.leaf_val[2 * t.n_outputs
            + o].scaled(),
        fits_exactly(unit_scale(), unit, bound),
        fits_exactly(share, unit, bound),
        fits_exactly(unit_scale() - share, unit, bound),
        fits_exactly(from_left, unit, bound),
        fits_exactly(from_right, unit, bound),
        fits_exactly(from_left + from_right, unit, bound),
    ensures
        t.node_nvalue[0].scaled() * r.at(o, s).scaled() == t.node_nvalue[1].scaled()
            * t.leaf_val[t.n_outputs + o].scaled() + (t.node_nvalue[0].scaled()
            - t.node_nvalue[1].scaled()) * t.leaf_val[2 * t.n_outputs + o].scaled(),
{
    let one = unit_scale();
    lemma_zero_and_one();
    vstd::arithmetic::power2::lemma_pow2_pos(1074);
    let weights = unit_weights(x.height());
    let zeros = choose|zeros: Matrix|
        {
            &&& zeros.height() == t.n_outputs
            &&& zeros.width() == x.height()
            &&& forall|o: int, s: int|
                0 <= o < t.n_outputs && 0 <= s < x.height() ==> #[trigger] zeros.at(o, s) == (
                Binary64 { bits: ZERO_BITS })
            &&& #[trigger] is_subtree_added(num, t, 0, weights, x, excluded, zeros, r)
        };
    assert(t.is_internal(0));
    let (left, right, between) = choose|
        left: Seq<Binary64>,
        right: Seq<Binary64>,
        between: Matrix,
    |
        {
            &&& #[trigger] are_child_weights(num, t, 0, x, excluded, weights, left, right)
            &&& #[trigger] between.same_shape(zeros)
            &&& is_subtree_added(num, t, 2, right, x, excluded, zeros, between)
            &&& is_subtree_added(num, t, 1, left, x, excluded, between, r)
        };
    assert(weights[s].scaled() == one);
    assert(share * one == one * share) by (nonlinear_arith);
    assert((one - share) * one == one * (one - share)) by (nonlinear_arith);
    law_left_out_rows_part_as_in_training(
        num,
        t,
        0,
        x,
        excluded,
        weights,
        left,
        right,
        s,
        share,
        share,
        one - share,
        unit,
        bound,
    );
    assert(!t.is_internal(1) && !t.is_internal(2));
    assert(is_leaf_added(num, t, 2, right, x, zeros, between));
    assert(is_leaf_added(num, t, 1, left, x, between, r));
    let a = t.leaf_val[t.n_outputs + o];
    let b = t.leaf_val[2 * t.n_outputs + o];
    assert(1 * t.n_outputs + o == t.n_outputs + o);
    assert(t.value(1, o) == a);
    assert(t.value(2, o) == b);
    let zero = Binary64 { bits: ZERO_BITS };
    assert(zeros.at(o, s) == zero);
    let m = between.at(o, s);
    assert(is_leaf_contribution(num, t, 2, s, o, x, right[s], zero, m));
    assert(is_leaf_contribution(num, t, 1, s, o, x, left[s], m, r.at(o, s)));
    assert(fits_exactly(0, unit, bound)) by {
        vstd::arithmetic::div_mod::lemma_small_mod(0, unit as nat);
    }
    let p = choose|p: Binary64|
        is_product(num, right[s], b, p) && #[trigger] is_sum(num, zero, p, m);
    assert(call_ensures(N::times, (num, right[s], b), p));
    assert(p.scaled() == from_right);
    assert(call_ensures(N::plus, (num, zero, p), m));
    let q = choose|q: Binary64|
        is_product(num, left[s], a, q) && #[trigger] is_sum(num, m, q, r.at(o, s));
    assert(call_ensures(N::times, (num, left[s], a), q));
    assert(q.scaled() == from_left);
    assert(call_ensures(N::plus, (num, m, q), r.at(o, s)));
    let n = t.node_nvalue[0].scaled();
    let k = t.node_nvalue[1].scaled();
    let u = a.scaled();
    let v = b.scaled();
    assert(n * from_left == k * u) by (nonlinear_arith)
        requires
            from_left * one == share * u,
            share * n == k * one,
            one > 0,
    ;
    assert(n * from_right == (n - k) * v) by (nonlinear_arith)
        requires
            from_right * one == (one - share) * v,
            share * n == k * one,
            one > 0,
    ;
    assert(n * (from_left + from_right) == n * from_left + n * from_right) by (nonlinear_arith);
}

} // verus!
