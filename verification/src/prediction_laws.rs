//! What can be asked of every tree that was grown on its training rows.
use crate::binary64::{Binary64, ONE_BITS, ZERO_BITS};
use crate::matrix::Matrix;
use crate::numerics::{
    is_determined, is_difference, is_line, is_product, is_sum, obeys_units, Numerics,
};
use crate::predict::{
    are_child_weights, are_shared_weights, is_batch_prediction, is_leaf_contribution,
    is_left_share, is_row_split, is_subtree_added,
    is_training_prediction, is_training_value, is_weight_split, is_weighted_sum, left_indicator,
    unit_weights,
};
use crate::response::LeafKind;
use crate::routing::{grown_on, law_grown_tree_is_assigned, law_routes_agree, test_route};
use crate::smc::is_blank;
use crate::tree_model::TreeModel;
use vstd::prelude::*;

verus! {

/// A tree grown on its training rows predicts each of them.
pub proof fn law_grown_tree_predicts_training(t: TreeModel, x: Matrix, rows: nat)
    requires
        grown_on(t, x),
        rows <= t.n_outputs,
    ensures
        forall|s: int|
            0 <= s < t.leaf_indices.len() ==> t.training_readable(
                #[trigger] t.leaf_indices[s] as int,
                s,
                rows,
                Some(&x),
            ),
{
    law_grown_tree_is_assigned(t, x);
    assert forall|s: int| 0 <= s < t.leaf_indices.len() implies t.training_readable(
        #[trigger] t.leaf_indices[s] as int,
        s,
        rows,
        Some(&x),
    ) by {
        let leaf = t.leaf_indices[s] as int;
        assert(t.is_leaf(leaf));
        let n = t.n_outputs as int;
        assert(leaf * n + n <= t.len() * n) by (nonlinear_arith)
            requires
                leaf + 1 <= t.len(),
                n >= 1,
        ;
        assert(t.line_readable(leaf, x.width()));
    }
}

/// A tree grown on its training rows predicts any row with as many features, whichever
/// features are left out.
pub proof fn law_grown_tree_predicts(t: TreeModel, x: Matrix, excluded: Seq<usize>, node: int)
    requires
        grown_on(t, x),
        0 <= node < t.len(),
    ensures
        t.subtree_readable(node, x.width(), excluded),
    decreases t.nodes_from(node),
{
    if t.is_internal(node) {
        assert(2 * node + 2 < t.len());
        law_grown_tree_predicts(t, x, excluded, 2 * node + 1);
        law_grown_tree_predicts(t, x, excluded, 2 * node + 2);
    } else {
        assert(t.line_readable(node, x.width()));
    }
}

/// `a` and `b` denote the same number.
#[verifier::opaque]
spec fn same(a: Binary64, b: Binary64) -> bool {
    a.same_number_spec(b)
}

spec fn zero() -> Binary64 {
    Binary64 { bits: ZERO_BITS }
}

spec fn one() -> Binary64 {
    Binary64 { bits: ONE_BITS }
}

/// What the laws of zero and one say, in terms of `same`.
#[verifier::opaque]
spec fn units<N: Numerics>(num: &N) -> bool {
    &&& forall|a: Binary64, r: Binary64|
        !a.is_nan_spec() && #[trigger] is_product(num, one(), a, r) ==> r == a
    &&& forall|z: Binary64, a: Binary64, r: Binary64|
        same(z, zero()) && a.is_finite_spec() && #[trigger] is_product(num, z, a, r) ==> same(
            r,
            zero(),
        )
    &&& forall|z: Binary64, a: Binary64, r: Binary64|
        same(z, zero()) && !a.is_nan_spec() && #[trigger] is_sum(num, z, a, r) ==> same(r, a)
    &&& forall|z: Binary64, a: Binary64, r: Binary64|
        same(z, zero()) && !a.is_nan_spec() && #[trigger] is_sum(num, a, z, r) ==> same(r, a)
    &&& forall|r: Binary64| #[trigger] is_difference(num, one(), one(), r) ==> same(r, zero())
    &&& forall|r: Binary64| #[trigger] is_difference(num, one(), zero(), r) ==> r == one()
}

proof fn lemma_units<N: Numerics>(num: &N)
    requires
        obeys_units(num),
    ensures
        units(num),
{
    reveal(same);
    reveal(units);
}

proof fn lemma_same(a: Binary64, b: Binary64, c: Binary64)
    ensures
        same(a, b) ==> same(b, a) && !a.is_nan_spec() && !b.is_nan_spec(),
        same(a, b) && same(b, c) ==> same(a, c),
        !a.is_nan_spec() ==> same(a, a),
        same(a, zero()) ==> a.is_finite_spec(),
        same(zero(), zero()),
        !zero().is_nan_spec(),
        zero().is_finite_spec(),
        !one().is_nan_spec(),
        one().is_finite_spec(),
        a.is_finite_spec() ==> !a.is_nan_spec(),
{
    reveal(same);
    a.lemma_zero_has_no_magnitude();
    zero().lemma_zero_has_no_magnitude();
}

/// What becomes of the weight of a row at a split: all of it goes to one side.
proof fn lemma_row_split<N: Numerics>(
    num: &N,
    t: TreeModel,
    node: int,
    x: Matrix,
    s: int,
    weight: Binary64,
    left: Binary64,
    right: Binary64,
)
    requires
        units(num),
        is_row_split(num, t, node, x, s, weight, left, right),
        weight == one() || same(weight, zero()),
    ensures
        same(weight, zero()) ==> same(left, zero()) && same(right, zero()),
        weight == one() ==> if x.at(s, t.split_var[node] as int).le_spec(t.split_val[node]) {
            left == one() && same(right, zero())
        } else {
            same(left, zero()) && right == one()
        },
{
    reveal(units);
    let indicator = left_indicator(t, node, x, s);
    let rest = choose|rest: Binary64|
        {
            &&& #[trigger] is_difference(num, Binary64 { bits: ONE_BITS }, indicator, rest)
            &&& is_weight_split(num, weight, indicator, rest, left, right)
        };
    lemma_same(rest, zero(), zero());
    lemma_same(weight, zero(), zero());
    assert(is_difference(num, one(), indicator, rest));
    assert(is_product(num, weight, indicator, left));
    assert(is_product(num, weight, rest, right));
    if indicator == one() {
        assert(same(rest, zero()));
    } else {
        assert(indicator == zero());
        assert(rest == one());
    }
}

/// `c` is what leaf `leaf` alone predicts as output `o` of row `s` of `x`: the stored value,
/// or the point of its line, or zero where the feature is missing or there is no line.
pub open spec fn is_leaf_answer<N: Numerics>(
    num: &N,
    t: TreeModel,
    leaf: int,
    s: int,
    o: int,
    x: Matrix,
    c: Binary64,
) -> bool {
    if t.kind(leaf) == LeafKind::Gaussian {
        c == t.value(leaf, o)
    } else if t.has_line(leaf) && !x.at(s, t.line_var(leaf)).is_nan_spec() {
        is_line(
            num,
            t.line_intercept(leaf, o),
            t.line_slope(leaf, o),
            x.at(s, t.line_var(leaf)),
            c,
        )
    } else {
        c == (Binary64 { bits: ZERO_BITS })
    }
}

/// Whatever a leaf predicts for a row of `x` is finite.
pub open spec fn answers_are_finite<N: Numerics>(num: &N, t: TreeModel, x: Matrix) -> bool {
    forall|leaf: int, s: int, o: int, c: Binary64|
        t.is_leaf(leaf) && 0 <= s < x.height() && 0 <= o < t.n_outputs && #[trigger] is_leaf_answer(
            num,
            t,
            leaf,
            s,
            o,
            x,
            c,
        ) ==> c.is_finite_spec()
}

/// A number is what the leaf of a row predicts.
spec fn is_answer_of<N: Numerics>(
    num: &N,
    t: TreeModel,
    leaf: int,
    s: int,
    o: int,
    x: Matrix,
    a: Binary64,
) -> bool {
    exists|c: Binary64| #[trigger] is_leaf_answer(num, t, leaf, s, o, x, c) && same(a, c)
}

/// What one leaf adds.
proof fn lemma_leaf_adds_answer<N: Numerics>(
    num: &N,
    t: TreeModel,
    leaf: int,
    s: int,
    o: int,
    x: Matrix,
    weight: Binary64,
    b: Binary64,
    a: Binary64,
)
    requires
        units(num),
        answers_are_finite(num, t, x),
        t.is_leaf(leaf),
        0 <= s < x.height(),
        0 <= o < t.n_outputs,
        is_leaf_contribution(num, t, leaf, s, o, x, weight, b, a),
        weight == one() || same(weight, zero()),
        weight == one() ==> same(b, zero()),
        !b.is_nan_spec(),
    ensures
        !a.is_nan_spec(),
        weight == one() ==> is_answer_of(num, t, leaf, s, o, x, a),
        same(weight, zero()) ==> same(a, b),
{
    lemma_one_is_not_zero();
    lemma_same(b, zero(), zero());
    lemma_same(b, b, b);
    if t.kind(leaf) != LeafKind::Gaussian && !t.has_line(leaf) {
        assert(is_leaf_answer(num, t, leaf, s, o, x, zero()));
    } else {
        let v = x.at(s, t.line_var(leaf));
        let c = if t.kind(leaf) == LeafKind::Gaussian {
            t.value(leaf, o)
        } else if v.is_nan_spec() {
            zero()
        } else {
            choose|c: Binary64|
                is_line(num, t.line_intercept(leaf, o), t.line_slope(leaf, o), v, c)
                    && #[trigger] is_weighted_sum(num, b, weight, c, a)
        };
        assert(is_leaf_answer(num, t, leaf, s, o, x, c));
        assert(is_weighted_sum(num, b, weight, c, a));
        let p = choose|p: Binary64|
            is_product(num, weight, c, p) && #[trigger] is_sum(num, b, p, a);
        reveal(units);
        lemma_same(c, c, c);
        lemma_same(p, zero(), zero());
        lemma_same(a, b, zero());
        lemma_same(a, c, c);
    }
}

/// What a subtree adds for one row and output: what the leaf of the row predicts where the
/// row reaches it with weight one, nothing where it does not reach it.
proof fn lemma_subtree_adds_answer<N: Numerics>(
    num: &N,
    t: TreeModel,
    node: int,
    weights: Seq<Binary64>,
    x: Matrix,
    before: Matrix,
    after: Matrix,
    o: int,
    s: int,
)
    requires
        units(num),
        t.complete(),
        answers_are_finite(num, t, x),
        0 <= node < t.len(),
        is_subtree_added(num, t, node, weights, x, Seq::empty(), before, after),
        0 <= o < before.height(),
        before.height() <= t.n_outputs,
        before.width() == x.height(),
        0 <= s < before.width(),
        weights.len() == before.width(),
        weights[s] == one() || same(weights[s], zero()),
        weights[s] == one() ==> same(before.at(o, s), zero()),
        !before.at(o, s).is_nan_spec(),
    ensures
        after.same_shape(before),
        !after.at(o, s).is_nan_spec(),
        weights[s] == one() ==> is_answer_of(
            num,
            t,
            test_route(t, x, s, node),
            s,
            o,
            x,
            after.at(o, s),
        ),
        same(weights[s], zero()) ==> same(after.at(o, s), before.at(o, s)),
    decreases t.nodes_from(node),
{
    let excluded = Seq::<usize>::empty();
    if t.is_internal(node) {
        let (left, right, between) = choose|
            left: Seq<Binary64>,
            right: Seq<Binary64>,
            between: Matrix,
        |
            {
                &&& #[trigger] are_child_weights(num, t, node, x, excluded, weights, left, right)
                &&& #[trigger] between.same_shape(before)
                &&& is_subtree_added(num, t, 2 * node + 2, right, x, excluded, before, between)
                &&& is_subtree_added(num, t, 2 * node + 1, left, x, excluded, between, after)
            };
        assert(is_row_split(num, t, node, x, s, weights[s], left[s], right[s]));
        lemma_row_split(num, t, node, x, s, weights[s], left[s], right[s]);
        lemma_one_is_not_zero();
        let b = before.at(o, s);
        lemma_subtree_adds_answer(num, t, 2 * node + 2, right, x, before, between, o, s);
        let m = between.at(o, s);
        lemma_same(m, b, zero());
        lemma_subtree_adds_answer(num, t, 2 * node + 1, left, x, between, after, o, s);
        let a = after.at(o, s);
        lemma_same(a, m, b);
        if weights[s] == one() && right[s] == one() {
            let leaf = test_route(t, x, s, 2 * node + 2);
            let c = choose|c: Binary64| #[trigger]
                is_leaf_answer(num, t, leaf, s, o, x, c) && same(m, c);
            lemma_same(a, m, c);
        }
    } else {
        assert(t.is_leaf(node));
        assert(is_leaf_contribution(
            num,
            t,
            node,
            s,
            o,
            x,
            weights[s],
            before.at(o, s),
            after.at(o, s),
        ));
        lemma_leaf_adds_answer(
            num,
            t,
            node,
            s,
            o,
            x,
            weights[s],
            before.at(o, s),
            after.at(o, s),
        );
    }
}

proof fn lemma_one_is_not_zero()
    ensures
        !same(one(), zero()),
{
    reveal(same);
    one().lemma_zero_has_no_magnitude();
    zero().lemma_zero_has_no_magnitude();
}

/// A tree predicts for a row what the leaf predicts where the row's route ends, as long as
/// all that leaves predict is finite: the other leaves add nothing.
pub proof fn law_prediction_is_leaf_answer<N: Numerics>(
    num: &N,
    t: TreeModel,
    x: Matrix,
    r: Matrix,
    o: int,
    s: int,
)
    requires
        obeys_units(num),
        t.wf(),
        answers_are_finite(num, t, x),
        is_batch_prediction(num, t, x, Seq::empty(), r),
        0 <= o < t.n_outputs,
        0 <= s < x.height(),
    ensures
        exists|c: Binary64| #[trigger]
            is_leaf_answer(num, t, test_route(t, x, s, 0), s, o, x, c) && r.at(
                o,
                s,
            ).same_number_spec(c),
{
    lemma_units(num);
    let zeros = choose|zeros: Matrix|
        {
            &&& zeros.height() == t.n_outputs
            &&& zeros.width() == x.height()
            &&& forall|o: int, s: int|
                0 <= o < t.n_outputs && 0 <= s < x.height() ==> #[trigger] zeros.at(o, s) == (
                Binary64 { bits: ZERO_BITS })
            &&& #[trigger] is_subtree_added(
                num,
                t,
                0,
                unit_weights(x.height()),
                x,
                Seq::empty(),
                zeros,
                r,
            )
        };
    assert(zeros.at(o, s) == zero());
    lemma_same(zero(), zero(), zero());
    lemma_subtree_adds_answer(num, t, 0, unit_weights(x.height()), x, zeros, r, o, s);
    reveal(same);
}

/// For a training row without missing values, predicting it as a new row gives what the
/// tree predicts for it as a training sample, where sums and products have one result.
pub proof fn law_predictions_agree<N: Numerics>(
    num: &N,
    t: TreeModel,
    x: Matrix,
    before: Matrix,
    training: Matrix,
    batch: Matrix,
    o: int,
    s: int,
)
    requires
        obeys_units(num),
        is_determined(num),
        grown_on(t, x),
        answers_are_finite(num, t, x),
        forall|j: int| 0 <= j < x.width() ==> !(#[trigger] x.at(s, j)).is_nan_spec(),
        forall|i: int| #[trigger] t.is_internal(i) ==> !t.split_val[i].is_nan_spec(),
        is_blank(before, t.n_outputs, x.height()),
        is_training_prediction(num, t, Some(&x), before, training),
        is_batch_prediction(num, t, x, Seq::empty(), batch),
        0 <= o < t.n_outputs,
        0 <= s < x.height(),
    ensures
        batch.at(o, s).same_number_spec(training.at(o, s)),
{
    law_prediction_is_leaf_answer(num, t, x, batch, o, s);
    law_routes_agree(t, x, s, 0);
    law_grown_tree_is_assigned(t, x);
    let leaf = t.leaf_indices[s] as int;
    assert(leaf == test_route(t, x, s, 0));
    assert(t.is_leaf(leaf));
    let c = choose|c: Binary64| #[trigger]
        is_leaf_answer(num, t, leaf, s, o, x, c) && batch.at(o, s).same_number_spec(c);
    assert(is_training_value(
        num,
        t,
        leaf,
        s,
        o,
        Some(&x),
        before.at(o, s),
        training.at(o, s),
    ));
    if t.kind(leaf) != LeafKind::Gaussian && t.has_line(leaf) {
        assert(t.linear_var[t.leaf_param_idx[leaf] as int] < x.width());
        assert(!x.at(s, t.line_var(leaf)).is_nan_spec());
        lemma_one_line(
            num,
            t.line_intercept(leaf, o),
            t.line_slope(leaf, o),
            x.at(s, t.line_var(leaf)),
            c,
            training.at(o, s),
        );
    }
    assert(training.at(o, s) == c);
}

/// A line has one value at each place where sums and products have one result.
pub proof fn lemma_one_line<N: Numerics>(
    num: &N,
    intercept: Binary64,
    slope: Binary64,
    v: Binary64,
    a: Binary64,
    b: Binary64,
)
    requires
        is_determined(num),
        is_line(num, intercept, slope, v, a),
        is_line(num, intercept, slope, v, b),
    ensures
        a == b,
{
    let p = choose|p: Binary64|
        is_product(num, slope, v, p) && #[trigger] is_sum(num, intercept, p, a);
    let q = choose|q: Binary64|
        is_product(num, slope, v, q) && #[trigger] is_sum(num, intercept, q, b);
    assert(p == q);
}

/// Every variable that a tree splits on is excluded.
pub open spec fn excludes_all(t: TreeModel, excluded: Seq<usize>) -> bool {
    forall|i: int| #[trigger] t.is_internal(i) ==> excluded.contains(t.split_var[i] as usize)
}

/// Every leaf predicts stored values.
pub open spec fn has_only_values(t: TreeModel) -> bool {
    forall|i: int| #[trigger] t.is_leaf(i) ==> t.kind(i) == LeafKind::Gaussian
}

/// Where all variables are excluded, a weight is parted in one way.
proof fn lemma_excluded_weights<N: Numerics>(
    num: &N,
    t: TreeModel,
    node: int,
    excluded: Seq<usize>,
    x: Matrix,
    weights: Seq<Binary64>,
    left: Seq<Binary64>,
    right: Seq<Binary64>,
    s: int,
    y: Matrix,
    other_weights: Seq<Binary64>,
    other_left: Seq<Binary64>,
    other_right: Seq<Binary64>,
    u: int,
)
    requires
        is_determined(num),
        excluded.contains(t.split_var[node] as usize),
        are_child_weights(num, t, node, x, excluded, weights, left, right),
        are_child_weights(num, t, node, y, excluded, other_weights, other_left, other_right),
        0 <= s < weights.len(),
        0 <= u < other_weights.len(),
        weights[s] == other_weights[u],
    ensures
        left[s] == other_left[u],
        right[s] == other_right[u],
{
    let one = Binary64 { bits: ONE_BITS };
    let (share, rest) = choose|share: Binary64, rest: Binary64|
        {
            &&& is_left_share(num, t, node, share)
            &&& is_difference(num, one, share, rest)
            &&& #[trigger] are_shared_weights(num, share, rest, weights, left, right)
        };
    let (other_share, other_rest) = choose|share: Binary64, rest: Binary64|
        {
            &&& is_left_share(num, t, node, share)
            &&& is_difference(num, one, share, rest)
            &&& #[trigger] are_shared_weights(
                num,
                share,
                rest,
                other_weights,
                other_left,
                other_right,
            )
        };
    assert(share == other_share);
    assert(rest == other_rest);
    assert(is_weight_split(num, weights[s], share, rest, left[s], right[s]));
    assert(is_weight_split(
        num,
        other_weights[u],
        share,
        rest,
        other_left[u],
        other_right[u],
    ));
}

/// What a subtree adds for two rows that reach it with the same weight.
proof fn lemma_excluded_subtree<N: Numerics>(
    num: &N,
    t: TreeModel,
    node: int,
    excluded: Seq<usize>,
    o: int,
    x: Matrix,
    weights: Seq<Binary64>,
    before: Matrix,
    after: Matrix,
    s: int,
    y: Matrix,
    other_weights: Seq<Binary64>,
    other_before: Matrix,
    other_after: Matrix,
    u: int,
)
    requires
        is_determined(num),
        t.complete(),
        excludes_all(t, excluded),
        has_only_values(t),
        0 <= node < t.len(),
        is_subtree_added(num, t, node, weights, x, excluded, before, after),
        is_subtree_added(num, t, node, other_weights, y, excluded, other_before, other_after),
        0 <= o < before.height(),
        0 <= o < other_before.height(),
        0 <= s < before.width(),
        0 <= u < other_before.width(),
        weights.len() == before.width(),
        other_weights.len() == other_before.width(),
        weights[s] == other_weights[u],
        before.at(o, s) == other_before.at(o, u),
    ensures
        after.same_shape(before),
        other_after.same_shape(other_before),
        after.at(o, s) == other_after.at(o, u),
    decreases t.nodes_from(node),
{
    if t.is_internal(node) {
        let (left, right, between) = choose|
            left: Seq<Binary64>,
            right: Seq<Binary64>,
            between: Matrix,
        |
            {
                &&& #[trigger] are_child_weights(num, t, node, x, excluded, weights, left, right)
                &&& #[trigger] between.same_shape(before)
                &&& is_subtree_added(num, t, 2 * node + 2, right, x, excluded, before, between)
                &&& is_subtree_added(num, t, 2 * node + 1, left, x, excluded, between, after)
            };
        let (other_left, other_right, other_between) = choose|
            left: Seq<Binary64>,
            right: Seq<Binary64>,
            between: Matrix,
        |
            {
                &&& #[trigger] are_child_weights(
                    num,
                    t,
                    node,
                    y,
                    excluded,
                    other_weights,
                    left,
                    right,
                )
                &&& #[trigger] between.same_shape(other_before)
                &&& is_subtree_added(
                    num,
                    t,
                    2 * node + 2,
                    right,
                    y,
                    excluded,
                    other_before,
                    between,
                )
                &&& is_subtree_added(
                    num,
                    t,
                    2 * node + 1,
                    left,
                    y,
                    excluded,
                    between,
                    other_after,
                )
            };
        lemma_excluded_weights(
            num,
            t,
            node,
            excluded,
            x,
            weights,
            left,
            right,
            s,
            y,
            other_weights,
            other_left,
            other_right,
            u,
        );
        lemma_excluded_subtree(
            num,
            t,
            2 * node + 2,
            excluded,
            o,
            x,
            right,
            before,
            between,
            s,
            y,
            other_right,
            other_before,
            other_between,
            u,
        );
        lemma_excluded_subtree(
            num,
            t,
            2 * node + 1,
            excluded,
            o,
            x,
            left,
            between,
            after,
            s,
            y,
            other_left,
            other_between,
            other_after,
            u,
        );
    } else {
        assert(t.is_leaf(node));
        let v = t.value(node, o);
        let b = before.at(o, s);
        let w = weights[s];
        assert(is_leaf_contribution(num, t, node, s, o, x, w, b, after.at(o, s)));
        assert(is_leaf_contribution(num, t, node, u, o, y, w, b, other_after.at(o, u)));
        let p = choose|p: Binary64|
            is_product(num, w, v, p) && #[trigger] is_sum(num, b, p, after.at(o, s));
        let q = choose|q: Binary64|
            is_product(num, w, v, q) && #[trigger] is_sum(num, b, q, other_after.at(o, u));
        assert(p == q);
    }
}

/// With all its split variables excluded, a tree of stored values predicts the same for
/// every row of any data.
pub proof fn law_excluded_rows_are_alike<N: Numerics>(
    num: &N,
    t: TreeModel,
    excluded: Seq<usize>,
    x: Matrix,
    r: Matrix,
    y: Matrix,
    q: Matrix,
    o: int,
    s: int,
    u: int,
)
    requires
        is_determined(num),
        t.wf(),
        excludes_all(t, excluded),
        has_only_values(t),
        is_batch_prediction(num, t, x, excluded, r),
        is_batch_prediction(num, t, y, excluded, q),
        0 <= o < t.n_outputs,
        0 <= s < x.height(),
        0 <= u < y.height(),
    ensures
        r.at(o, s) == q.at(o, u),
{
    let zeros = choose|zeros: Matrix|
        {
            &&& zeros.height() == t.n_outputs
            &&& zeros.width() == x.height()
            &&& forall|o: int, s: int|
                0 <= o < t.n_outputs && 0 <= s < x.height() ==> #[trigger] zeros.at(o, s) == (
                Binary64 { bits: ZERO_BITS })
            &&& #[trigger] is_subtree_added(
                num,
                t,
                0,
                unit_weights(x.height()),
                x,
                excluded,
                zeros,
                r,
            )
        };
    let other_zeros = choose|zeros: Matrix|
        {
            &&& zeros.height() == t.n_outputs
            &&& zeros.width() == y.height()
            &&& forall|o: int, s: int|
                0 <= o < t.n_outputs && 0 <= s < y.height() ==> #[trigger] zeros.at(o, s) == (
                Binary64 { bits: ZERO_BITS })
            &&& #[trigger] is_subtree_added(
                num,
                t,
                0,
                unit_weights(y.height()),
                y,
                excluded,
                zeros,
                q,
            )
        };
    assert(zeros.at(o, s) == other_zeros.at(o, u));
    lemma_excluded_subtree(
        num,
        t,
        0,
        excluded,
        o,
        x,
        unit_weights(x.height()),
        zeros,
        r,
        s,
        y,
        unit_weights(y.height()),
        other_zeros,
        q,
        u,
    );
}

} // verus!
