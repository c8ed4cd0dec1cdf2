//! What the standard deviations of the leaves follow while a sampler is tuning.
use crate::binary64::{count_number, Binary64};
use crate::growth_laws::{answers, law_training_predictions_are_answers};
use crate::kernel::{batch_size_of, turn, BartKernel};
use crate::kernel_laws::{
    choose_batch, law_batch_keeps_other_trees, law_batch_size, lemma_batch_trees_stay,
};
use crate::leaf_laws::{
    computes_exactly, fits_exactly, is_exact, lemma_over_count, unit_scale,
};
use crate::line_laws::sum_of;
use crate::matrix::{is_matrix_difference, Matrix};
use crate::numerics::{is_difference, is_product, is_quotient, is_root, is_sum, Numerics};
use crate::predict::is_training_prediction;
use crate::resampling::ResamplingStrategy;
use crate::response::ResponseStrategies;
use crate::running_sd::{
    are_deviations, is_mean_deviation, is_sd_update, is_welford_step, RunningSd,
};
use crate::smc::SmcStepInfo;
use crate::splitting::SplitRule;
use crate::state::{BartInfo, StateModel};
use crate::tree_model::TreeModel;
use crate::weight::WeightFn;
use rand::rngs::SmallRng;
use vstd::prelude::*;

verus! {

/// What happens to the running moments as the trees of a batch are replaced: the moments
/// before the first and after each, what each new tree answers on the training samples, and
/// the mean deviations that come of it.
pub struct TuningRecord {
    pub moments: Seq<RunningSd>,
    pub answered: Seq<Matrix>,
    pub deviations: Seq<Seq<Binary64>>,
}

impl TuningRecord {
    /// The moments go from `from` to `to` by bringing in one array after the other.
    pub open spec fn is_path<N: Numerics>(self, num: &N, from: RunningSd, to: RunningSd) -> bool {
        &&& self.moments.len() == self.answered.len() + 1
        &&& self.deviations.len() == self.answered.len()
        &&& self.moments[0] == from
        &&& self.moments.last() == to
        &&& forall|j: int|
            0 <= j < self.answered.len() ==> is_sd_update(
                num,
                self.moments[j],
                #[trigger] self.answered[j],
                self.moments[j + 1],
                self.deviations[j],
            )
    }

    /// Each array holds what its tree alone answers on the training samples.
    pub open spec fn are_answers_of<N: Numerics>(
        self,
        num: &N,
        trees: Seq<TreeModel>,
        x: Matrix,
        rows: nat,
    ) -> bool {
        &&& self.answered.len() == trees.len()
        &&& forall|j: int, o: int, s: int|
            0 <= j < trees.len() && 0 <= o < rows && 0 <= s < x.height() ==> answers(
                num,
                trees[j],
                x,
                o,
                s,
                #[trigger] self.answered[j].at(o, s),
            )
    }
}

/// What a batch does to the running moments while tuning: they take in what each new tree
/// alone answers on the training samples, tree after tree. Once more than two trees have been
/// replaced in all, the standard deviations of the leaves are the ones that the last update
/// gives. Until then they stay as they are.
pub proof fn law_tuning_follows_new_trees<
    N: Numerics,
    S: SplitRule,
    R: ResamplingStrategy,
    W: WeightFn,
>(
    kernel: &BartKernel<N, S, R, W>,
    from: SmallRng,
    response: ResponseStrategies,
    start: StateModel,
    k: nat,
    state: StateModel,
    pred: Matrix,
    infos: Seq<SmcStepInfo>,
    trees: Seq<TreeModel>,
    to: SmallRng,
) -> (r: TuningRecord)
    requires
        start.tune,
        kernel.is_batch(from, response, start, k, state, pred, infos, trees, to),
    ensures
        state.tune,
        state.iter == start.iter + k,
        pred.height() == kernel.config.n_outputs,
        pred.width() == kernel.data.x.height(),
        trees.len() == k,
        r.is_path(&kernel.num, start.running_sd, state.running_sd),
        r.are_answers_of(
            &kernel.num,
            trees,
            kernel.data.x,
            kernel.config.n_outputs as nat,
        ),
        k > 0 && state.iter > 2 ==> state.leaf_sd@ == r.deviations.last(),
        k == 0 || state.iter <= 2 ==> state.leaf_sd == start.leaf_sd,
    decreases k,
{
    let num = &kernel.num;
    let x = kernel.data.x;
    let rows = kernel.config.n_outputs as nat;
    if k == 0 {
        let r = TuningRecord {
            moments: seq![start.running_sd],
            answered: Seq::empty(),
            deviations: Seq::empty(),
        };
        r
    } else {
        let idx = turn(start.next_tree_idx as int, k - 1, kernel.config.n_trees as int);
        let (before, before_pred, between) = choose|
            before: StateModel,
            before_pred: Matrix,
            between: SmallRng,
        |
            {
                &&& #[trigger] kernel.is_tree_step(
                    between,
                    response,
                    before,
                    before_pred,
                    idx,
                    state,
                    pred,
                    infos.last(),
                    to,
                )
                &&& kernel.is_batch_after(
                    from,
                    response,
                    start,
                    (k - 1) as nat,
                    before,
                    before_pred,
                    infos.drop_last(),
                    trees.drop_last(),
                    between,
                )
            };
        let q = law_tuning_follows_new_trees(
            kernel,
            from,
            response,
            start,
            (k - 1) as nat,
            before,
            before_pred,
            infos.drop_last(),
            trees.drop_last(),
            between,
        );
        let (old_pred, others) = choose|old_pred: Matrix, others: Matrix|
            {
                &&& #[trigger] is_training_prediction(
                    num,
                    before.forest[idx],
                    Some(&x),
                    before_pred,
                    old_pred,
                )
                &&& #[trigger] is_matrix_difference(num, before.predictions, old_pred, others)
                &&& is_training_prediction(num, state.forest[idx], Some(&x), old_pred, pred)
                &&& kernel.is_tuned(before, pred, state)
                &&& state.iter == before.iter + 1
                &&& state.tune == before.tune
            };
        let sd = choose|sd: Vec<Binary64>|
            {
                &&& #[trigger] is_sd_update(
                    num,
                    before.running_sd,
                    pred,
                    state.running_sd,
                    sd@,
                )
                &&& state.leaf_sd == if state.iter > 2 {
                    sd
                } else {
                    before.leaf_sd
                }
            };
        let r = TuningRecord {
            moments: q.moments.push(state.running_sd),
            answered: q.answered.push(pred),
            deviations: q.deviations.push(sd@),
        };
        assert forall|j: int| 0 <= j < r.answered.len() implies is_sd_update(
            num,
            r.moments[j],
            #[trigger] r.answered[j],
            r.moments[j + 1],
            r.deviations[j],
        ) by {
            if j < q.answered.len() {
                assert(r.answered[j] == q.answered[j]);
            }
        }
        assert forall|j: int, o: int, s: int|
            0 <= j < trees.len() && 0 <= o < rows && 0 <= s < x.height() implies answers(
            num,
            trees[j],
            x,
            o,
            s,
            #[trigger] r.answered[j].at(o, s),
        ) by {
            if j < q.answered.len() {
                assert(trees[j] == trees.drop_last()[j]);
                assert(r.answered[j].at(o, s) == q.answered[j].at(o, s));
            } else {
                assert(trees[j] == state.forest[idx]);
                law_training_predictions_are_answers(
                    num,
                    state.forest[idx],
                    x,
                    old_pred,
                    pred,
                    o,
                    s,
                );
            }
        }
        r
    }
}

/// `r` is a standard deviation: what the host answers to the root of its answer to `m2` over
/// the count.
pub open spec fn is_sd_of<N: Numerics>(num: &N, m2: Binary64, count: nat, r: Binary64) -> bool {
    exists|variance: Binary64|
        {
            &&& call_ensures(N::over, (num, m2, count_number(count)), variance)
            &&& #[trigger] call_ensures(N::sqrt, (num, variance), r)
        }
}

/// `r` is the mean over the samples of the standard deviations of output `o`.
pub open spec fn is_mean_sd<N: Numerics>(
    num: &N,
    m2: Matrix,
    o: int,
    count: nat,
    r: Binary64,
) -> bool {
    exists|row: &Vec<Binary64>|
        {
            &&& #[trigger] call_ensures(N::mean, (num, row), r)
            &&& row@.len() == m2.width()
            &&& forall|s: int|
                0 <= s < row@.len() ==> is_sd_of(num, m2.at(o, s), count, #[trigger] row@[s])
        }
}

proof fn lemma_mean_deviation<N: Numerics>(
    num: &N,
    m2: Matrix,
    o: int,
    count: nat,
    r: Binary64,
)
    requires
        is_mean_deviation(num, m2, o, count, r),
    ensures
        is_mean_sd(num, m2, o, count, r),
{
    let row = choose|row: Seq<Binary64>| #[trigger]
        are_deviations(num, m2, o, count, row) && crate::numerics::is_mean(num, row, r);
    let v = choose|v: &Vec<Binary64>|
        v@ == row && #[trigger] call_ensures(N::mean, (num, v), r);
    assert forall|s: int| 0 <= s < v@.len() implies is_sd_of(
        num,
        m2.at(o, s),
        count,
        #[trigger] v@[s],
    ) by {
        let d = row[s];
        let variance = choose|variance: Binary64|
            is_quotient(num, m2.at(o, s), count_number(count), variance) && #[trigger] is_root(
                num,
                variance,
                d,
            );
        assert(call_ensures(N::sqrt, (num, variance), d));
    }
}

/// A step of a sampler that is tuning.
pub proof fn law_tuning_step<N: Numerics, S: SplitRule, R: ResamplingStrategy, W: WeightFn>(
    kernel: &BartKernel<N, S, R, W>,
    from: SmallRng,
    before: StateModel,
    after: StateModel,
    info: BartInfo,
    to: SmallRng,
) -> (r: TuningRecord)
    requires
        before.tune,
        before.forest.len() == kernel.config.n_trees,
        kernel.config.n_trees >= 1,
        before.running_sd.wf(kernel.data.x.height()),
        before.running_sd.shape == kernel.config.n_outputs,
        kernel.is_step(from, before, after, info, to),
    ensures
        info.batch_size >= 1,
        after.iter == before.iter + info.batch_size,
        after.running_sd.count == before.running_sd.count + info.batch_size,
        r.is_path(&kernel.num, before.running_sd, after.running_sd),
        r.are_answers_of(
            &kernel.num,
            Seq::new(
                info.batch_size as nat,
                |j: int| after.forest[(before.next_tree_idx + j) % (kernel.config.n_trees as int)],
            ),
            kernel.data.x,
            kernel.config.n_outputs as nat,
        ),
        after.iter > 2 ==> {
            &&& after.leaf_sd@.len() == kernel.config.n_outputs
            &&& forall|o: int|
                0 <= o < kernel.config.n_outputs ==> is_mean_sd(
                    &kernel.num,
                    after.running_sd.m2,
                    o,
                    after.running_sd.count as nat,
                    #[trigger] after.leaf_sd@[o],
                )
        },
        after.iter <= 2 ==> after.leaf_sd == before.leaf_sd,
{
    let n = kernel.config.n_trees as int;
    let (response, done, pred, infos, trees) = choose_batch(kernel, from, before, after, info, to);
    let k = info.batch_size as nat;
    law_batch_keeps_other_trees(kernel, from, response, before, k, done, pred, infos, trees, to);
    let part = choose|part: Binary64|
        {
            &&& #[trigger] is_product(
                &kernel.num,
                kernel.batch_fraction(before.tune),
                count_number(n as nat),
                part,
            )
            &&& k == batch_size_of(part, n)
        };
    law_batch_size(part, n);
    let placed = Seq::new(k, |j: int| after.forest[(before.next_tree_idx + j) % n]);
    assert forall|j: int| 0 <= j < k implies placed[j] == trees[j] by {
        lemma_batch_trees_stay(kernel, from, response, before, k, done, pred, infos, trees, to, j);
    }
    assert(placed =~= trees);
    let r = law_tuning_follows_new_trees(
        kernel,
        from,
        response,
        before,
        k,
        done,
        pred,
        infos,
        trees,
        to,
    );
    lemma_path_counts(&kernel.num, before.running_sd, after.running_sd, r, k as int);
    let last = r.answered[k - 1];
    assert(is_sd_update(
        &kernel.num,
        r.moments[k - 1],
        last,
        r.moments[k as int],
        r.deviations[k - 1],
    ));
    lemma_path_counts(&kernel.num, before.running_sd, after.running_sd, r, k - 1);
    if after.iter > 2 {
        assert forall|o: int| 0 <= o < kernel.config.n_outputs implies is_mean_sd(
            &kernel.num,
            after.running_sd.m2,
            o,
            after.running_sd.count as nat,
            #[trigger] after.leaf_sd@[o],
        ) by {
            assert(after.leaf_sd@[o] == r.deviations[k - 1][o]);
            lemma_mean_deviation(
                &kernel.num,
                after.running_sd.m2,
                o,
                after.running_sd.count as nat,
                after.leaf_sd@[o],
            );
        }
    }
    r
}

/// Each array is counted, and the shapes stay.
proof fn lemma_path_counts<N: Numerics>(
    num: &N,
    from: RunningSd,
    to: RunningSd,
    r: TuningRecord,
    k: int,
)
    requires
        r.is_path(num, from, to),
        0 <= k <= r.answered.len(),
    ensures
        r.moments[k].count == from.count + k,
        r.moments[k].mean.same_shape(from.mean),
        r.moments[k].m2.same_shape(from.m2),
    decreases k,
{
    if k > 0 {
        lemma_path_counts(num, from, to, r, k - 1);
        assert(is_sd_update(
            num,
            r.moments[k - 1],
            r.answered[k - 1],
            r.moments[k],
            r.deviations[k - 1],
        ));
    }
}

/// The mean and second moment of one output of one sample, in the scale of
/// [`Binary64::scaled`], as `values` come in one by one.
pub struct MomentsRecord {
    pub values: Seq<int>,
    pub means: Seq<int>,
    pub m2s: Seq<int>,
}

impl MomentsRecord {
    /// The values come in after `count` others. Value number `n` moves the mean by its
    /// deviation over `n`, and the second moment by the product of its deviations from the
    /// mean before and after. All of it is a whole number of units within `bound`.
    pub open spec fn is_exact(self, count: nat, unit: int, bound: int) -> bool {
        &&& self.means.len() == self.values.len() + 1
        &&& self.m2s.len() == self.values.len() + 1
        &&& fits_exactly(self.means[0], unit, bound)
        &&& fits_exactly(self.m2s[0], unit, bound)
        &&& forall|j: int|
            #![trigger self.values[j]]
            0 <= j < self.values.len() ==> {
                let v = self.values[j];
                let shift = self.means[j + 1] - self.means[j];
                let gain = self.m2s[j + 1] - self.m2s[j];
                &&& (count + j + 1) * shift == v - self.means[j]
                &&& gain * unit_scale() == (v - self.means[j]) * (v - self.means[j + 1])
                &&& fits_exactly(v, unit, bound)
                &&& fits_exactly(v - self.means[j], unit, bound)
                &&& fits_exactly(v - self.means[j + 1], unit, bound)
                &&& fits_exactly(shift, unit, bound)
                &&& fits_exactly(gain, unit, bound)
                &&& fits_exactly(self.means[j + 1], unit, bound)
                &&& fits_exactly(self.m2s[j + 1], unit, bound)
            }
    }
}

/// A step of the running moments where the arithmetic is exact: the mean moves by the
/// deviation over the count, the second moment by the product of the deviations from the mean
/// before and after.
pub proof fn law_exact_moments_step<N: Numerics>(
    num: &N,
    count: nat,
    value: Binary64,
    mean: Binary64,
    m2: Binary64,
    new_mean: Binary64,
    new_m2: Binary64,
    shift: int,
    gain: int,
    unit: int,
    bound: int,
)
    requires
        is_welford_step(num, count, value, mean, m2, new_mean, new_m2),
        computes_exactly(num, unit, bound),
        0 < count < 0x20_0000_0000_0000,
        is_exact(value, unit, bound),
        is_exact(mean, unit, bound),
        is_exact(m2, unit, bound),
        count * shift == value.scaled() - mean.scaled(),
        gain * unit_scale() == (value.scaled() - mean.scaled()) * (value.scaled() - (mean.scaled()
            + shift)),
        fits_exactly(value.scaled() - mean.scaled(), unit, bound),
        fits_exactly(value.scaled() - (mean.scaled() + shift), unit, bound),
        fits_exactly(shift, unit, bound),
        fits_exactly(gain, unit, bound),
        fits_exactly(mean.scaled() + shift, unit, bound),
        fits_exactly(m2.scaled() + gain, unit, bound),
    ensures
        is_exact(new_mean, unit, bound),
        is_exact(new_m2, unit, bound),
        new_mean.scaled() == mean.scaled() + shift,
        new_m2.scaled() == m2.scaled() + gain,
{
    let (delta, share, delta2, product) = choose|
        delta: Binary64,
        share: Binary64,
        delta2: Binary64,
        product: Binary64,
    |
        {
            &&& is_difference(num, value, mean, delta)
            &&& #[trigger] is_quotient(num, delta, count_number(count), share)
            &&& is_sum(num, mean, share, new_mean)
            &&& is_difference(num, value, new_mean, delta2)
            &&& #[trigger] is_product(num, delta, delta2, product)
            &&& is_sum(num, m2, product, new_m2)
        };
    assert(call_ensures(N::minus, (num, value, mean), delta));
    lemma_over_count(num, delta, count, shift, unit, bound, share);
    assert(call_ensures(N::plus, (num, mean, share), new_mean));
    assert(call_ensures(N::minus, (num, value, new_mean), delta2));
    assert(call_ensures(N::times, (num, delta, delta2), product));
    assert(product.scaled() == gain);
    assert(call_ensures(N::plus, (num, m2, product), new_m2));
}

/// The sum of the squared distances of `values` from `m`.
pub open spec fn squared_distances(values: Seq<int>, m: int) -> int
    decreases values.len(),
{
    if values.len() == 0 {
        0
    } else {
        squared_distances(values.drop_last(), m) + (values.last() - m) * (values.last() - m)
    }
}

/// Squared distances from another point.
proof fn lemma_squared_distances(values: Seq<int>, a: int, b: int)
    ensures
        squared_distances(values, a) == squared_distances(values, b) + 2 * (b - a) * (sum_of(
            values,
        ) - values.len() * b) + values.len() * ((b - a) * (b - a)),
    decreases values.len(),
{
    let n = values.len() as int;
    if n > 0 {
        let rest = values.drop_last();
        lemma_squared_distances(rest, a, b);
        let v = values.last();
        let s = sum_of(rest);
        let p = squared_distances(rest, a);
        let q = squared_distances(rest, b);
        let c = b - a;
        assert(rest.len() == n - 1);
        assert(p == q + 2 * c * (s - (n - 1) * b) + (n - 1) * (c * c));
        assert((v - a) * (v - a) == (v - b) * (v - b) + 2 * c * (v - b) + c * c)
            by (nonlinear_arith)
            requires
                c == b - a,
        ;
        assert(2 * c * (s - (n - 1) * b) + 2 * c * (v - b) == 2 * c * (s + v - n * b))
            by (nonlinear_arith);
        assert((n - 1) * (c * c) + c * c == n * (c * c)) by (nonlinear_arith);
    } else {
        let c = b - a;
        assert(2 * c * (0 - 0 * b) == 0) by (nonlinear_arith);
        assert(0 * (c * c) == 0) by (nonlinear_arith);
    }
}

/// Moments that start from nothing: the mean is that of all values, and the second moment the
/// sum of their squared distances from it.
pub proof fn law_moments_of_all(m: MomentsRecord, unit: int, bound: int, k: int)
    requires
        m.is_exact(0, unit, bound),
        m.means[0] == 0,
        m.m2s[0] == 0,
        0 <= k <= m.values.len(),
    ensures
        k * m.means[k] == sum_of(m.values.take(k)),
        m.m2s[k] * unit_scale() == squared_distances(m.values.take(k), m.means[k]),
    decreases k,
{
    let one = unit_scale();
    if k > 0 {
        law_moments_of_all(m, unit, bound, k - 1);
        let v = m.values[k - 1];
        let a = m.means[k - 1];
        let b = m.means[k];
        let rest = m.values.take(k - 1);
        let all = m.values.take(k);
        assert(all.drop_last() =~= rest);
        assert(all.last() == v);
        lemma_squared_distances(rest, b, a);
        let s = sum_of(rest);
        assert(k * (b - a) == v - a);
        assert((k - 1) * a == s);
        assert(k * b == s + v) by (nonlinear_arith)
            requires
                k * (b - a) == v - a,
                (k - 1) * a == s,
        ;
        let p = m.m2s[k - 1];
        let q = m.m2s[k];
        assert((q - p) * one == (v - a) * (v - b));
        assert(2 * (a - b) * (s - (k - 1) * a) == 0) by (nonlinear_arith)
            requires
                (k - 1) * a == s,
        ;
        assert((v - a) * (v - b) == (k - 1) * ((a - b) * (a - b)) + (v - b) * (v - b))
            by (nonlinear_arith)
            requires
                k * (b - a) == v - a,
        ;
        assert(q * one == p * one + (q - p) * one) by (nonlinear_arith);
    } else {
        assert(0 * m.means[0] == 0);
        assert(0 * one == 0);
    }
}

/// What the running moments of one output of one sample are after a path of updates, where
/// the arithmetic is exact.
proof fn lemma_exact_path<N: Numerics>(
    num: &N,
    from: RunningSd,
    to: RunningSd,
    r: TuningRecord,
    o: int,
    s: int,
    m: MomentsRecord,
    unit: int,
    bound: int,
    k: int,
)
    requires
        r.is_path(num, from, to),
        computes_exactly(num, unit, bound),
        from.count + r.answered.len() < 0x20_0000_0000_0000,
        from.m2.same_shape(from.mean),
        0 <= o < from.mean.height(),
        0 <= s < from.mean.width(),
        m.is_exact(from.count as nat, unit, bound),
        m.values.len() == r.answered.len(),
        from.mean.at(o, s).is_finite_spec(),
        from.m2.at(o, s).is_finite_spec(),
        from.mean.at(o, s).scaled() == m.means[0],
        from.m2.at(o, s).scaled() == m.m2s[0],
        forall|j: int|
            0 <= j < r.answered.len() ==> {
                &&& (#[trigger] r.answered[j]).at(o, s).is_finite_spec()
                &&& r.answered[j].at(o, s).scaled() == m.values[j]
            },
        0 <= k <= r.answered.len(),
    ensures
        is_exact(r.moments[k].mean.at(o, s), unit, bound),
        is_exact(r.moments[k].m2.at(o, s), unit, bound),
        r.moments[k].mean.at(o, s).scaled() == m.means[k],
        r.moments[k].m2.at(o, s).scaled() == m.m2s[k],
    decreases k,
{
    if k > 0 {
        lemma_exact_path(num, from, to, r, o, s, m, unit, bound, k - 1);
        lemma_path_counts(num, from, to, r, k - 1);
        let a = r.moments[k - 1];
        let b = r.moments[k];
        let v = r.answered[k - 1];
        assert(is_sd_update(num, a, v, b, r.deviations[k - 1]));
        let count = b.count as nat;
        assert(is_welford_step(
            num,
            count,
            v.at(o, s),
            a.mean.at(o, s),
            a.m2.at(o, s),
            b.mean.at(o, s),
            b.m2.at(o, s),
        ));
        assert(v.at(o, s).scaled() == m.values[k - 1]);
        law_exact_moments_step(
            num,
            count,
            v.at(o, s),
            a.mean.at(o, s),
            a.m2.at(o, s),
            b.mean.at(o, s),
            b.m2.at(o, s),
            m.means[k] - m.means[k - 1],
            m.m2s[k] - m.m2s[k - 1],
            unit,
            bound,
        );
    }
}

/// The moments that a sampler holds after it has tuned, where the arithmetic is exact: those
/// of what the new trees answer, each alone, on the training samples. Where the sampler had
/// seen no tree before, `k` new trees leave the mean of their `k` answers, and the sum of the
/// squared distances of the answers from it.
pub proof fn law_tuning_gives_moments<
    N: Numerics,
    S: SplitRule,
    R: ResamplingStrategy,
    W: WeightFn,
>(
    kernel: &BartKernel<N, S, R, W>,
    from: SmallRng,
    before: StateModel,
    after: StateModel,
    info: BartInfo,
    to: SmallRng,
    o: int,
    s: int,
    m: MomentsRecord,
    unit: int,
    bound: int,
)
    requires
        before.tune,
        before.forest.len() == kernel.config.n_trees,
        kernel.config.n_trees >= 1,
        before.running_sd.wf(kernel.data.x.height()),
        before.running_sd.shape == kernel.config.n_outputs,
        kernel.is_step(from, before, after, info, to),
        computes_exactly(&kernel.num, unit, bound),
        0 <= o < kernel.config.n_outputs,
        0 <= s < kernel.data.x.height(),
        before.running_sd.count + info.batch_size < 0x20_0000_0000_0000,
        m.is_exact(before.running_sd.count as nat, unit, bound),
        m.values.len() == info.batch_size,
        before.running_sd.mean.at(o, s).is_finite_spec(),
        before.running_sd.m2.at(o, s).is_finite_spec(),
        before.running_sd.mean.at(o, s).scaled() == m.means[0],
        before.running_sd.m2.at(o, s).scaled() == m.m2s[0],
        forall|j: int, v: Binary64|
            0 <= j < info.batch_size && #[trigger] answers(
                &kernel.num,
                after.forest[(before.next_tree_idx + j) % (kernel.config.n_trees as int)],
                kernel.data.x,
                o,
                s,
                v,
            ) ==> v.is_finite_spec() && v.scaled() == m.values[j],
    ensures
        after.running_sd.count == before.running_sd.count + m.values.len(),
        after.running_sd.mean.at(o, s).scaled() == m.means.last(),
        after.running_sd.m2.at(o, s).scaled() == m.m2s.last(),
        before.running_sd.count == 0 && m.means[0] == 0 && m.m2s[0] == 0 ==> {
            let mean = after.running_sd.mean.at(o, s).scaled();
            &&& m.values.len() * mean == sum_of(m.values)
            &&& after.running_sd.m2.at(o, s).scaled() * unit_scale() == squared_distances(
                m.values,
                mean,
            )
        },
{
    let n = kernel.config.n_trees as int;
    let k = info.batch_size as nat;
    let r = law_tuning_step(kernel, from, before, after, info, to);
    let placed = Seq::new(k, |j: int| after.forest[(before.next_tree_idx + j) % n]);
    assert(r.are_answers_of(
        &kernel.num,
        placed,
        kernel.data.x,
        kernel.config.n_outputs as nat,
    ));
    assert forall|j: int| 0 <= j < r.answered.len() implies {
        &&& (#[trigger] r.answered[j]).at(o, s).is_finite_spec()
        &&& r.answered[j].at(o, s).scaled() == m.values[j]
    } by {
        let v = r.answered[j].at(o, s);
        assert(answers(&kernel.num, placed[j], kernel.data.x, o, s, v));
        assert(answers(
            &kernel.num,
            after.forest[(before.next_tree_idx + j) % n],
            kernel.data.x,
            o,
            s,
            v,
        ));
    }
    lemma_exact_path(
        &kernel.num,
        before.running_sd,
        after.running_sd,
        r,
        o,
        s,
        m,
        unit,
        bound,
        k as int,
    );
    if before.running_sd.count == 0 && m.means[0] == 0 && m.m2s[0] == 0 {
        law_moments_of_all(m, unit, bound, k as int);
        assert(m.values.take(k as int) =~= m.values);
    }
}

} // verus!
