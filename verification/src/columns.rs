//! Preparing the columns of the training data.
use crate::binary64::{Binary64, NAN_BITS, ZERO_BITS};
use crate::draws::{draw_normal, is_normal_draw};
use crate::numerics::{is_product, is_quotient, is_sum, Numerics};
use crate::running_sd::{deviation, is_deviation, is_welford_step, welford_step};
use rand::rngs::SmallRng;
use vstd::prelude::*;

verus! {

/// The encoding of `12`.
pub const TWELVE_BITS: u64 = 0x4028_0000_0000_0000;

/// Every number that is not missing is whole.
pub open spec fn are_whole(col: Seq<Binary64>) -> bool {
    forall|i: int|
        0 <= i < col.len() ==> (#[trigger] col[i]).is_nan_spec() || col[i].is_whole_spec()
}

/// Whether every number that is not missing is whole.
pub fn are_whole_number(col: &Vec<Binary64>) -> (r: bool)
    ensures
        r == are_whole(col@),
{
    for i in 0..col.len()
        invariant
            forall|j: int|
                0 <= j < i ==> (#[trigger] col@[j]).is_nan_spec() || col@[j].is_whole_spec(),
    {
        if !col[i].is_nan() && !col[i].is_whole() {
            return false;
        }
    }
    true
}

/// How many numbers are not missing.
pub open spec fn present_count(col: Seq<Binary64>) -> nat
    decreases col.len(),
{
    if col.len() == 0 {
        0
    } else {
        present_count(col.drop_last()) + if col.last().is_nan_spec() {
            0nat
        } else {
            1
        }
    }
}

/// `mean` and `m2` come of bringing in the numbers that are not missing one by one.
pub open spec fn are_moments_of<N: Numerics>(
    num: &N,
    col: Seq<Binary64>,
    mean: Binary64,
    m2: Binary64,
) -> bool
    decreases col.len(),
{
    if col.len() == 0 {
        &&& mean == (Binary64 { bits: ZERO_BITS })
        &&& m2 == (Binary64 { bits: ZERO_BITS })
    } else if col.last().is_nan_spec() {
        are_moments_of(num, col.drop_last(), mean, m2)
    } else {
        exists|before: Binary64, before_m2: Binary64|
            {
                &&& #[trigger] is_welford_step(
                    num,
                    present_count(col),
                    col.last(),
                    before,
                    before_m2,
                    mean,
                    m2,
                )
                &&& are_moments_of(num, col.drop_last(), before, before_m2)
            }
    }
}

/// `mean` and `m2` are the moments of the numbers that are not missing.
pub open spec fn are_moments<N: Numerics>(
    num: &N,
    col: Seq<Binary64>,
    mean: Binary64,
    m2: Binary64,
) -> bool {
    are_moments_of(num, col, mean, m2)
}

/// `r` is the standard deviation of the numbers that are not missing, NaN where all are.
pub open spec fn is_nanstd<N: Numerics>(num: &N, col: Seq<Binary64>, r: Binary64) -> bool {
    if present_count(col) == 0 {
        r == (Binary64 { bits: NAN_BITS })
    } else {
        exists|mean: Binary64, m2: Binary64|
            {
                &&& #[trigger] are_moments(num, col, mean, m2)
                &&& is_deviation(num, m2, present_count(col), r)
            }
    }
}

/// The standard deviation of the numbers that are not missing.
pub fn nanstd<N: Numerics>(num: &N, col: &Vec<Binary64>) -> (r: Binary64)
    ensures
        is_nanstd(num, col@, r),
{
    let mut count: usize = 0;
    let mut mean = Binary64 { bits: ZERO_BITS };
    let mut m2 = Binary64 { bits: ZERO_BITS };
    for i in 0..col.len()
        invariant
            count == present_count(col@.take(i as int)),
            count <= i,
            are_moments_of(num, col@.take(i as int), mean, m2),
    {
        let value = col[i];
        proof {
            let next = col@.take(i + 1);
            assert(next.drop_last() =~= col@.take(i as int));
            assert(next.last() == value);
        }
        if !value.is_nan() {
            count = count + 1;
            let (new_mean, new_m2) = welford_step(num, count, value, mean, m2);
            assert(is_welford_step(
                num,
                present_count(col@.take(i + 1)),
                col@.take(i + 1).last(),
                mean,
                m2,
                new_mean,
                new_m2,
            ));
            mean = new_mean;
            m2 = new_m2;
        }
    }
    assert(col@.take(col@.len() as int) =~= col@);
    if count == 0 {
        return Binary64 { bits: NAN_BITS };
    }
    assert(are_moments(num, col@, mean, m2));
    deviation(num, m2, count)
}

/// Number `i` of a column equals an earlier one.
pub open spec fn is_repeated(col: Seq<Binary64>, i: int) -> bool {
    exists|j: int| 0 <= j < i && (#[trigger] col[j]).same_number_spec(col[i])
}

/// Some number of a column equals an earlier one.
pub open spec fn has_repeats(col: Seq<Binary64>) -> bool {
    exists|i: int| 0 <= i < col.len() && #[trigger] is_repeated(col, i)
}

/// `r` is `value` with noise of standard deviation `scale`, of which the draw takes a
/// generator from `from` to `to`.
pub open spec fn is_jittered<N: Numerics>(
    num: &N,
    value: Binary64,
    scale: Binary64,
    from: SmallRng,
    r: Binary64,
    to: SmallRng,
) -> bool {
    exists|z: Binary64, noise: Binary64|
        {
            &&& is_normal_draw(num, from, z, to)
            &&& #[trigger] is_product(num, scale, z, noise)
            &&& is_sum(num, value, noise, r)
        }
}

/// `r` is number `i` of a column, with noise where it equals an earlier one. Nothing is drawn
/// where it does not.
pub open spec fn is_repeat_jittered<N: Numerics>(
    num: &N,
    col: Seq<Binary64>,
    scale: Binary64,
    i: int,
    from: SmallRng,
    r: Binary64,
    to: SmallRng,
) -> bool {
    if is_repeated(col, i) {
        is_jittered(num, col[i], scale, from, r, to)
    } else {
        r == col[i] && to == from
    }
}

/// `r` is column `col` with noise on the numbers that equal an earlier one, each with a draw
/// of its own. The draws come in the order of the numbers and take a generator through
/// `states`.
pub open spec fn are_repeats_jittered<N: Numerics>(
    num: &N,
    col: Seq<Binary64>,
    scale: Binary64,
    states: Seq<SmallRng>,
    r: Seq<Binary64>,
) -> bool {
    &&& r.len() == col.len()
    &&& states.len() == col.len() + 1
    &&& forall|i: int|
        0 <= i < col.len() ==> is_repeat_jittered(
            num,
            col,
            scale,
            i,
            states[i],
            #[trigger] r[i],
            states[i + 1],
        )
}

/// `r` may come of jittering `col`: nothing is done unless all numbers are whole. The draws
/// take a generator from `from` to `to`.
pub open spec fn is_jittered_column<N: Numerics>(
    num: &N,
    col: Seq<Binary64>,
    std: Binary64,
    from: SmallRng,
    r: Seq<Binary64>,
    to: SmallRng,
) -> bool {
    if are_whole(col) {
        exists|scale: Binary64, states: Seq<SmallRng>|
            {
                &&& is_quotient(num, std, Binary64 { bits: TWELVE_BITS }, scale)
                &&& #[trigger] are_repeats_jittered(num, col, scale, states, r)
                &&& states[0] == from
                &&& states.last() == to
            }
    } else {
        &&& to == from
        &&& r == col
    }
}

/// `value` is one of the first `n` numbers of a column.
spec fn is_among(col: Seq<Binary64>, n: int, value: Binary64) -> bool {
    exists|j: int| 0 <= j < n && #[trigger] col[j] == value
}

/// One of some numbers equals `value`.
#[verifier::opaque]
spec fn is_seen(seen: Seq<Binary64>, value: Binary64) -> bool {
    exists|k: int| 0 <= k < seen.len() && (#[trigger] seen[k]).same_number_spec(value)
}

/// `seen` holds, up to equality, the first `n` numbers of a column.
#[verifier::opaque]
spec fn is_memory(col: Seq<Binary64>, n: int, seen: Seq<Binary64>) -> bool {
    &&& forall|k: int| 0 <= k < seen.len() ==> is_among(col, n, #[trigger] seen[k])
    &&& forall|j: int|
        0 <= j < n && !(#[trigger] col[j]).is_nan_spec() ==> is_seen(seen, col[j])
}

/// A number equals an earlier one when it is remembered.
proof fn lemma_repeated_when_seen(col: Seq<Binary64>, n: int, seen: Seq<Binary64>)
    requires
        is_memory(col, n, seen),
        0 <= n < col.len(),
    ensures
        is_seen(seen, col[n]) == is_repeated(col, n),
{
    reveal(is_seen);
    reveal(is_memory);
    if is_seen(seen, col[n]) {
        let k = choose|k: int|
            0 <= k < seen.len() && (#[trigger] seen[k]).same_number_spec(col[n]);
        assert(is_among(col, n, seen[k]));
        let j = choose|j: int| 0 <= j < n && #[trigger] col[j] == seen[k];
        assert(col[j].same_number_spec(col[n]));
    }
    if is_repeated(col, n) {
        let j = choose|j: int| 0 <= j < n && (#[trigger] col[j]).same_number_spec(col[n]);
        assert(is_seen(seen, col[j]));
        let k = choose|k: int|
            0 <= k < seen.len() && (#[trigger] seen[k]).same_number_spec(col[j]);
        assert(seen[k].same_number_spec(col[n]));
    }
}

/// The memory after one more number, which is added unless it is in it already.
proof fn lemma_memory_grows(col: Seq<Binary64>, n: int, seen: Seq<Binary64>)
    requires
        is_memory(col, n, seen),
        0 <= n < col.len(),
    ensures
        is_seen(seen, col[n]) ==> is_memory(col, n + 1, seen),
        is_memory(col, n + 1, seen.push(col[n])),
{
    reveal(is_seen);
    reveal(is_memory);
    let more = seen.push(col[n]);
    assert forall|k: int| 0 <= k < seen.len() implies is_among(col, n + 1, #[trigger] seen[k]) by {
        assert(is_among(col, n, seen[k]));
    }
    assert forall|k: int| 0 <= k < more.len() implies is_among(col, n + 1, #[trigger] more[k]) by {
        if k < seen.len() {
            assert(is_among(col, n + 1, seen[k]));
        } else {
            assert(col[n] == more[k]);
        }
    }
    assert forall|j: int| 0 <= j < n + 1 && !(#[trigger] col[j]).is_nan_spec() implies is_seen(
        more,
        col[j],
    ) by {
        if j < n {
            let k = choose|k: int|
                0 <= k < seen.len() && (#[trigger] seen[k]).same_number_spec(col[j]);
            assert(is_seen(seen, col[j]));
            assert(more[k].same_number_spec(col[j]));
        } else {
            assert(more[seen.len() as int].same_number_spec(col[j]));
        }
    }
}

/// Whether one of some numbers equals `value`.
fn has_number(seen: &Vec<Binary64>, value: Binary64) -> (r: bool)
    ensures
        r == is_seen(seen@, value),
{
    reveal(is_seen);
    for i in 0..seen.len()
        invariant
            forall|k: int| 0 <= k < i ==> !(#[trigger] seen@[k]).same_number_spec(value),
    {
        if seen[i].same_number(value) {
            reveal(is_seen);
            return true;
        }
    }
    false
}

/// Adds noise to a number where it is in memory, else remembers it.
fn jitter_seen<N: Numerics>(
    num: &N,
    seen: &mut Vec<Binary64>,
    scale: Binary64,
    rng: &mut SmallRng,
    value: Binary64,
) -> (r: Binary64)
    ensures
        !is_seen(old(seen)@, value) ==> *final(rng) == *old(rng),
        is_seen(old(seen)@, value) ==> {
            &&& is_jittered(num, value, scale, *old(rng), r, *final(rng))
            &&& final(seen)@ == old(seen)@
        },
        !is_seen(old(seen)@, value) ==> r == value && final(seen)@ == old(seen)@.push(value),
{
    reveal(is_seen);
    let ghost from = *rng;
    if has_number(&*seen, value) && !value.is_nan() {
        let z = draw_normal(num, rng).value;
        assert(is_normal_draw(num, from, z, *rng));
        let noise = num.times(scale, z);
        assert(is_product(num, scale, z, noise));
        let r = num.plus(value, noise);
        assert(is_sum(num, value, noise, r));
        r
    } else {
        seen.push(value);
        value
    }
}

/// Adds noise to the numbers of a column that equal an earlier one, so that thresholds can
/// tell them apart. A column of numbers that are not all whole stays as it is.
pub fn jitter_duplicated<N: Numerics>(
    num: &N,
    col: &mut Vec<Binary64>,
    std: Binary64,
    rng: &mut SmallRng,
)
    ensures
        is_jittered_column(num, old(col)@, std, *old(rng), final(col)@, *final(rng)),
{
    if !are_whole_number(&*col) {
        return;
    }
    let ghost before = col@;
    let mut seen: Vec<Binary64> = Vec::new();
    let scale = num.over(std, Binary64 { bits: TWELVE_BITS });
    assert(is_quotient(num, std, Binary64 { bits: TWELVE_BITS }, scale));
    let n: usize = col.len();
    let ghost mut states: Seq<SmallRng> = seq![*rng];
    assert(is_memory(before, 0, seen@)) by {
        reveal(is_memory);
    }
    for i in 0..n
        invariant
            n == before.len(),
            col@.len() == n,
            forall|j: int| i <= j < n ==> #[trigger] col@[j] == before[j],
            states.len() == i + 1,
            states[0] == *old(rng),
            states.last() == *rng,
            forall|j: int|
                0 <= j < i ==> is_repeat_jittered(
                    num,
                    before,
                    scale,
                    j,
                    states[j],
                    #[trigger] col@[j],
                    states[j + 1],
                ),
            is_memory(before, i as int, seen@),
    {
        let value = col[i];
        proof {
            lemma_repeated_when_seen(before, i as int, seen@);
            lemma_memory_grows(before, i as int, seen@);
        }
        let r = jitter_seen(num, &mut seen, scale, rng, value);
        assert(is_repeat_jittered(num, before, scale, i as int, states.last(), r, *rng));
        col.set(i, r);
        proof {
            states = states.push(*rng);
        }
    }
    assert(are_repeats_jittered(num, before, scale, states, col@));
}

/// Missing numbers and first occurrences keep their value.
pub proof fn law_first_occurrences_stay<N: Numerics>(
    num: &N,
    col: Seq<Binary64>,
    std: Binary64,
    from: SmallRng,
    r: Seq<Binary64>,
    to: SmallRng,
    i: int,
)
    requires
        is_jittered_column(num, col, std, from, r, to),
        0 <= i < col.len(),
        col[i].is_nan_spec() || !is_repeated(col, i),
    ensures
        r.len() == col.len(),
        r[i] == col[i],
{
    if are_whole(col) {
        let (scale, states) = choose|scale: Binary64, states: Seq<SmallRng>|
            {
                &&& is_quotient(num, std, Binary64 { bits: TWELVE_BITS }, scale)
                &&& #[trigger] are_repeats_jittered(num, col, scale, states, r)
                &&& states[0] == from
                &&& states.last() == to
            };
        assert(is_repeat_jittered(num, col, scale, i, states[i], r[i], states[i + 1]));
    }
}

/// Numbers that do not repeat leave the generator alone.
proof fn lemma_states_stay<N: Numerics>(
    num: &N,
    col: Seq<Binary64>,
    scale: Binary64,
    states: Seq<SmallRng>,
    r: Seq<Binary64>,
    k: int,
)
    requires
        are_repeats_jittered(num, col, scale, states, r),
        !has_repeats(col),
        0 <= k <= col.len(),
    ensures
        states[k] == states[0],
    decreases k,
{
    if k > 0 {
        lemma_states_stay(num, col, scale, states, r, k - 1);
        assert(!is_repeated(col, k - 1));
        assert(r[k - 1] == col[k - 1]);
    }
}

/// A column without repeated numbers stays as it is, and nothing is drawn for it.
pub proof fn law_distinct_column_stays<N: Numerics>(
    num: &N,
    col: Seq<Binary64>,
    std: Binary64,
    from: SmallRng,
    r: Seq<Binary64>,
    to: SmallRng,
)
    requires
        is_jittered_column(num, col, std, from, r, to),
        !has_repeats(col),
    ensures
        r == col,
        to == from,
{
    if are_whole(col) {
        let (scale, states) = choose|scale: Binary64, states: Seq<SmallRng>|
            {
                &&& is_quotient(num, std, Binary64 { bits: TWELVE_BITS }, scale)
                &&& #[trigger] are_repeats_jittered(num, col, scale, states, r)
                &&& states[0] == from
                &&& states.last() == to
            };
        assert forall|i: int| 0 <= i < col.len() implies r[i] == col[i] by {
            assert(!is_repeated(col, i));
            assert(is_repeat_jittered(num, col, scale, i, states[i], r[i], states[i + 1]));
        }
        assert(r =~= col);
        lemma_states_stay(num, col, scale, states, r, col.len() as int);
    }
}

} // verus!
