//! What the standard deviation of a column is.
use crate::binary64::{count_number, Binary64, ZERO_BITS};
use crate::columns::{are_moments, are_moments_of, is_nanstd, present_count};
use crate::leaf_laws::{computes_exactly, is_exact, unit_scale};
use crate::line_laws::{denote, sum_of};
use crate::numerics::{is_quotient, is_root, Numerics};
use crate::running_sd::{is_deviation, is_welford_step};
use crate::tuning_laws::{
    is_sd_of, law_exact_moments_step, law_moments_of_all, squared_distances, MomentsRecord,
};
use vstd::prelude::*;

verus! {

/// Whether a number is there.
pub open spec fn is_there() -> spec_fn(Binary64) -> bool {
    |v: Binary64| !v.is_nan_spec()
}

/// The numbers of a column that are there.
pub open spec fn present(col: Seq<Binary64>) -> Seq<Binary64> {
    col.filter(is_there())
}

proof fn lemma_present(col: Seq<Binary64>)
    ensures
        present_count(col) == present(col).len(),
        col.len() > 0 && !col.last().is_nan_spec() ==> {
            &&& present(col) == present(col.drop_last()).push(col.last())
        },
        col.len() > 0 && col.last().is_nan_spec() ==> present(col) == present(col.drop_last()),
    decreases col.len(),
{
    reveal(Seq::filter);
    if col.len() > 0 {
        lemma_present(col.drop_last());
    }
}

proof fn lemma_moments_of_present<N: Numerics>(
    num: &N,
    col: Seq<Binary64>,
    mean: Binary64,
    m2: Binary64,
    m: MomentsRecord,
    unit: int,
    bound: int,
)
    requires
        are_moments_of(num, col, mean, m2),
        computes_exactly(num, unit, bound),
        m.is_exact(0, unit, bound),
        m.means[0] == 0,
        m.m2s[0] == 0,
        present(col).len() <= m.values.len() < 0x20_0000_0000_0000,
        forall|i: int|
            0 <= i < present(col).len() ==> {
                &&& (#[trigger] present(col)[i]).is_finite_spec()
                &&& present(col)[i].scaled() == m.values[i]
            },
    ensures
        is_exact(mean, unit, bound),
        is_exact(m2, unit, bound),
        mean.scaled() == m.means[present(col).len() as int],
        m2.scaled() == m.m2s[present(col).len() as int],
    decreases col.len(),
{
    lemma_present(col);
    let zero = Binary64 { bits: ZERO_BITS };
    zero.lemma_zero_has_no_magnitude();
    if col.len() == 0 {
        reveal(Seq::filter);
        assert(present(col).len() == 0);
        assert(zero.scaled() == 0);
    } else {
        let rest = col.drop_last();
        lemma_present(rest);
        let n = present(col).len() as int;
        assert forall|i: int| 0 <= i < present(rest).len() implies {
            &&& (#[trigger] present(rest)[i]).is_finite_spec()
            &&& present(rest)[i].scaled() == m.values[i]
        } by {
            assert(present(rest)[i] == present(col)[i]);
        }
        if col.last().is_nan_spec() {
            lemma_moments_of_present(num, rest, mean, m2, m, unit, bound);
        } else {
            let (before, before_m2) = choose|before: Binary64, before_m2: Binary64|
                {
                    &&& #[trigger] is_welford_step(
                        num,
                        present_count(col),
                        col.last(),
                        before,
                        before_m2,
                        mean,
                        m2,
                    )
                    &&& are_moments_of(num, rest, before, before_m2)
                };
            lemma_moments_of_present(num, rest, before, before_m2, m, unit, bound);
            assert(present(col)[n - 1] == col.last());
            assert(col.last().scaled() == m.values[n - 1]);
            law_exact_moments_step(
                num,
                n as nat,
                col.last(),
                before,
                before_m2,
                mean,
                m2,
                m.means[n] - m.means[n - 1],
                m.m2s[n] - m.m2s[n - 1],
                unit,
                bound,
            );
        }
    }
}

/// The standard deviation of a column is the root of the mean squared distance of its numbers
/// from their mean, where the moments are exact. Numbers that are missing play no part. A
/// column without any has the standard deviation NaN.
pub proof fn law_deviation_of_a_column<N: Numerics>(
    num: &N,
    col: Seq<Binary64>,
    r: Binary64,
    m: MomentsRecord,
    unit: int,
    bound: int,
) -> (m2: Binary64)
    requires
        is_nanstd(num, col, r),
        computes_exactly(num, unit, bound),
        m.is_exact(0, unit, bound),
        m.means[0] == 0,
        m.m2s[0] == 0,
        m.values.len() < 0x20_0000_0000_0000,
        denote(present(col), m.values),
    ensures
        m.values.len() == 0 ==> r == (Binary64 { bits: 0x7ff8_0000_0000_0000 }),
        m.values.len() * m.means.last() == sum_of(m.values),
        m.values.len() > 0 ==> {
            &&& m2.scaled() * unit_scale() == squared_distances(m.values, m.means.last())
            &&& is_sd_of(num, m2, m.values.len(), r)
        },
{
    lemma_present(col);
    let n = m.values.len();
    law_moments_of_all(m, unit, bound, n as int);
    assert(m.values.take(n as int) =~= m.values);
    if n == 0 {
        r
    } else {
        let (mean, m2) = choose|mean: Binary64, m2: Binary64|
            {
                &&& #[trigger] are_moments(num, col, mean, m2)
                &&& is_deviation(num, m2, present_count(col), r)
            };
        lemma_moments_of_present(num, col, mean, m2, m, unit, bound);
        let variance = choose|variance: Binary64|
            is_quotient(num, m2, count_number(n), variance) && #[trigger] is_root(
                num,
                variance,
                r,
            );
        assert(call_ensures(N::sqrt, (num, variance), r));
        m2
    }
}

} // verus!
