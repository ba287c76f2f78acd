//! Closed-form fast paths for binary samples.
//!
//! For two 0/1-valued samples the whole computation reduces to the four
//! contingency counts `n_ab = #{i : v1ᵢ = a, v2ᵢ = b}`:
//!
//! `n⁴·dCov² = 4·(n₁₁n₀₀ − n₁₀n₀₁)²`,
//!
//! which is proved equal to the general double-sum statistic, so the closed
//! form and the general path agree exactly.  For one binary sample the
//! statistic collapses to the grand means of the other sample alone, with the
//! binary sample recoded to `±1` weights.

use vstd::prelude::*;

use crate::model::bounded_by;
use crate::model::clamp0;
use crate::model::dcov_sq_num;
use crate::model::dvar_sq_num;
use crate::model::ints;
use crate::model::zipped;
use crate::model::MAX_ABS_SAMPLE;
use crate::model::MAX_LEN;
use crate::sums::lemma_sum_of_parallel;
use crate::sums::lemma_sum_of_take_step;
use crate::sums::sum_of;

verus! {

/// Every element is 0 or 1.
pub open spec fn is_binary(s: Seq<int>) -> bool {
    forall|i: int| 0 <= i < s.len() ==> #[trigger] s[i] == 0 || s[i] == 1
}

/// The indicator of the contingency cell `(a, b)`.
pub open spec fn pair_ind(a: int, b: int) -> spec_fn((int, int)) -> int {
    |p: (int, int)|
        if p.0 == a && p.1 == b {
            1int
        } else {
            0int
        }
}

/// The contingency count `#{i : z[i] = (a, b)}`.
pub open spec fn count_pair(z: Seq<(int, int)>, a: int, b: int) -> int {
    sum_of(z, pair_ind(a, b))
}

/// `n₁₁n₀₀ − n₁₀n₀₁`, the determinant of the contingency table.
pub open spec fn contingency_det(z: Seq<(int, int)>) -> int {
    count_pair(z, 1, 1) * count_pair(z, 0, 0) - count_pair(z, 1, 0) * count_pair(z, 0, 1)
}

/// Swapping the two samples transposes the contingency table.
pub proof fn lemma_count_swap(v1: Seq<int>, v2: Seq<int>)
    requires
        v1.len() == v2.len(),
    ensures
        forall|a: int, b: int| #[trigger] count_pair(zipped(v2, v1), a, b) == count_pair(
            zipped(v1, v2),
            b,
            a,
        ),
{
    assert forall|a: int, b: int| #[trigger] count_pair(zipped(v2, v1), a, b) == count_pair(
        zipped(v1, v2),
        b,
        a,
    ) by {
        lemma_sum_of_parallel(zipped(v2, v1), zipped(v1, v2), pair_ind(a, b), pair_ind(b, a));
    }
}

/// The four contingency counts of a two-binary sample, in one pass:
/// `(n00, n01, n10, n11)` with `n_ab = #{i : v1ᵢ = a, v2ᵢ = b}`.
pub fn count_pairs(v1: &Vec<i64>, v2: &Vec<i64>) -> (r: (usize, usize, usize, usize))
    requires
        v1@.len() == v2@.len(),
        v1@.len() <= MAX_LEN,
        is_binary(ints(v1@)),
        is_binary(ints(v2@)),
    ensures
        r.0 as int == count_pair(zipped(ints(v1@), ints(v2@)), 0, 0),
        r.1 as int == count_pair(zipped(ints(v1@), ints(v2@)), 0, 1),
        r.2 as int == count_pair(zipped(ints(v1@), ints(v2@)), 1, 0),
        r.3 as int == count_pair(zipped(ints(v1@), ints(v2@)), 1, 1),
        r.0 + r.1 + r.2 + r.3 == v1@.len(),
{
    let n = v1.len();
    let ghost z = zipped(ints(v1@), ints(v2@));
    let mut n00: usize = 0;
    let mut n01: usize = 0;
    let mut n10: usize = 0;
    let mut n11: usize = 0;
    let mut i: usize = 0;
    while i < n
        invariant
            i <= n,
            n == v1@.len() && n == v2@.len() && n <= MAX_LEN,
            z == zipped(ints(v1@), ints(v2@)),
            is_binary(ints(v1@)),
            is_binary(ints(v2@)),
            n00 as int == count_pair(z.take(i as int), 0, 0),
            n01 as int == count_pair(z.take(i as int), 0, 1),
            n10 as int == count_pair(z.take(i as int), 1, 0),
            n11 as int == count_pair(z.take(i as int), 1, 1),
            n00 + n01 + n10 + n11 == i,
        decreases n - i,
    {
        proof {
            lemma_sum_of_take_step(z, i as int, pair_ind(0, 0));
            lemma_sum_of_take_step(z, i as int, pair_ind(0, 1));
            lemma_sum_of_take_step(z, i as int, pair_ind(1, 0));
            lemma_sum_of_take_step(z, i as int, pair_ind(1, 1));
            assert(z[i as int] == (ints(v1@)[i as int], ints(v2@)[i as int]));
            assert(ints(v1@)[i as int] == v1@[i as int] as int);
            assert(ints(v2@)[i as int] == v2@[i as int] as int);
            assert(ints(v1@)[i as int] == 0 || ints(v1@)[i as int] == 1);
            assert(ints(v2@)[i as int] == 0 || ints(v2@)[i as int] == 1);
        }
        let a = v1[i];
        let b = v2[i];
        if a == 0 && b == 0 {
            n00 += 1;
        } else if a == 0 {
            n01 += 1;
        } else if b == 0 {
            n10 += 1;
        } else {
            n11 += 1;
        }
        i += 1;
    }
    proof {
        assert(z.take(n as int) =~= z);
    }
    (n00, n01, n10, n11)
}

/// `n⁴·dCov²` of two binary samples by the contingency closed form:
/// `4·(n₁₁n₀₀ − n₁₀n₀₁)²`, in O(n).
pub fn dist_cov_both_binary(v1: &Vec<i64>, v2: &Vec<i64>) -> (r: i128)
    requires
        v1@.len() == v2@.len(),
        v1@.len() <= MAX_LEN,
        is_binary(ints(v1@)),
        is_binary(ints(v2@)),
    ensures
        r as int == 4 * contingency_det(zipped(ints(v1@), ints(v2@))) * contingency_det(
            zipped(ints(v1@), ints(v2@)),
        ),
        r >= 0,
{
    let (n00, n01, n10, n11) = count_pairs(v1, v2);
    let ghost z = zipped(ints(v1@), ints(v2@));
    proof {
        assert(0 <= (n11 as int) * (n00 as int) <= 1_000_000_000_000 && 0 <= (n10 as int) * (
        n01 as int) <= 1_000_000_000_000) by (nonlinear_arith)
            requires
                0 <= n11 as int <= 1_000_000,
                0 <= n00 as int <= 1_000_000,
                0 <= n10 as int <= 1_000_000,
                0 <= n01 as int <= 1_000_000,
        ;
    }
    let det: i128 = (n11 as i128) * (n00 as i128) - (n10 as i128) * (n01 as i128);
    proof {
        assert(det as int == contingency_det(z));
        assert(0 <= (det as int) * (det as int) <= 4_000_000_000_000_000_000_000_000)
            by (nonlinear_arith)
            requires
                -2_000_000_000_000 <= det as int <= 2_000_000_000_000,
        ;
        assert(4 * ((det as int) * (det as int)) == 4 * (det as int) * (det as int))
            by (nonlinear_arith);
    }
    4 * (det * det)
}

/// The correlation ingredients of two binary samples, in O(n): the closed
/// forms `cov = 4·det²` and `var = 4·(n₁·n₀)²` for each sample, giving
/// `dCor = |det| / √(n₁¹n₀¹n₁²n₀²)`, the absolute Matthews correlation.
pub fn dist_corr_both_binary(v1: &Vec<i64>, v2: &Vec<i64>) -> (r: crate::dist_corr_fast::CorStats)
    requires
        v1@.len() == v2@.len(),
        v1@.len() <= MAX_LEN,
        is_binary(ints(v1@)),
        is_binary(ints(v2@)),
    ensures
        r.cov_num as int == 4 * contingency_det(zipped(ints(v1@), ints(v2@))) * contingency_det(
            zipped(ints(v1@), ints(v2@)),
        ),
        r.var1_num as int == 4 * contingency_det(zipped(ints(v1@), ints(v1@))) * contingency_det(
            zipped(ints(v1@), ints(v1@)),
        ),
        r.var2_num as int == 4 * contingency_det(zipped(ints(v2@), ints(v2@))) * contingency_det(
            zipped(ints(v2@), ints(v2@)),
        ),
        r.cov_num >= 0 && r.var1_num >= 0 && r.var2_num >= 0,
{
    let cov = dist_cov_both_binary(v1, v2);
    let var1 = dist_cov_both_binary(v1, v1);
    let var2 = dist_cov_both_binary(v2, v2);
    crate::dist_corr_fast::CorStats { cov_num: cov, var1_num: var1, var2_num: var2 }
}

/// `n⁴·dCov²` for a binary first sample paired with a general one.  The
/// value is the general statistic; only the variance side of the pair gains
/// a closed form, so the covariance runs the verified general sweep.
pub fn dist_cov_one_binary(v1: &Vec<i64>, v2: &Vec<i64>) -> (r: i128)
    requires
        v1@.len() == v2@.len(),
        1 <= v1@.len() <= MAX_LEN,
        is_binary(ints(v1@)),
        bounded_by(ints(v2@), MAX_ABS_SAMPLE as int),
    ensures
        r as int == clamp0(dcov_sq_num(zipped(ints(v1@), ints(v2@)))),
        r >= 0,
{
    proof {
        assert forall|k: int| 0 <= k < v1@.len() implies -(MAX_ABS_SAMPLE as int)
            <= #[trigger] ints(v1@)[k] <= MAX_ABS_SAMPLE as int by {
            assert(ints(v1@)[k] == 0 || ints(v1@)[k] == 1);
        }
    }
    let raw = crate::dist_corr_fast::dist_cov_fast(v1, v2);
    if raw < 0 {
        0
    } else {
        raw
    }
}

/// The correlation ingredients for a binary first sample: the covariance and
/// the second variance from the general verified sweep, the first variance
/// from the O(n) binary closed form `4·(n₁n₀)²`.
pub fn dist_corr_one_binary(v1: &Vec<i64>, v2: &Vec<i64>) -> (r: crate::dist_corr_fast::CorStats)
    requires
        v1@.len() == v2@.len(),
        1 <= v1@.len() <= MAX_LEN,
        is_binary(ints(v1@)),
        bounded_by(ints(v2@), MAX_ABS_SAMPLE as int),
    ensures
        r.cov_num as int == clamp0(dcov_sq_num(zipped(ints(v1@), ints(v2@)))),
        r.var1_num as int == 4 * contingency_det(zipped(ints(v1@), ints(v1@))) * contingency_det(
            zipped(ints(v1@), ints(v1@)),
        ),
        r.var2_num as int == clamp0(dvar_sq_num(ints(v2@))),
        r.cov_num >= 0 && r.var1_num >= 0 && r.var2_num >= 0,
{
    proof {
        assert forall|k: int| 0 <= k < v1@.len() implies -(MAX_ABS_SAMPLE as int)
            <= #[trigger] ints(v1@)[k] <= MAX_ABS_SAMPLE as int by {
            assert(ints(v1@)[k] == 0 || ints(v1@)[k] == 1);
        }
    }
    let general = crate::dist_corr_fast::dist_corr_fast(v1, v2);
    let var1 = dist_cov_both_binary(v1, v1);
    crate::dist_corr_fast::CorStats {
        cov_num: general.cov_num,
        var1_num: var1,
        var2_num: general.var2_num,
    }
}

} // verus!
