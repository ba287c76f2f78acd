//! The public entry points: distance correlation and distance covariance of
//! two integer samples, with input validation and dispatch between the
//! general and the binary fast paths.
//!
//! All results are exact scaled numerators: for samples of length `n`,
//! `dCov² = num/n⁴` and `dCor² = cov_num/√(var1_num·var2_num)` (the scales
//! cancel in the correlation).  The square roots are left to the caller, so
//! nothing here rounds.

use vstd::prelude::*;

use crate::dist_corr_binary::contingency_det;
use crate::dist_corr_binary::dist_corr_both_binary;
use crate::dist_corr_binary::dist_corr_one_binary;
use crate::dist_corr_binary::dist_cov_both_binary;
use crate::dist_corr_binary::dist_cov_one_binary;
use crate::dist_corr_binary::is_binary;
use crate::dist_corr_fast::dist_corr_fast;
use crate::dist_corr_fast::dist_cov_fast;
use crate::dist_corr_fast::dist_var_fast;
use crate::dist_corr_fast::CorStats;
use crate::model::bounded_by;
use crate::model::clamp0;
use crate::model::dcov_sq_num;
use crate::model::dvar_sq_num;
use crate::model::ints;
use crate::model::lemma_dcov_sq_num_swap;
use crate::model::zipped;
use crate::model::MAX_ABS_SAMPLE;
use crate::model::MAX_LEN;

verus! {

/// The ways an input can be rejected.
#[derive(Clone, Copy, Debug, PartialEq, Eq, Structural)]
pub enum DistCorrError {
    /// The two samples have different lengths.
    LengthMismatch,
    /// The samples are empty.
    EmptyInput,
    /// A sample declared binary holds a value other than 0 or 1.
    NonBinaryInput,
}

/// A scaled square: the statistic is `num / n⁴`.
#[derive(Clone, Copy, Debug)]
pub struct ScaledSq {
    /// The exact numerator, never negative.
    pub num: i128,
    /// The sample length whose fourth power is the denominator.
    pub n: usize,
}

/// The inputs a computation on the pair `(v1, v2)` accepts.
pub open spec fn accepted(v1: Seq<i64>, v2: Seq<i64>, v1_binary: bool, v2_binary: bool) -> bool {
    &&& v1.len() == v2.len()
    &&& v1.len() >= 1
    &&& (v1_binary ==> is_binary(ints(v1)))
    &&& (v2_binary ==> is_binary(ints(v2)))
}

/// The error an unacceptable input is rejected with: a length mismatch first,
/// then emptiness, then the binary domains.
pub open spec fn rejection(v1: Seq<i64>, v2: Seq<i64>, v1_binary: bool, v2_binary: bool)
    -> DistCorrError {
    if v1.len() != v2.len() {
        DistCorrError::LengthMismatch
    } else if v1.len() == 0 {
        DistCorrError::EmptyInput
    } else {
        DistCorrError::NonBinaryInput
    }
}

/// Checks the four acceptance conditions, in order.
fn validate(v1: &Vec<i64>, v2: &Vec<i64>, v1_binary: bool, v2_binary: bool) -> (r: Result<
    (),
    DistCorrError,
>)
    ensures
        r is Ok <==> accepted(v1@, v2@, v1_binary, v2_binary),
        r is Err ==> r == Result::<(), DistCorrError>::Err(
            rejection(v1@, v2@, v1_binary, v2_binary),
        ),
{
    if v1.len() != v2.len() {
        return Err(DistCorrError::LengthMismatch);
    }
    if v1.len() == 0 {
        return Err(DistCorrError::EmptyInput);
    }
    if v1_binary && !all_binary(v1) {
        return Err(DistCorrError::NonBinaryInput);
    }
    if v2_binary && !all_binary(v2) {
        return Err(DistCorrError::NonBinaryInput);
    }
    Ok(())
}

/// Whether every element is 0 or 1.
fn all_binary(v: &Vec<i64>) -> (r: bool)
    ensures
        r == is_binary(ints(v@)),
{
    let mut i: usize = 0;
    while i < v.len()
        invariant
            i <= v@.len(),
            forall|k: int| 0 <= k < i ==> #[trigger] ints(v@)[k] == 0 || ints(v@)[k] == 1,
        decreases v@.len() - i,
    {
        let x = v[i];
        proof {
            assert(ints(v@)[i as int] == v@[i as int] as int);
        }
        if x != 0 && x != 1 {
            return false;
        }
        i += 1;
    }
    true
}

/// An empty handle anchoring the distance-correlation entry points.
#[derive(Clone, Debug)]
pub struct DistCorrelation;

/// An empty handle anchoring the distance-covariance entry points.
#[derive(Clone, Debug)]
pub struct DistCovariance;

impl DistCorrelation {
    /// The distance-correlation ingredients of two general samples:
    /// `dCor = √(cov_num/√(var1_num·var2_num))`, or 0 when a variance
    /// vanishes; the result, clamped to `[0,1]`, is the caller's one
    /// floating-point step.
    pub fn compute(&self, v1: &Vec<i64>, v2: &Vec<i64>) -> (r: Result<CorStats, DistCorrError>)
        requires
            v1@.len() <= MAX_LEN,
            v2@.len() <= MAX_LEN,
            bounded_by(ints(v1@), MAX_ABS_SAMPLE as int),
            bounded_by(ints(v2@), MAX_ABS_SAMPLE as int),
        ensures
            r is Ok <==> accepted(v1@, v2@, false, false),
            r is Err ==> r == Result::<CorStats, DistCorrError>::Err(
                rejection(v1@, v2@, false, false),
            ),
            r is Ok ==> (r->Ok_0.cov_num as int == clamp0(
                dcov_sq_num(zipped(ints(v1@), ints(v2@))),
            ) && r->Ok_0.var1_num as int == clamp0(dvar_sq_num(ints(v1@)))
                && r->Ok_0.var2_num as int == clamp0(dvar_sq_num(ints(v2@)))),
    {
        self.compute_binary(v1, v2, false, false)
    }

    /// As `compute`, dispatching to the closed-form paths for samples
    /// declared binary: with both binary the result is the absolute Matthews
    /// correlation, `cov = 4·det²` and `var = 4·(n₁n₀)²` per sample.
    pub fn compute_binary(
        &self,
        v1: &Vec<i64>,
        v2: &Vec<i64>,
        v1_binary: bool,
        v2_binary: bool,
    ) -> (r: Result<CorStats, DistCorrError>)
        requires
            v1@.len() <= MAX_LEN,
            v2@.len() <= MAX_LEN,
            bounded_by(ints(v1@), MAX_ABS_SAMPLE as int),
            bounded_by(ints(v2@), MAX_ABS_SAMPLE as int),
        ensures
            r is Ok <==> accepted(v1@, v2@, v1_binary, v2_binary),
            r is Err ==> r == Result::<CorStats, DistCorrError>::Err(
                rejection(v1@, v2@, v1_binary, v2_binary),
            ),
            r is Ok && v1_binary && v2_binary ==> (r->Ok_0.cov_num as int == 4 * contingency_det(
                zipped(ints(v1@), ints(v2@)),
            ) * contingency_det(zipped(ints(v1@), ints(v2@))) && r->Ok_0.var1_num as int == 4
                * contingency_det(zipped(ints(v1@), ints(v1@))) * contingency_det(
                zipped(ints(v1@), ints(v1@)),
            ) && r->Ok_0.var2_num as int == 4 * contingency_det(zipped(ints(v2@), ints(v2@)))
                * contingency_det(zipped(ints(v2@), ints(v2@)))),
            r is Ok && !(v1_binary && v2_binary) ==> (r->Ok_0.cov_num as int == clamp0(
                dcov_sq_num(zipped(ints(v1@), ints(v2@))),
            ) && ((v1_binary ==> r->Ok_0.var1_num as int == 4 * contingency_det(
                zipped(ints(v1@), ints(v1@)),
            ) * contingency_det(zipped(ints(v1@), ints(v1@)))) && (!v1_binary
                ==> r->Ok_0.var1_num as int == clamp0(dvar_sq_num(ints(v1@)))) && (v2_binary
                ==> r->Ok_0.var2_num as int == 4 * contingency_det(zipped(ints(v2@), ints(v2@)))
                * contingency_det(zipped(ints(v2@), ints(v2@)))) && (!v2_binary
                ==> r->Ok_0.var2_num as int == clamp0(dvar_sq_num(ints(v2@)))))),
            r is Ok ==> r->Ok_0.cov_num >= 0 && r->Ok_0.var1_num >= 0 && r->Ok_0.var2_num >= 0,
    {
        match validate(v1, v2, v1_binary, v2_binary) {
            Err(e) => Err(e),
            Ok(()) => {
                if v1_binary && v2_binary {
                    Ok(dist_corr_both_binary(v1, v2))
                } else if v1_binary {
                    Ok(dist_corr_one_binary(v1, v2))
                } else if v2_binary {
                    let flipped = dist_corr_one_binary(v2, v1);
                    proof {
                        lemma_dcov_sq_num_swap(ints(v2@), ints(v1@));
                    }
                    Ok(
                        CorStats {
                            cov_num: flipped.cov_num,
                            var1_num: flipped.var2_num,
                            var2_num: flipped.var1_num,
                        },
                    )
                } else {
                    Ok(dist_corr_fast(v1, v2))
                }
            },
        }
    }
}

impl DistCovariance {
    /// `n⁴·dCov²` of two general samples, exactly.
    pub fn compute(&self, v1: &Vec<i64>, v2: &Vec<i64>) -> (r: Result<ScaledSq, DistCorrError>)
        requires
            v1@.len() <= MAX_LEN,
            v2@.len() <= MAX_LEN,
            bounded_by(ints(v1@), MAX_ABS_SAMPLE as int),
            bounded_by(ints(v2@), MAX_ABS_SAMPLE as int),
        ensures
            r is Ok <==> accepted(v1@, v2@, false, false),
            r is Err ==> r == Result::<ScaledSq, DistCorrError>::Err(
                rejection(v1@, v2@, false, false),
            ),
            r is Ok ==> r->Ok_0.num as int == clamp0(dcov_sq_num(zipped(ints(v1@), ints(v2@))))
                && r->Ok_0.n == v1@.len() && r->Ok_0.num >= 0,
    {
        self.compute_binary(v1, v2, false, false)
    }

    /// As `compute`, with the closed form when both samples are binary.
    pub fn compute_binary(
        &self,
        v1: &Vec<i64>,
        v2: &Vec<i64>,
        v1_binary: bool,
        v2_binary: bool,
    ) -> (r: Result<ScaledSq, DistCorrError>)
        requires
            v1@.len() <= MAX_LEN,
            v2@.len() <= MAX_LEN,
            bounded_by(ints(v1@), MAX_ABS_SAMPLE as int),
            bounded_by(ints(v2@), MAX_ABS_SAMPLE as int),
        ensures
            r is Ok <==> accepted(v1@, v2@, v1_binary, v2_binary),
            r is Err ==> r == Result::<ScaledSq, DistCorrError>::Err(
                rejection(v1@, v2@, v1_binary, v2_binary),
            ),
            r is Ok && v1_binary && v2_binary ==> r->Ok_0.num as int == 4 * contingency_det(
                zipped(ints(v1@), ints(v2@)),
            ) * contingency_det(zipped(ints(v1@), ints(v2@))),
            r is Ok && !(v1_binary && v2_binary) ==> r->Ok_0.num as int == clamp0(
                dcov_sq_num(zipped(ints(v1@), ints(v2@))),
            ),
            r is Ok ==> r->Ok_0.n == v1@.len() && r->Ok_0.num >= 0,
    {
        match validate(v1, v2, v1_binary, v2_binary) {
            Err(e) => Err(e),
            Ok(()) => {
                if v1_binary && v2_binary {
                    let num = dist_cov_both_binary(v1, v2);
                    Ok(ScaledSq { num, n: v1.len() })
                } else if v1_binary {
                    Ok(ScaledSq { num: dist_cov_one_binary(v1, v2), n: v1.len() })
                } else if v2_binary {
                    let num = dist_cov_one_binary(v2, v1);
                    proof {
                        lemma_dcov_sq_num_swap(ints(v2@), ints(v1@));
                    }
                    Ok(ScaledSq { num, n: v1.len() })
                } else {
                    let raw = dist_cov_fast(v1, v2);
                    Ok(ScaledSq { num: if raw < 0 { 0 } else { raw }, n: v1.len() })
                }
            },
        }
    }

    /// `n⁴·dVar²` of a single sample, exactly; faster than `compute(v, v)`
    /// because the Frobenius sweep is skipped.
    pub fn compute_var(v: &Vec<i64>) -> (r: Result<ScaledSq, DistCorrError>)
        requires
            v@.len() <= MAX_LEN,
            bounded_by(ints(v@), MAX_ABS_SAMPLE as int),
        ensures
            r is Ok <==> v@.len() >= 1,
            r is Err ==> r == Result::<ScaledSq, DistCorrError>::Err(DistCorrError::EmptyInput),
            r is Ok ==> r->Ok_0.num as int == clamp0(dvar_sq_num(ints(v@))) && r->Ok_0.n
                == v@.len() && r->Ok_0.num >= 0,
    {
        if v.len() == 0 {
            return Err(DistCorrError::EmptyInput);
        }
        let raw = dist_var_fast(v);
        Ok(ScaledSq { num: if raw < 0 { 0 } else { raw }, n: v.len() })
    }
}

/// A sample correlates perfectly with itself: on the pair `(v, v)` the
/// covariance numerator equals both variance numerators, so
/// `dCor² = var/√(var·var) = 1` whenever the variance is not zero (and the
/// correlation is defined as 0 when it is).
pub proof fn lemma_self_correlation(v: Seq<int>)
    ensures
        clamp0(dcov_sq_num(zipped(v, v))) == clamp0(dvar_sq_num(v)),
{
}

/// The statistics are symmetric in the two samples: swapping the arguments
/// changes neither the covariance numerator nor — beyond exchanging them —
/// the variance numerators, so `dCov` and `dCor` are symmetric.
pub proof fn lemma_flip_symmetry(v1: Seq<i64>, v2: Seq<i64>)
    requires
        v1.len() == v2.len(),
    ensures
        clamp0(dcov_sq_num(zipped(ints(v2), ints(v1)))) == clamp0(
            dcov_sq_num(zipped(ints(v1), ints(v2))),
        ),
        4 * contingency_det(zipped(ints(v2), ints(v1))) * contingency_det(
            zipped(ints(v2), ints(v1)),
        ) == 4 * contingency_det(zipped(ints(v1), ints(v2))) * contingency_det(
            zipped(ints(v1), ints(v2)),
        ),
{
    lemma_dcov_sq_num_swap(ints(v1), ints(v2));
    let d12 = contingency_det(zipped(ints(v1), ints(v2)));
    let d21 = contingency_det(zipped(ints(v2), ints(v1)));
    assert(d21 == d12) by {
        crate::dist_corr_binary::lemma_count_swap(ints(v1), ints(v2));
        let z21 = zipped(ints(v2), ints(v1));
        let z12 = zipped(ints(v1), ints(v2));
        assert(crate::dist_corr_binary::count_pair(z21, 1, 1)
            == crate::dist_corr_binary::count_pair(z12, 1, 1));
        assert(crate::dist_corr_binary::count_pair(z21, 0, 0)
            == crate::dist_corr_binary::count_pair(z12, 0, 0));
        assert(crate::dist_corr_binary::count_pair(z21, 1, 0)
            == crate::dist_corr_binary::count_pair(z12, 0, 1));
        assert(crate::dist_corr_binary::count_pair(z21, 0, 1)
            == crate::dist_corr_binary::count_pair(z12, 1, 0));
        let a = crate::dist_corr_binary::count_pair(z12, 0, 1);
        let b = crate::dist_corr_binary::count_pair(z12, 1, 0);
        assert(a * b == b * a) by (nonlinear_arith);
    }
}

} // verus!
