//! Assembly of the scaled statistics: `n⁴·dCov²`, `n⁴·dVar²` and the triple
//! out of which `dCor` is formed, all in O(n log n).
//!
//! With `F` the Frobenius inner product of the two distance matrices and
//! `Aᵢ = Σⱼ|vᵢ−vⱼ|` the undivided grand means,
//!
//! `n⁴·dCov² = n²·F − 2n·Σ A¹ᵢA²ᵢ + (ΣA¹)(ΣA²)`,
//!
//! and for the variance the Frobenius part has the closed form
//! `F(v,v) = 2n·Σvᵢ² − 2(Σvᵢ)²`.

use vstd::prelude::*;

use crate::frob_inner_product::compute_frobenius_inner_product;
use crate::grand_mean::grand_means;
use crate::model::bounded_by;
use crate::model::clamp0;
use crate::model::dcov_sq_num;
use crate::model::dist_row;
use crate::model::dvar_sq_num;
use crate::model::frob;
use crate::model::ints;
use crate::model::is_sort_order;
use crate::model::lemma_rows_of_zipped;
use crate::model::non_decreasing;
use crate::model::pair_dist;
use crate::model::pair_row;
use crate::model::reordered;
use crate::model::row1;
use crate::model::row2;
use crate::model::tot;
use crate::model::zipped;
use crate::model::MAX_ABS_SAMPLE;
use crate::model::MAX_LEN;
use crate::ordering::Ordering;
use crate::sums::is_index_bijection;
use crate::sums::lemma_sum_of_abs_bound;
use crate::sums::lemma_sum_of_add;
use crate::sums::lemma_sum_of_bounds;
use crate::sums::lemma_sum_of_congruence;
use crate::sums::lemma_sum_of_const;
use crate::sums::lemma_sum_of_parallel;
use crate::sums::lemma_sum_of_scale;
use crate::sums::lemma_sum_of_take_all;
use crate::sums::lemma_sum_of_take_step;
use crate::sums::sum_of;

verus! {

/// The scaled ingredients of a distance correlation: `dCor² =
/// cov_num / √(var1_num · var2_num)` — the `n⁴` scales cancel.
#[derive(Clone, Copy, Debug)]
pub struct CorStats {
    /// `n⁴·dCov²`, with a numerically negative square replaced by 0.
    pub cov_num: i128,
    /// `n⁴·dVar²` of the first sample, likewise clamped.
    pub var1_num: i128,
    /// `n⁴·dVar²` of the second sample, likewise clamped.
    pub var2_num: i128,
}

/// `Σ (x−yᵢ)² = n·x² − 2x·Σyᵢ + Σyᵢ²`.
proof fn lemma_sum_sq_expand(s: Seq<int>, x: int)
    ensures
        sum_of(s, |y: int| (x - y) * (x - y)) == s.len() * (x * x) - 2 * x * tot(s) + sum_of(
            s,
            |y: int| y * y,
        ),
    decreases s.len(),
{
    if s.len() == 0 {
    } else {
        lemma_sum_sq_expand(s.drop_last(), x);
        let y = s.last();
        let n0 = s.drop_last().len() as int;
        let t0 = tot(s.drop_last());
        assert((x - y) * (x - y) == x * x - 2 * x * y + y * y) by (nonlinear_arith);
        assert((n0 + 1) * (x * x) == n0 * (x * x) + x * x) by (nonlinear_arith);
        assert(2 * x * (t0 + y) == 2 * x * t0 + 2 * x * y) by (nonlinear_arith);
    }
}

/// The Frobenius part of a variance in closed form:
/// `frob(zip(v,v)) = 2n·Σvᵢ² − 2(Σvᵢ)²`.
proof fn lemma_frob_self(v: Seq<int>)
    ensures
        frob(zipped(v, v)) == 2 * v.len() * sum_of(v, |y: int| y * y) - 2 * (tot(v) * tot(v)),
{
    let z = zipped(v, v);
    let n = v.len() as int;
    let q = sum_of(v, |y: int| y * y);
    let t = tot(v);
    assert forall|i: int| 0 <= i < z.len() implies #[trigger] pair_row(z, z[i]) == n * (v[i]
        * v[i]) - 2 * v[i] * t + q by {
        let x = v[i];
        assert forall|j: int| 0 <= j < z.len() implies pair_dist(z[i], #[trigger] z[j]) == (x
            - v[j]) * (x - v[j]) by {
            assert(crate::model::absd(x, v[j]) * crate::model::absd(x, v[j]) == (x - v[j]) * (x
                - v[j])) by (nonlinear_arith);
        }
        lemma_sum_of_parallel(
            z,
            v,
            |p2: (int, int)| pair_dist(z[i], p2),
            |y: int| (x - y) * (x - y),
        );
        lemma_sum_sq_expand(v, x);
    }
    lemma_sum_of_parallel(
        z,
        v,
        |p: (int, int)| pair_row(z, p),
        |y: int| n * (y * y) - 2 * y * t + q,
    );
    lemma_sum_of_add(
        v,
        |y: int| n * (y * y) - 2 * y * t,
        |y: int| q,
        |y: int| n * (y * y) - 2 * y * t + q,
    );
    lemma_sum_of_add(
        v,
        |y: int| n * (y * y),
        |y: int| -(2 * y * t),
        |y: int| n * (y * y) - 2 * y * t,
    );
    lemma_sum_of_scale(v, |y: int| y * y, |y: int| n * (y * y), n);
    assert forall|i: int| 0 <= i < v.len() implies -(2 * (#[trigger] v[i]) * t) == (-(2 * t))
        * v[i] by {
        assert(-(2 * v[i] * t) == (-(2 * t)) * v[i]) by (nonlinear_arith);
    }
    lemma_sum_of_scale(v, |y: int| y, |y: int| -(2 * y * t), -(2 * t));
    lemma_sum_of_const(v, |y: int| q, q);
    assert(n * q + ((-(2 * t)) * t + n * q) == 2 * n * q - 2 * (t * t)) by (nonlinear_arith);
}

/// Row-sum magnitudes of a bounded sample: `0 ≤ Aᵢ ≤ 2nm ≤ 2·10¹²`.
proof fn lemma_dist_row_range(v: Seq<int>, m: int)
    requires
        0 <= m <= 1_000_000,
        v.len() <= 1_000_000,
        bounded_by(v, m),
    ensures
        forall|x: int| -m <= x <= m ==> 0 <= #[trigger] dist_row(v, x) <= 2_000_000_000_000,
{
    assert forall|x: int| -m <= x <= m implies 0 <= #[trigger] dist_row(v, x)
        <= 2_000_000_000_000 by {
        lemma_sum_of_bounds(v, |y: int| crate::model::absd(x, y), 0, 2 * m);
        assert(v.len() * (2 * m) <= 2_000_000_000_000) by (nonlinear_arith)
            requires
                0 <= v.len() <= 1_000_000,
                0 <= m <= 1_000_000,
        ;
    }
}

/// `n⁴·dVar²` from a sample and its undivided grand means, by three running
/// sums and the closed Frobenius form.
pub fn dist_var_fast_helper(v: &Vec<i64>, gm: &Vec<i64>) -> (r: i128)
    requires
        v@.len() <= MAX_LEN,
        bounded_by(ints(v@), MAX_ABS_SAMPLE as int),
        gm@.len() == v@.len(),
        forall|i: int|
            0 <= i < v@.len() ==> (#[trigger] gm@[i]) as int == dist_row(ints(v@), ints(v@)[i]),
    ensures
        r as int == dvar_sq_num(ints(v@)),
{
    let n = v.len();
    let ghost s = ints(v@);
    let ghost a = ints(gm@);
    let ghost m = MAX_ABS_SAMPLE as int;
    let ghost fsq = |y: int| y * y;
    proof {
        lemma_dist_row_range(s, m);
        assert forall|i: int| 0 <= i < n implies 0 <= #[trigger] a[i] <= 2_000_000_000_000 by {
            assert(a[i] == gm@[i] as int);
            assert(a[i] == dist_row(s, s[i]));
        }
    }
    let mut sum: i128 = 0;
    let mut sumsq: i128 = 0;
    let mut sa: i128 = 0;
    let mut sa2: i128 = 0;
    let mut i: usize = 0;
    while i < n
        invariant
            i <= n,
            n == v@.len() && n == gm@.len() && n <= MAX_LEN,
            s == ints(v@) && a == ints(gm@),
            m == MAX_ABS_SAMPLE as int,
            fsq == (|y: int| y * y),
            bounded_by(s, m),
            forall|i2: int| 0 <= i2 < n ==> 0 <= #[trigger] a[i2] <= 2_000_000_000_000,
            sum as int == tot(s.take(i as int)),
            sumsq as int == sum_of(s.take(i as int), fsq),
            sa as int == tot(a.take(i as int)),
            sa2 as int == sum_of(a.take(i as int), fsq),
        decreases n - i,
    {
        proof {
            assert(0 <= m * m) by (nonlinear_arith)
                requires
                    0 <= m,
            ;
            assert forall|k: int| 0 <= k < s.take(i as int).len() implies -m <= #[trigger] s.take(
                i as int,
            )[k] <= m && -(m * m) <= s.take(i as int)[k] * s.take(i as int)[k] <= m * m by {
                assert(s.take(i as int)[k] == s[k]);
                assert(-(m * m) <= s[k] * s[k] <= m * m) by (nonlinear_arith)
                    requires
                        -m <= s[k] <= m,
                        0 <= m,
                ;
            }
            assert forall|k: int| 0 <= k < a.take(i as int).len() implies 0 <= #[trigger] a.take(
                i as int,
            )[k] <= 2_000_000_000_000 && 0 <= a.take(i as int)[k] * a.take(i as int)[k]
                <= 4_000_000_000_000_000_000_000_000 by {
                assert(a.take(i as int)[k] == a[k]);
                assert(0 <= a[k] * a[k] <= 4_000_000_000_000_000_000_000_000) by (nonlinear_arith)
                    requires
                        0 <= a[k] <= 2_000_000_000_000,
                ;
            }
            lemma_sum_of_abs_bound(s.take(i as int), |y: int| y, m);
            lemma_sum_of_abs_bound(s.take(i as int), fsq, m * m);
            lemma_sum_of_abs_bound(a.take(i as int), |y: int| y, 2_000_000_000_000);
            lemma_sum_of_abs_bound(a.take(i as int), fsq, 4_000_000_000_000_000_000_000_000);
            assert(s.take(i as int).len() == i && a.take(i as int).len() == i);
            assert(i * m <= 1_000_000_000_000 && i * (m * m) <= 1_000_000_000_000_000_000 && i
                * 2_000_000_000_000 <= 2_000_000_000_000_000_000 && i
                * 4_000_000_000_000_000_000_000_000 <= 4_000_000_000_000_000_000_000_000_000_000)
                by (nonlinear_arith)
                requires
                    0 <= i <= 1_000_000,
                    m == 1_000_000,
            ;
            lemma_sum_of_take_step(s, i as int, |y: int| y);
            lemma_sum_of_take_step(s, i as int, fsq);
            lemma_sum_of_take_step(a, i as int, |y: int| y);
            lemma_sum_of_take_step(a, i as int, fsq);
            assert(s[i as int] == v@[i as int] as int && a[i as int] == gm@[i as int] as int);
            assert(-(m * m) <= s[i as int] * s[i as int] <= m * m) by (nonlinear_arith)
                requires
                    -m <= s[i as int] <= m,
                    0 <= m,
            ;
            assert(0 <= a[i as int] * a[i as int] <= 4_000_000_000_000_000_000_000_000)
                by (nonlinear_arith)
                requires
                    0 <= a[i as int] <= 2_000_000_000_000,
            ;
        }
        let x = v[i];
        let g = gm[i];
        sum = sum + (x as i128);
        sumsq = sumsq + (x as i128) * (x as i128);
        sa = sa + (g as i128);
        sa2 = sa2 + (g as i128) * (g as i128);
        i += 1;
    }
    proof {
        lemma_sum_of_take_all(s, |y: int| y);
        lemma_sum_of_take_all(s, fsq);
        lemma_sum_of_take_all(a, |y: int| y);
        lemma_sum_of_take_all(a, fsq);
        assert(0 <= m * m) by (nonlinear_arith)
            requires
                0 <= m,
        ;
        assert forall|k: int| 0 <= k < s.len() implies -(m * m) <= (#[trigger] s[k]) * s[k] <= m
            * m by {
            assert(-(m * m) <= s[k] * s[k] <= m * m) by (nonlinear_arith)
                requires
                    -m <= s[k] <= m,
                    0 <= m,
            ;
        }
        assert forall|k: int| 0 <= k < a.len() implies 0 <= (#[trigger] a[k]) * a[k]
            <= 4_000_000_000_000_000_000_000_000 by {
            assert(0 <= a[k] * a[k] <= 4_000_000_000_000_000_000_000_000) by (nonlinear_arith)
                requires
                    0 <= a[k] <= 2_000_000_000_000,
            ;
        }
        lemma_sum_of_abs_bound(s, |y: int| y, m);
        lemma_sum_of_abs_bound(s, fsq, m * m);
        lemma_sum_of_bounds(a, |y: int| y, 0, 2_000_000_000_000);
        lemma_sum_of_bounds(a, fsq, 0, 4_000_000_000_000_000_000_000_000);
        assert(a.len() * 2_000_000_000_000 <= 2_000_000_000_000_000_000 && a.len()
            * 4_000_000_000_000_000_000_000_000 <= 4_000_000_000_000_000_000_000_000_000_000)
            by (nonlinear_arith)
            requires
                0 <= a.len() <= 1_000_000,
        ;
        assert(s.len() * m <= 1_000_000_000_000 && s.len() * (m * m) <= 1_000_000_000_000_000_000
            && a.len() * 2_000_000_000_000 <= 2_000_000_000_000_000_000 && a.len()
            * 4_000_000_000_000_000_000_000_000 <= 4_000_000_000_000_000_000_000_000_000_000)
            by (nonlinear_arith)
            requires
                0 <= s.len() <= 1_000_000,
                0 <= a.len() <= 1_000_000,
                m == 1_000_000,
        ;
    }
    let nn = n as i128;
    proof {
        let sumv = sum as int;
        let q = sumsq as int;
        let sav = sa as int;
        let sa2v = sa2 as int;
        let ni = n as int;
        assert(-2_000_000_000_000_000_000_000_000 <= 2 * ni * q
            <= 2_000_000_000_000_000_000_000_000 && -2_000_000_000_000_000_000_000_000 <= 2 * (sumv
            * sumv) <= 2_000_000_000_000_000_000_000_000 && 0 <= sav * sav
            <= 4_000_000_000_000_000_000_000_000_000_000_000_000 && -8
            * 1_000_000_000_000_000_000_000_000_000_000_000_000 <= 2 * ni * sa2v && 2 * ni * sa2v
            <= 8_000_000_000_000_000_000_000_000_000_000_000_000) by (nonlinear_arith)
            requires
                0 <= ni <= 1_000_000,
                -1_000_000_000_000_000_000 <= q <= 1_000_000_000_000_000_000,
                -1_000_000_000_000 <= sumv <= 1_000_000_000_000,
                0 <= sav <= 2_000_000_000_000_000_000,
                0 <= sa2v <= 4_000_000_000_000_000_000_000_000_000_000,
        ;
        assert(0 <= ni * ni <= 1_000_000_000_000) by (nonlinear_arith)
            requires
                0 <= ni <= 1_000_000,
        ;
        assert(-4_000_000_000_000_000_000_000_000_000_000_000_000 <= ni * ni * (2 * ni * q - 2 * (
        sumv * sumv)) <= 4_000_000_000_000_000_000_000_000_000_000_000_000) by (nonlinear_arith)
            requires
                0 <= ni <= 1_000_000,
                -4_000_000_000_000_000_000_000_000 <= 2 * ni * q - 2 * (sumv * sumv)
                    <= 4_000_000_000_000_000_000_000_000,
        ;
    }
    let r: i128 = nn * nn * (2 * nn * sumsq - 2 * (sum * sum)) - 2 * nn * sa2 + sa * sa;
    proof {
        let z = zipped(s, s);
        lemma_frob_self(s);
        lemma_rows_of_zipped(s, s);
        assert forall|i2: int| 0 <= i2 < z.len() implies row1(z, (#[trigger] z[i2]).0) * row2(
            z,
            z[i2].1,
        ) == fsq(a[i2]) && row1(z, z[i2].0) == a[i2] && row2(z, z[i2].1) == a[i2] by {
            assert(z[i2] == (s[i2], s[i2]));
            assert(row1(z, s[i2]) == dist_row(s, s[i2]));
            assert(row2(z, s[i2]) == dist_row(s, s[i2]));
            assert(a[i2] == dist_row(s, s[i2]));
        }
        lemma_sum_of_parallel(z, a, |p: (int, int)| row1(z, p.0) * row2(z, p.1), fsq);
        lemma_sum_of_parallel(z, a, |p: (int, int)| row1(z, p.0), |y: int| y);
        lemma_sum_of_parallel(z, a, |p: (int, int)| row2(z, p.1), |y: int| y);
        let ni = z.len() as int;
        assert(ni * ni * frob(z) == ni * ni * (2 * ni * (sumsq as int) - 2 * ((sum as int) * (
        sum as int))));
    }
    r
}

/// `n⁴·dCov²` from a co-ordered sample pair (second vector sorted) and the
/// two undivided grand-mean vectors.
pub fn dist_cov_fast_helper(
    v1: &Vec<i64>,
    v2: &Vec<i64>,
    grand_mean_v1: &Vec<i64>,
    grand_mean_v2: &Vec<i64>,
) -> (r: i128)
    requires
        v1@.len() == v2@.len(),
        v1@.len() <= MAX_LEN,
        bounded_by(ints(v1@), MAX_ABS_SAMPLE as int),
        bounded_by(ints(v2@), MAX_ABS_SAMPLE as int),
        non_decreasing(ints(v2@)),
        grand_mean_v1@.len() == v1@.len(),
        grand_mean_v2@.len() == v1@.len(),
        forall|i: int|
            0 <= i < v1@.len() ==> (#[trigger] grand_mean_v1@[i]) as int == dist_row(
                ints(v1@),
                ints(v1@)[i],
            ),
        forall|i: int|
            0 <= i < v1@.len() ==> (#[trigger] grand_mean_v2@[i]) as int == dist_row(
                ints(v2@),
                ints(v2@)[i],
            ),
    ensures
        r as int == dcov_sq_num(zipped(ints(v1@), ints(v2@))),
{
    let n = v1.len();
    let ghost s1 = ints(v1@);
    let ghost s2 = ints(v2@);
    let ghost z = zipped(s1, s2);
    let ghost zg = zipped(ints(grand_mean_v1@), ints(grand_mean_v2@));
    let ghost m = MAX_ABS_SAMPLE as int;
    let ghost fa = |p: (int, int)| p.0;
    let ghost fb = |p: (int, int)| p.1;
    let ghost fab = |p: (int, int)| p.0 * p.1;
    proof {
        lemma_dist_row_range(s1, m);
        lemma_dist_row_range(s2, m);
        assert forall|k: int| 0 <= k < zg.len() implies 0 <= (#[trigger] zg[k]).0
            <= 2_000_000_000_000 && 0 <= zg[k].1 <= 2_000_000_000_000 && 0 <= fab(zg[k])
            <= 4_000_000_000_000_000_000_000_000 by {
            assert(zg[k].0 == grand_mean_v1@[k] as int && zg[k].1 == grand_mean_v2@[k] as int);
            assert(zg[k].0 == dist_row(s1, s1[k]) && zg[k].1 == dist_row(s2, s2[k]));
            assert(0 <= zg[k].0 * zg[k].1 <= 4_000_000_000_000_000_000_000_000)
                by (nonlinear_arith)
                requires
                    0 <= zg[k].0 <= 2_000_000_000_000,
                    0 <= zg[k].1 <= 2_000_000_000_000,
            ;
        }
    }
    let prod = compute_frobenius_inner_product(v1, v2);
    let mut dot: i128 = 0;
    let mut t1: i128 = 0;
    let mut t2: i128 = 0;
    let mut i: usize = 0;
    while i < n
        invariant
            i <= n,
            n == v1@.len() && n == grand_mean_v1@.len() && n == grand_mean_v2@.len(),
            n <= MAX_LEN,
            zg == zipped(ints(grand_mean_v1@), ints(grand_mean_v2@)),
            fa == (|p: (int, int)| p.0),
            fb == (|p: (int, int)| p.1),
            fab == (|p: (int, int)| p.0 * p.1),
            forall|k: int|
                0 <= k < zg.len() ==> 0 <= (#[trigger] zg[k]).0 <= 2_000_000_000_000 && 0
                    <= zg[k].1 <= 2_000_000_000_000 && 0 <= fab(zg[k])
                    <= 4_000_000_000_000_000_000_000_000,
            dot as int == sum_of(zg.take(i as int), fab),
            t1 as int == sum_of(zg.take(i as int), fa),
            t2 as int == sum_of(zg.take(i as int), fb),
        decreases n - i,
    {
        proof {
            assert forall|k: int| 0 <= k < zg.take(i as int).len() implies 0 <= fa(
                #[trigger] zg.take(i as int)[k],
            ) <= 2_000_000_000_000 && 0 <= fb(zg.take(i as int)[k]) <= 2_000_000_000_000 && 0
                <= fab(zg.take(i as int)[k]) <= 4_000_000_000_000_000_000_000_000 by {
                assert(zg.take(i as int)[k] == zg[k]);
            }
            lemma_sum_of_bounds(zg.take(i as int), fa, 0, 2_000_000_000_000);
            lemma_sum_of_bounds(zg.take(i as int), fb, 0, 2_000_000_000_000);
            lemma_sum_of_bounds(zg.take(i as int), fab, 0, 4_000_000_000_000_000_000_000_000);
            assert(zg.take(i as int).len() == i);
            assert(i * 2_000_000_000_000 <= 2_000_000_000_000_000_000 && i
                * 4_000_000_000_000_000_000_000_000 <= 4_000_000_000_000_000_000_000_000_000_000)
                by (nonlinear_arith)
                requires
                    0 <= i <= 1_000_000,
            ;
            lemma_sum_of_take_step(zg, i as int, fa);
            lemma_sum_of_take_step(zg, i as int, fb);
            lemma_sum_of_take_step(zg, i as int, fab);
            assert(zg[i as int] == (grand_mean_v1@[i as int] as int, grand_mean_v2@[i as int]
                as int));
        }
        let g1 = grand_mean_v1[i];
        let g2 = grand_mean_v2[i];
        dot = dot + (g1 as i128) * (g2 as i128);
        t1 = t1 + (g1 as i128);
        t2 = t2 + (g2 as i128);
        i += 1;
    }
    proof {
        lemma_sum_of_take_all(zg, fa);
        lemma_sum_of_take_all(zg, fb);
        lemma_sum_of_take_all(zg, fab);
        lemma_sum_of_bounds(zg, fa, 0, 2_000_000_000_000);
        lemma_sum_of_bounds(zg, fb, 0, 2_000_000_000_000);
        lemma_sum_of_bounds(zg, fab, 0, 4_000_000_000_000_000_000_000_000);
        assert(zg.len() * 2_000_000_000_000 <= 2_000_000_000_000_000_000 && zg.len()
            * 4_000_000_000_000_000_000_000_000 <= 4_000_000_000_000_000_000_000_000_000_000)
            by (nonlinear_arith)
            requires
                0 <= zg.len() <= 1_000_000,
        ;
        // Magnitude of the Frobenius product.
        assert forall|k: int| 0 <= k < z.len() implies -m <= (#[trigger] z[k]).0 <= m && -m
            <= z[k].1 <= m by {
            assert(z[k] == (s1[k], s2[k]));
        }
        crate::model::lemma_dcov_sq_num_bounds(z, m);
        assert(4 * z.len() * z.len() * m * m <= 4_000_000_000_000_000_000_000_000)
            by (nonlinear_arith)
            requires
                0 <= z.len() <= 1_000_000,
                m == 1_000_000,
        ;
        let ni = n as int;
        assert(0 <= ni * ni <= 1_000_000_000_000) by (nonlinear_arith)
            requires
                0 <= ni <= 1_000_000,
        ;
        assert(-4_000_000_000_000_000_000_000_000_000_000_000_000 <= ni * ni * (prod as int)
            <= 4_000_000_000_000_000_000_000_000_000_000_000_000 && 0 <= 2 * ni * (dot as int)
            <= 8_000_000_000_000_000_000_000_000_000_000_000_000 && 0 <= (t1 as int) * (t2 as int)
            <= 4_000_000_000_000_000_000_000_000_000_000_000_000) by (nonlinear_arith)
            requires
                0 <= ni <= 1_000_000,
                -4_000_000_000_000_000_000_000_000 <= prod as int
                    <= 4_000_000_000_000_000_000_000_000,
                0 <= dot as int <= 4_000_000_000_000_000_000_000_000_000_000,
                0 <= t1 as int <= 2_000_000_000_000_000_000,
                0 <= t2 as int <= 2_000_000_000_000_000_000,
        ;
    }
    let nn = n as i128;
    let r: i128 = nn * nn * prod - 2 * nn * dot + t1 * t2;
    proof {
        crate::model::lemma_rows_of_zipped(s1, s2);
        assert forall|k: int| 0 <= k < z.len() implies row1(z, (#[trigger] z[k]).0) * row2(
            z,
            z[k].1,
        ) == fab(zg[k]) && row1(z, z[k].0) == fa(zg[k]) && row2(z, z[k].1) == fb(zg[k]) by {
            assert(z[k] == (s1[k], s2[k]));
            assert(zg[k] == (ints(grand_mean_v1@)[k], ints(grand_mean_v2@)[k]));
            assert(row1(z, s1[k]) == dist_row(s1, s1[k]));
            assert(row2(z, s2[k]) == dist_row(s2, s2[k]));
            assert(zg[k].0 == dist_row(s1, s1[k]) && zg[k].1 == dist_row(s2, s2[k]));
        }
        lemma_sum_of_parallel(z, zg, |p: (int, int)| row1(z, p.0) * row2(z, p.1), fab);
        lemma_sum_of_parallel(z, zg, |p: (int, int)| row1(z, p.0), fa);
        lemma_sum_of_parallel(z, zg, |p: (int, int)| row2(z, p.1), fb);
    }
    r
}

/// The grand means of a sample together with its `n⁴·dVar²`: the two halves
/// of each arm of the fork/join below.
pub fn grand_means_and_var(v: &Vec<i64>, order: Option<&Vec<usize>>) -> (r: (Vec<i64>, i128))
    requires
        v@.len() <= MAX_LEN,
        bounded_by(ints(v@), MAX_ABS_SAMPLE as int),
        match order {
            Some(ord) => is_sort_order(ord@, ints(v@)),
            None => non_decreasing(ints(v@)),
        },
    ensures
        r.0@.len() == v@.len(),
        forall|i: int|
            0 <= i < v@.len() ==> (#[trigger] r.0@[i]) as int == dist_row(ints(v@), ints(v@)[i]),
        r.1 as int == dvar_sq_num(ints(v@)),
{
    let gm = grand_means(v, order);
    let var = dist_var_fast_helper(v, &gm);
    (gm, var)
}

/// Relies on rayon's `join`: it runs the two closures — each a single call of
/// a verified function of this crate — to completion, in parallel when a
/// worker is free, and returns exactly their two results.
#[verifier::external_body]
fn par_grand_means_and_var(v1: &Vec<i64>, ord1: &Vec<usize>, v2: &Vec<i64>) -> (r: ((
    Vec<i64>,
    i128,
), (Vec<i64>, i128)))
    requires
        v1@.len() <= MAX_LEN,
        bounded_by(ints(v1@), MAX_ABS_SAMPLE as int),
        is_sort_order(ord1@, ints(v1@)),
        v2@.len() <= MAX_LEN,
        bounded_by(ints(v2@), MAX_ABS_SAMPLE as int),
        non_decreasing(ints(v2@)),
    ensures
        r.0.0@.len() == v1@.len(),
        forall|i: int|
            0 <= i < v1@.len() ==> (#[trigger] r.0.0@[i]) as int == dist_row(
                ints(v1@),
                ints(v1@)[i],
            ),
        r.0.1 as int == dvar_sq_num(ints(v1@)),
        r.1.0@.len() == v2@.len(),
        forall|i: int|
            0 <= i < v2@.len() ==> (#[trigger] r.1.0@[i]) as int == dist_row(
                ints(v2@),
                ints(v2@)[i],
            ),
        r.1.1 as int == dvar_sq_num(ints(v2@)),
{
    rayon::join(|| grand_means_and_var(v1, Some(ord1)), || grand_means_and_var(v2, None))
}

/// `n⁴·dVar²` of a sample, in O(n log n).
pub fn dist_var_fast(v: &Vec<i64>) -> (r: i128)
    requires
        1 <= v@.len() <= MAX_LEN,
        bounded_by(ints(v@), MAX_ABS_SAMPLE as int),
    ensures
        r as int == dvar_sq_num(ints(v@)),
{
    let ord = crate::ordering::sort_perm(v);
    let gm = grand_means(v, Some(&ord));
    dist_var_fast_helper(v, &gm)
}

/// `n⁴·dCov²` of a sample pair, in O(n log n).
pub fn dist_cov_fast(v1: &Vec<i64>, v2: &Vec<i64>) -> (r: i128)
    requires
        v1@.len() == v2@.len(),
        1 <= v1@.len() <= MAX_LEN,
        bounded_by(ints(v1@), MAX_ABS_SAMPLE as int),
        bounded_by(ints(v2@), MAX_ABS_SAMPLE as int),
    ensures
        r as int == dcov_sq_num(zipped(ints(v1@), ints(v2@))),
{
    let o = Ordering::order_wrt_v2(v1, v2, true);
    let ghost ord = choose|ord: Seq<usize>|
        is_index_bijection(ord, v1@.len()) && o.v1_per@ == reordered(v1@, ord) && o.v2_ord@
            == reordered(v2@, ord);
    proof {
        assert forall|k: int| 0 <= k < o.v1_per@.len() implies -(MAX_ABS_SAMPLE as int)
            <= #[trigger] ints(o.v1_per@)[k] <= MAX_ABS_SAMPLE as int by {
            assert(o.v1_per@[k] == v1@[ord[k] as int]);
            assert(ints(v1@)[ord[k] as int] == v1@[ord[k] as int] as int);
        }
        assert forall|k: int| 0 <= k < o.v2_ord@.len() implies -(MAX_ABS_SAMPLE as int)
            <= #[trigger] ints(o.v2_ord@)[k] <= MAX_ABS_SAMPLE as int by {
            assert(o.v2_ord@[k] == v2@[ord[k] as int]);
            assert(ints(v2@)[ord[k] as int] == v2@[ord[k] as int] as int);
        }
        assert(bounded_by(ints(o.v1_per@), MAX_ABS_SAMPLE as int));
        assert(bounded_by(ints(o.v2_ord@), MAX_ABS_SAMPLE as int));
    }
    let ord1 = match o.order_v1_per {
        Some(x) => x,
        None => Vec::new(),
    };
    let gm1 = grand_means(&o.v1_per, Some(&ord1));
    let gm2 = grand_means(&o.v2_ord, None);
    dist_cov_fast_helper(&o.v1_per, &o.v2_ord, &gm1, &gm2)
}

/// The scaled ingredients of the distance correlation of a sample pair:
/// `n⁴·dCov²` and the two `n⁴·dVar²`, each clamped at zero, so that
/// `dCor = √(cov/√(var₁·var₂))` (0 when a variance vanishes).  The two
/// variance reductions run on the fork/join pool.
pub fn dist_corr_fast(v1: &Vec<i64>, v2: &Vec<i64>) -> (r: CorStats)
    requires
        v1@.len() == v2@.len(),
        1 <= v1@.len() <= MAX_LEN,
        bounded_by(ints(v1@), MAX_ABS_SAMPLE as int),
        bounded_by(ints(v2@), MAX_ABS_SAMPLE as int),
    ensures
        r.cov_num as int == clamp0(dcov_sq_num(zipped(ints(v1@), ints(v2@)))),
        r.var1_num as int == clamp0(dvar_sq_num(ints(v1@))),
        r.var2_num as int == clamp0(dvar_sq_num(ints(v2@))),
{
    let o = Ordering::order_wrt_v2(v1, v2, true);
    let ghost ord = choose|ord: Seq<usize>|
        is_index_bijection(ord, v1@.len()) && o.v1_per@ == reordered(v1@, ord) && o.v2_ord@
            == reordered(v2@, ord);
    proof {
        assert forall|k: int| 0 <= k < o.v1_per@.len() implies -(MAX_ABS_SAMPLE as int)
            <= #[trigger] ints(o.v1_per@)[k] <= MAX_ABS_SAMPLE as int by {
            assert(o.v1_per@[k] == v1@[ord[k] as int]);
            assert(ints(v1@)[ord[k] as int] == v1@[ord[k] as int] as int);
        }
        assert forall|k: int| 0 <= k < o.v2_ord@.len() implies -(MAX_ABS_SAMPLE as int)
            <= #[trigger] ints(o.v2_ord@)[k] <= MAX_ABS_SAMPLE as int by {
            assert(o.v2_ord@[k] == v2@[ord[k] as int]);
            assert(ints(v2@)[ord[k] as int] == v2@[ord[k] as int] as int);
        }
        assert(bounded_by(ints(o.v1_per@), MAX_ABS_SAMPLE as int));
        assert(bounded_by(ints(o.v2_ord@), MAX_ABS_SAMPLE as int));
    }
    let ord1 = match o.order_v1_per {
        Some(x) => x,
        None => Vec::new(),
    };
    let halves = par_grand_means_and_var(&o.v1_per, &ord1, &o.v2_ord);
    let (gm1, var1) = halves.0;
    let (gm2, var2) = halves.1;
    let cov = dist_cov_fast_helper(&o.v1_per, &o.v2_ord, &gm1, &gm2);
    proof {
        // The variances of the permuted samples are those of the originals.
        assert(zipped(ints(o.v1_per@), ints(o.v1_per@)) =~= crate::model::reordered(
            zipped(ints(v1@), ints(v1@)),
            ord,
        ));
        crate::model::lemma_dcov_sq_num_reindex(zipped(ints(v1@), ints(v1@)), ord);
        assert(zipped(ints(o.v2_ord@), ints(o.v2_ord@)) =~= crate::model::reordered(
            zipped(ints(v2@), ints(v2@)),
            ord,
        ));
        crate::model::lemma_dcov_sq_num_reindex(zipped(ints(v2@), ints(v2@)), ord);
    }
    CorStats {
        cov_num: if cov < 0 {
            0
        } else {
            cov
        },
        var1_num: if var1 < 0 {
            0
        } else {
            var1
        },
        var2_num: if var2 < 0 {
            0
        } else {
            var2
        },
    }
}

} // verus!
