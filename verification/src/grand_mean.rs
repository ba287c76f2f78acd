//! Grand means of a one-dimensional distance matrix in O(n).
//!
//! For a sample `v` of length `n`, the `i`-th grand mean is
//! `(1/n)·Σⱼ |vᵢ − vⱼ|`.  These routines return the undivided row sums
//! `Σⱼ |vᵢ − vⱼ|` (and, in the weighted variant, `Σⱼ |vᵢ − vⱼ|·wⱼ`), each
//! proved equal to its defining sum by the sorted-vector telescoping
//! identity: when `w` is `v` in ascending order,
//! `Σⱼ |w[k] − wⱼ| = (2k+1−n)·w[k] − Σ_{m<k} w[m] + Σ_{m>k} w[m]`.

use vstd::prelude::*;

use crate::model::absd;
use crate::model::bounded_by;
use crate::model::dist_row;
use crate::model::dist_row_weighted;
use crate::model::ints;
use crate::model::is_sort_order;
use crate::model::lemma_dist_row_reindex;
use crate::model::non_decreasing;
use crate::model::reordered;
use crate::model::tot;
use crate::model::zipped;
use crate::model::MAX_ABS_SAMPLE;
use crate::model::MAX_LEN;
use crate::sums::hits_index;
use crate::sums::lemma_sum_of_abs_bound;
use crate::sums::lemma_sum_of_add;
use crate::sums::lemma_sum_of_bounds;
use crate::sums::lemma_sum_of_concat;
use crate::sums::lemma_sum_of_congruence;
use crate::sums::lemma_sum_of_minus_from;
use crate::sums::lemma_sum_of_minus_to;
use crate::sums::lemma_sum_of_scale;
use crate::sums::lemma_sum_of_singleton;
use crate::sums::lemma_sum_of_split_at;
use crate::sums::lemma_sum_of_take_all;
use crate::sums::lemma_sum_of_take_step;
use crate::sums::sum_of;

verus! {

/// The telescoping identity for a sorted sample: the row sum at rank `k` is
/// `(2k+1−n)·w[k] − Σ_{m<k} w[m] + Σ_{m>k} w[m]`.
proof fn lemma_dist_row_telescope(w: Seq<int>, k: int)
    requires
        non_decreasing(w),
        0 <= k < w.len(),
    ensures
        dist_row(w, w[k]) == (2 * k + 1 - w.len()) * w[k] - tot(w.take(k)) + tot(w.skip(k + 1)),
        tot(w) == tot(w.take(k)) + w[k] + tot(w.skip(k + 1)),
{
    let n = w.len() as int;
    let x = w[k];
    let f = |y: int| absd(x, y);
    let idf = |y: int| y;
    lemma_sum_of_split_at(w, k, f);
    lemma_sum_of_split_at(w, k, idf);
    assert(w.skip(k) =~= seq![x] + w.skip(k + 1));
    lemma_sum_of_concat(seq![x], w.skip(k + 1), f);
    lemma_sum_of_concat(seq![x], w.skip(k + 1), idf);
    lemma_sum_of_singleton(x, f);
    lemma_sum_of_singleton(x, idf);
    assert forall|i: int| 0 <= i < w.take(k).len() implies f(#[trigger] w.take(k)[i]) == x
        - w.take(k)[i] by {
        assert(w[i] <= w[k]);
    }
    lemma_sum_of_congruence(w.take(k), f, |y: int| x - y);
    lemma_sum_of_minus_from(w.take(k), x);
    assert forall|i: int| 0 <= i < w.skip(k + 1).len() implies f(#[trigger] w.skip(k + 1)[i])
        == w.skip(k + 1)[i] - x by {
        assert(w[k] <= w[k + 1 + i]);
    }
    lemma_sum_of_congruence(w.skip(k + 1), f, |y: int| y - x);
    lemma_sum_of_minus_to(w.skip(k + 1), x);
    assert(k * x - (n - 1 - k) * x == (2 * k + 1 - n) * x) by (nonlinear_arith);
}

/// Row sums against `v` of the grand-mean computation, for a sample in any
/// order accompanied by a sorting permutation.  When `order` is `None` the
/// sample must already be sorted ascending.  Entry `i` of the result is
/// `Σⱼ |v[i] − v[j]|`, indexed as `v` is.
pub fn grand_means(v: &Vec<i64>, order: Option<&Vec<usize>>) -> (out: Vec<i64>)
    requires
        v@.len() <= MAX_LEN,
        bounded_by(ints(v@), MAX_ABS_SAMPLE as int),
        match order {
            Some(ord) => is_sort_order(ord@, ints(v@)),
            None => non_decreasing(ints(v@)),
        },
    ensures
        out@.len() == v@.len(),
        forall|i: int|
            0 <= i < v@.len() ==> (#[trigger] out@[i]) as int == dist_row(
                ints(v@),
                ints(v@)[i],
            ),
{
    match order {
        Some(ord) => grand_means_with(v, ord),
        None => {
            let n = v.len();
            let mut id: Vec<usize> = Vec::new();
            let mut k: usize = 0;
            while k < n
                invariant
                    k <= n,
                    id@.len() == k,
                    forall|m: int| 0 <= m < k ==> #[trigger] id@[m] == m as usize,
                decreases n - k,
            {
                id.push(k);
                k += 1;
            }
            proof {
                let s = ints(v@);
                assert forall|p: int| 0 <= p < n implies #[trigger] hits_index(id@, p) by {
                    assert(id@[p] == p as usize);
                }
                assert(is_sort_order(id@, s));
            }
            grand_means_with(v, &id)
        },
    }
}

/// The shared sweep: walk the sample in ascending order through `ord`,
/// maintaining the running prefix sum, and write each row sum back to the
/// position the sample point came from.
fn grand_means_with(v: &Vec<i64>, ord: &Vec<usize>) -> (out: Vec<i64>)
    requires
        v@.len() <= MAX_LEN,
        bounded_by(ints(v@), MAX_ABS_SAMPLE as int),
        is_sort_order(ord@, ints(v@)),
    ensures
        out@.len() == v@.len(),
        forall|i: int|
            0 <= i < v@.len() ==> (#[trigger] out@[i]) as int == dist_row(
                ints(v@),
                ints(v@)[i],
            ),
{
    let n = v.len();
    let ghost s = ints(v@);
    let ghost w = reordered(s, ord@);
    let ghost m = MAX_ABS_SAMPLE as int;
    proof {
        assert(w =~= Seq::new(ord@.len(), |k: int| s[ord@[k] as int]));
        assert forall|i: int, j: int| 0 <= i <= j < w.len() implies #[trigger] w[i]
            <= #[trigger] w[j] by {
            assert(s[ord@[i] as int] <= s[ord@[j] as int]);
        }
        assert(bounded_by(w, m));
        lemma_dist_row_reindex(s, ord@);
    }

    // Total of the sample.
    let mut total: i64 = 0;
    let mut i: usize = 0;
    while i < n
        invariant
            i <= n,
            n == v@.len(),
            n <= MAX_LEN,
            bounded_by(s, m),
            s == ints(v@),
            m == MAX_ABS_SAMPLE as int,
            total as int == tot(s.take(i as int)),
        decreases n - i,
    {
        proof {
            lemma_sum_of_abs_bound(s.take(i as int), |y: int| y, m);
            assert(s.take(i as int).len() == i);
            assert(i * m <= 1_000_000_000_000) by (nonlinear_arith)
                requires
                    0 <= i <= 1_000_000,
                    0 <= m <= 1_000_000,
            ;
            lemma_sum_of_take_step(s, i as int, |y: int| y);
            assert(s[i as int] == v@[i as int] as int);
        }
        total = total + v[i];
        i += 1;
    }
    proof {
        lemma_sum_of_take_all(s, |y: int| y);
    }

    let mut out: Vec<i64> = Vec::new();
    let mut k: usize = 0;
    while k < n
        invariant
            k <= n,
            out@.len() == k,
        decreases n - k,
    {
        out.push(0);
        k += 1;
    }

    // The sweep in ascending order.
    let mut pre: i64 = 0;
    let mut k: usize = 0;
    while k < n
        invariant
            k <= n,
            n == v@.len(),
            n <= MAX_LEN,
            out@.len() == n,
            ord@.len() == n,
            s == ints(v@),
            m == MAX_ABS_SAMPLE as int,
            bounded_by(s, m),
            bounded_by(w, m),
            is_sort_order(ord@, s),
            w == reordered(s, ord@),
            non_decreasing(w),
            total as int == tot(s),
            tot(w) == tot(s),
            forall|x: int| #[trigger] dist_row(w, x) == dist_row(s, x),
            pre as int == tot(w.take(k as int)),
            forall|k2: int|
                0 <= k2 < k ==> (#[trigger] out@[ord@[k2] as int]) as int == dist_row(
                    s,
                    s[ord@[k2] as int],
                ),
        decreases n - k,
    {
        let pos = ord[k];
        proof {
            assert(ord@[k as int] < n);
        }
        let vk = v[pos];
        let ghost x = s[pos as int];
        proof {
            assert(w[k as int] == x);
            lemma_dist_row_telescope(w, k as int);
            lemma_sum_of_abs_bound(w.take(k as int), |y: int| y, m);
            assert(w.take(k as int).len() == k);
            assert(k * m <= 1_000_000_000_000) by (nonlinear_arith)
                requires
                    0 <= k <= 1_000_000,
                    0 <= m <= 1_000_000,
            ;
            lemma_sum_of_bounds(w, |y: int| absd(x, y), 0, 2 * m);
            assert(w.len() * (2 * m) <= 4_000_000_000_000) by (nonlinear_arith)
                requires
                    0 <= w.len() <= 1_000_000,
                    0 <= m <= 1_000_000,
            ;
            assert((2 * (k as int) - (n as int)) * x >= -2_000_000_000_000_000_000
                && (2 * (k as int) - (n as int)) * x <= 2_000_000_000_000_000_000)
                by (nonlinear_arith)
                requires
                    0 <= k <= n <= 1_000_000,
                    -1_000_000 <= x <= 1_000_000,
            ;
        }
        let a: i128 = (2 * (k as i128) - (n as i128)) * (vk as i128) + (total as i128) - 2 * (
        pre as i128);
        proof {
            // suffix sum = total − prefix − w[k]
            assert(tot(w.skip(k as int + 1)) == tot(w) - tot(w.take(k as int)) - x);
            assert(a as int == (2 * (k as int) + 1 - n as int) * x - tot(w.take(k as int)) + tot(
                w.skip(k as int + 1),
            )) by (nonlinear_arith)
                requires
                    a as int == (2 * (k as int) - (n as int)) * x + tot(w) - 2 * tot(
                        w.take(k as int),
                    ),
                    tot(w.skip(k as int + 1)) == tot(w) - tot(w.take(k as int)) - x,
            ;
            assert(a as int == dist_row(w, x));
            assert(a as int == dist_row(s, x));
            assert(0 <= a as int <= 4_000_000_000_000);
        }
        out.set(pos, a as i64);
        proof {
            lemma_sum_of_take_step(w, k as int, |y: int| y);
        }
        pre = pre + vk;
        k += 1;
        proof {
            assert forall|k2: int| 0 <= k2 < k implies (#[trigger] out@[ord@[k2] as int]) as int
                == dist_row(s, s[ord@[k2] as int]) by {
                if k2 + 1 < k {
                    assert(ord@[k2] != ord@[k as int - 1]);
                }
            }
        }
    }
    proof {
        assert forall|i2: int| 0 <= i2 < v@.len() implies (#[trigger] out@[i2]) as int == dist_row(
            s,
            s[i2],
        ) by {
            assert(hits_index(ord@, i2));
            let k2 = choose|k2: int| 0 <= k2 < ord@.len() && (ord@[k2]) == i2;
            assert(out@[ord@[k2] as int] as int == dist_row(s, s[ord@[k2] as int]));
        }
    }
    out
}

/// `Σ (x − aᵢ)·bᵢ = x·Σbᵢ − Σ aᵢbᵢ` over a sequence of pairs.
proof fn lemma_sum_weighted_from(s: Seq<(int, int)>, x: int)
    ensures
        sum_of(s, |q: (int, int)| (x - q.0) * q.1) == x * sum_of(s, |q: (int, int)| q.1) - sum_of(
            s,
            |q: (int, int)| q.0 * q.1,
        ),
{
    assert forall|i: int| 0 <= i < s.len() implies (x - (#[trigger] s[i]).0) * s[i].1 == x
        * s[i].1 + -(s[i].0 * s[i].1) by {
        assert((x - s[i].0) * s[i].1 == x * s[i].1 + -(s[i].0 * s[i].1)) by (nonlinear_arith);
    }
    lemma_sum_of_add(
        s,
        |q: (int, int)| x * q.1,
        |q: (int, int)| -(q.0 * q.1),
        |q: (int, int)| (x - q.0) * q.1,
    );
    lemma_sum_of_scale(s, |q: (int, int)| q.1, |q: (int, int)| x * q.1, x);
    lemma_sum_of_scale(s, |q: (int, int)| q.0 * q.1, |q: (int, int)| -(q.0 * q.1), -1);
}

/// `Σ (aᵢ − x)·bᵢ = Σ aᵢbᵢ − x·Σbᵢ` over a sequence of pairs.
proof fn lemma_sum_weighted_to(s: Seq<(int, int)>, x: int)
    ensures
        sum_of(s, |q: (int, int)| (q.0 - x) * q.1) == sum_of(s, |q: (int, int)| q.0 * q.1) - x
            * sum_of(s, |q: (int, int)| q.1),
{
    assert forall|i: int| 0 <= i < s.len() implies ((#[trigger] s[i]).0 - x) * s[i].1 == s[i].0
        * s[i].1 + -(x * s[i].1) by {
        assert((s[i].0 - x) * s[i].1 == s[i].0 * s[i].1 + -(x * s[i].1)) by (nonlinear_arith);
    }
    lemma_sum_of_add(
        s,
        |q: (int, int)| q.0 * q.1,
        |q: (int, int)| -(x * q.1),
        |q: (int, int)| (q.0 - x) * q.1,
    );
    assert forall|i: int| 0 <= i < s.len() implies -(x * (#[trigger] s[i]).1) == (-x)
        * s[i].1 by {
        assert(-(x * s[i].1) == (-x) * s[i].1) by (nonlinear_arith);
    }
    lemma_sum_of_scale(s, |q: (int, int)| q.1, |q: (int, int)| -(x * q.1), -x);
    let sw = sum_of(s, |q: (int, int)| q.1);
    assert((-x) * sw == -(x * sw)) by (nonlinear_arith);
}

/// The weighted telescoping identity at rank `k` of a sample whose first
/// coordinates are sorted ascending.
proof fn lemma_dist_row_weighted_telescope(zw: Seq<(int, int)>, k: int)
    requires
        forall|i: int, j: int|
            0 <= i <= j < zw.len() ==> (#[trigger] zw[i]).0 <= (#[trigger] zw[j]).0,
        0 <= k < zw.len(),
    ensures
        sum_of(zw, |q: (int, int)| absd(zw[k].0, q.0) * q.1) == zw[k].0 * sum_of(
            zw.take(k),
            |q: (int, int)| q.1,
        ) - sum_of(zw.take(k), |q: (int, int)| q.0 * q.1) + sum_of(
            zw.skip(k + 1),
            |q: (int, int)| q.0 * q.1,
        ) - zw[k].0 * sum_of(zw.skip(k + 1), |q: (int, int)| q.1),
        sum_of(zw, |q: (int, int)| q.1) == sum_of(zw.take(k), |q: (int, int)| q.1) + zw[k].1
            + sum_of(zw.skip(k + 1), |q: (int, int)| q.1),
        sum_of(zw, |q: (int, int)| q.0 * q.1) == sum_of(zw.take(k), |q: (int, int)| q.0 * q.1)
            + zw[k].0 * zw[k].1 + sum_of(zw.skip(k + 1), |q: (int, int)| q.0 * q.1),
{
    let x = zw[k].0;
    let f = |q: (int, int)| absd(x, q.0) * q.1;
    let fw = |q: (int, int)| q.1;
    let fp = |q: (int, int)| q.0 * q.1;
    lemma_sum_of_split_at(zw, k, f);
    lemma_sum_of_split_at(zw, k, fw);
    lemma_sum_of_split_at(zw, k, fp);
    assert(zw.skip(k) =~= seq![zw[k]] + zw.skip(k + 1));
    lemma_sum_of_concat(seq![zw[k]], zw.skip(k + 1), f);
    lemma_sum_of_concat(seq![zw[k]], zw.skip(k + 1), fw);
    lemma_sum_of_concat(seq![zw[k]], zw.skip(k + 1), fp);
    lemma_sum_of_singleton(zw[k], f);
    lemma_sum_of_singleton(zw[k], fw);
    lemma_sum_of_singleton(zw[k], fp);
    assert(f(zw[k]) == 0) by {
        assert(absd(x, zw[k].0) == 0);
    }
    assert forall|i: int| 0 <= i < zw.take(k).len() implies f(#[trigger] zw.take(k)[i]) == (x
        - zw.take(k)[i].0) * zw.take(k)[i].1 by {
        assert(zw[i].0 <= zw[k].0);
    }
    lemma_sum_of_congruence(zw.take(k), f, |q: (int, int)| (x - q.0) * q.1);
    lemma_sum_weighted_from(zw.take(k), x);
    assert forall|i: int| 0 <= i < zw.skip(k + 1).len() implies f(#[trigger] zw.skip(k + 1)[i])
        == (zw.skip(k + 1)[i].0 - x) * zw.skip(k + 1)[i].1 by {
        assert(zw[k].0 <= zw[k + 1 + i].0);
    }
    lemma_sum_of_congruence(zw.skip(k + 1), f, |q: (int, int)| (q.0 - x) * q.1);
    lemma_sum_weighted_to(zw.skip(k + 1), x);
}

/// The matrix–vector product of the pairwise-distance matrix of the sorted
/// sample `v` with the weight vector `w`, in O(n): entry `i` of the result is
/// `Σⱼ |v[i] − v[j]|·w[j]`.
pub fn grand_means_weighted(v: &Vec<i64>, w: &Vec<i64>) -> (out: Vec<i64>)
    requires
        v@.len() == w@.len(),
        v@.len() <= MAX_LEN,
        bounded_by(ints(v@), MAX_ABS_SAMPLE as int),
        bounded_by(ints(w@), MAX_ABS_SAMPLE as int),
        non_decreasing(ints(v@)),
    ensures
        out@.len() == v@.len(),
        forall|i: int|
            0 <= i < v@.len() ==> (#[trigger] out@[i]) as int == dist_row_weighted(
                ints(v@),
                ints(w@),
                ints(v@)[i],
            ),
{
    let n = v.len();
    let ghost s = ints(v@);
    let ghost t = ints(w@);
    let ghost zw = zipped(s, t);
    let ghost m = MAX_ABS_SAMPLE as int;
    let ghost fw = |q: (int, int)| q.1;
    let ghost fp = |q: (int, int)| q.0 * q.1;
    proof {
        assert(zw.len() == n);
        assert forall|i: int| 0 <= i < zw.len() implies -m <= (#[trigger] zw[i]).0 <= m && -m
            <= zw[i].1 <= m && -(m * m) <= fp(zw[i]) <= m * m by {
            assert(-m <= s[i] <= m && -m <= t[i] <= m);
            assert(-(m * m) <= s[i] * t[i] <= m * m) by (nonlinear_arith)
                requires
                    -m <= s[i] <= m,
                    -m <= t[i] <= m,
                    0 <= m,
            ;
        }
    }

    // Totals of the weights and of the products.
    let mut wtot: i128 = 0;
    let mut ptot: i128 = 0;
    let mut j: usize = 0;
    while j < n
        invariant
            j <= n,
            n == v@.len() && n == w@.len() && n <= MAX_LEN,
            s == ints(v@) && t == ints(w@) && zw == zipped(s, t),
            m == MAX_ABS_SAMPLE as int,
            fw == (|q: (int, int)| q.1),
            fp == (|q: (int, int)| q.0 * q.1),
            wtot as int == sum_of(zw.take(j as int), fw),
            ptot as int == sum_of(zw.take(j as int), fp),
            forall|i: int|
                0 <= i < zw.len() ==> -m <= (#[trigger] zw[i]).0 <= m && -m <= zw[i].1 <= m && -(m
                    * m) <= fp(zw[i]) <= m * m,
        decreases n - j,
    {
        proof {
            assert(0 <= m * m) by (nonlinear_arith)
                requires
                    0 <= m,
            ;
            lemma_sum_of_abs_bound(zw.take(j as int), fw, m);
            lemma_sum_of_abs_bound(zw.take(j as int), fp, m * m);
            assert(zw.take(j as int).len() == j);
            assert(j * m <= 1_000_000_000_000 && j * (m * m) <= 1_000_000_000_000_000_000)
                by (nonlinear_arith)
                requires
                    0 <= j <= 1_000_000,
                    m == 1_000_000,
            ;
            lemma_sum_of_take_step(zw, j as int, fw);
            lemma_sum_of_take_step(zw, j as int, fp);
            assert(zw[j as int] == (s[j as int], t[j as int]));
            assert(-(m * m) <= (v@[j as int] as int) * (w@[j as int] as int) <= m * m)
                by (nonlinear_arith)
                requires
                    -m <= v@[j as int] as int <= m,
                    -m <= w@[j as int] as int <= m,
                    0 <= m,
            ;
        }
        wtot = wtot + (w[j] as i128);
        ptot = ptot + (v[j] as i128) * (w[j] as i128);
        j += 1;
    }
    proof {
        lemma_sum_of_take_all(zw, fw);
        lemma_sum_of_take_all(zw, fp);
    }

    // The sweep: running prefix sums of the weights and of the products.
    let mut out: Vec<i64> = Vec::new();
    let mut wpre: i128 = 0;
    let mut ppre: i128 = 0;
    let mut k: usize = 0;
    while k < n
        invariant
            k <= n,
            n == v@.len() && n == w@.len() && n <= MAX_LEN,
            s == ints(v@) && t == ints(w@) && zw == zipped(s, t),
            m == MAX_ABS_SAMPLE as int,
            fw == (|q: (int, int)| q.1),
            fp == (|q: (int, int)| q.0 * q.1),
            non_decreasing(s),
            out@.len() == k,
            wtot as int == sum_of(zw, fw),
            ptot as int == sum_of(zw, fp),
            wpre as int == sum_of(zw.take(k as int), fw),
            ppre as int == sum_of(zw.take(k as int), fp),
            forall|i: int|
                0 <= i < zw.len() ==> -m <= (#[trigger] zw[i]).0 <= m && -m <= zw[i].1 <= m && -(m
                    * m) <= fp(zw[i]) <= m * m,
            forall|i: int|
                0 <= i < k ==> (#[trigger] out@[i]) as int == dist_row_weighted(s, t, s[i]),
        decreases n - k,
    {
        let ghost x = s[k as int];
        proof {
            assert forall|i1: int, j1: int| 0 <= i1 <= j1 < zw.len() implies (#[trigger] zw[i1]).0
                <= (#[trigger] zw[j1]).0 by {
                assert(s[i1] <= s[j1]);
            }
            lemma_dist_row_weighted_telescope(zw, k as int);
            assert(0 <= m * m) by (nonlinear_arith)
                requires
                    0 <= m,
            ;
            lemma_sum_of_abs_bound(zw.take(k as int), fw, m);
            lemma_sum_of_abs_bound(zw.take(k as int), fp, m * m);
            lemma_sum_of_abs_bound(zw.skip(k as int + 1), fw, m);
            lemma_sum_of_abs_bound(zw.skip(k as int + 1), fp, m * m);
            lemma_sum_of_abs_bound(zw, fw, m);
            lemma_sum_of_abs_bound(zw, fp, m * m);
            assert(zw.take(k as int).len() == k);
            assert(k * m <= 1_000_000_000_000 && k * (m * m) <= 1_000_000_000_000_000_000
                && zw.skip(k as int + 1).len() * m <= 1_000_000_000_000 && zw.skip(
                k as int + 1,
            ).len() * (m * m) <= 1_000_000_000_000_000_000 && zw.len() * m <= 1_000_000_000_000
                && zw.len() * (m * m) <= 1_000_000_000_000_000_000) by (nonlinear_arith)
                requires
                    0 <= k <= 1_000_000,
                    0 <= zw.skip(k as int + 1).len() <= 1_000_000,
                    0 <= zw.len() <= 1_000_000,
                    m == 1_000_000,
            ;
            assert(zw[k as int] == (s[k as int], t[k as int]));
            assert(-(m * m) <= (v@[k as int] as int) * (w@[k as int] as int) <= m * m)
                by (nonlinear_arith)
                requires
                    -m <= v@[k as int] as int <= m,
                    -m <= w@[k as int] as int <= m,
                    0 <= m,
            ;
        }
        let xk = v[k];
        let wk = w[k];
        let wsuf: i128 = wtot - wpre - (wk as i128);
        let psuf: i128 = ptot - ppre - (xk as i128) * (wk as i128);
        proof {
            assert(-4_000_000_000_000_000_000 <= (xk as i128 as int) * (wpre as int)
                <= 4_000_000_000_000_000_000 && -4_000_000_000_000_000_000 <= (xk as i128 as int)
                * (wsuf as int) <= 4_000_000_000_000_000_000) by (nonlinear_arith)
                requires
                    -1_000_000 <= xk as i128 as int <= 1_000_000,
                    -2_000_000_000_000 <= wpre as int <= 2_000_000_000_000,
                    -4_000_000_000_000 <= wsuf as int <= 4_000_000_000_000,
            ;
        }
        let a: i128 = (xk as i128) * wpre - ppre + psuf - (xk as i128) * wsuf;
        proof {
            assert(a as int == dist_row_weighted(s, t, x));
            assert forall|i: int| 0 <= i < zw.len() implies 0 - 2 * (m * m) <= absd(
                x,
                (#[trigger] zw[i]).0,
            ) * zw[i].1 <= 2 * (m * m) by {
                assert(0 <= absd(x, zw[i].0) <= 2 * m);
                assert(-(2 * m) * m <= absd(x, zw[i].0) * zw[i].1 <= (2 * m) * m)
                    by (nonlinear_arith)
                    requires
                        0 <= absd(x, zw[i].0) <= 2 * m,
                        -m <= zw[i].1 <= m,
                        0 <= m,
                ;
                assert((2 * m) * m == 2 * (m * m) && -(2 * m) * m == 0 - 2 * (m * m))
                    by (nonlinear_arith);
            }
            lemma_sum_of_bounds(
                zw,
                |q: (int, int)| absd(x, q.0) * q.1,
                0 - 2 * (m * m),
                2 * (m * m),
            );
            assert(zw.len() * (2 * (m * m)) <= 2_000_000_000_000_000_000 && zw.len() * (0 - 2 * (m
                * m)) >= -2_000_000_000_000_000_000) by (nonlinear_arith)
                requires
                    0 <= zw.len() <= 1_000_000,
                    m == 1_000_000,
            ;
        }
        out.push(a as i64);
        proof {
            lemma_sum_of_take_step(zw, k as int, fw);
            lemma_sum_of_take_step(zw, k as int, fp);
        }
        wpre = wpre + (wk as i128);
        ppre = ppre + (xk as i128) * (wk as i128);
        k += 1;
    }
    out
}

} // verus!
