//! The Frobenius inner product of two pairwise-distance matrices in
//! O(n log n), without forming the matrices.
//!
//! For a paired sample `z` whose second coordinates are already sorted
//! ascending, the full double sum `frob(z) = Σᵢⱼ |aᵢ−aⱼ|·|bᵢ−bⱼ|` splits into
//! a closed-form part and a weighted inversion count:
//!
//! `frob(z) = 2·(n·Σaᵢbᵢ − Σaᵢ·Σbᵢ) + 4·Σ_{i<j, aᵢ>aⱼ} (aᵢ−aⱼ)(bⱼ−bᵢ)`.
//!
//! The inversion part is accumulated by a merge sort over the first
//! coordinates, each merge charging every emitted right-run element with the
//! prefix of the left run that still dominates it, read off running prefix
//! sums.  Everything is proved against the defining double sum.

use vstd::prelude::*;

use crate::model::absd;
use crate::model::frob;
use crate::model::ints;
use crate::model::pair_dist;
use crate::model::pair_row;
use crate::model::pairs_bounded;
use crate::model::pos_part;
use crate::model::zipped;
use crate::model::MAX_ABS_SAMPLE;
use crate::model::MAX_LEN;
use crate::sums::lemma_sum_of_abs_bound;
use crate::sums::lemma_sum_of_add;
use crate::sums::lemma_sum_of_concat;
use crate::sums::lemma_sum_of_congruence;
use crate::sums::lemma_sum_of_const;
use crate::sums::lemma_sum_of_multiset;
use crate::sums::lemma_sum_of_parallel;
use crate::sums::lemma_sum_of_push;
use crate::sums::lemma_sum_of_take_step;
use crate::sums::sum_of;

verus! {

/// Machine pairs read as pairs of mathematical integers.
pub open spec fn pz(s: Seq<(i64, i64)>) -> Seq<(int, int)> {
    s.map_values(|p: (i64, i64)| (p.0 as int, p.1 as int))
}

/// What one element `q` collects from the elements of `l` that dominate it in
/// the first coordinate: `Σ_{p ∈ l, p.0 > q.0} (p.0 − q.0)·(q.1 − p.1)`.
pub open spec fn wcross(l: Seq<(int, int)>, q: (int, int)) -> int {
    sum_of(l, |p: (int, int)| pos_part(p.0 - q.0) * (q.1 - p.1))
}

/// The cross-pair inversion sum between a left and a right block.
pub open spec fn csum(l: Seq<(int, int)>, r: Seq<(int, int)>) -> int {
    sum_of(r, |q: (int, int)| wcross(l, q))
}

/// The weighted inversion sum of `s` over its position pairs:
/// `Σ_{i<j, s[i].0 > s[j].0} (s[i].0 − s[j].0)·(s[j].1 − s[i].1)`.
pub open spec fn wsum(s: Seq<(int, int)>) -> int
    decreases s.len(),
{
    if s.len() == 0 {
        0
    } else {
        wsum(s.drop_last()) + wcross(s.drop_last(), s.last())
    }
}

/// What one element `q` collects from all of `l` in the signed form:
/// `Σ_{p ∈ l} (q.0 − p.0)·(q.1 − p.1)`.
pub open spec fn tcross(l: Seq<(int, int)>, q: (int, int)) -> int {
    sum_of(l, |p: (int, int)| (q.0 - p.0) * (q.1 - p.1))
}

/// The signed pair sum of `s`: `Σ_{i<j} (s[j].0 − s[i].0)·(s[j].1 − s[i].1)`.
pub open spec fn tsum(s: Seq<(int, int)>) -> int
    decreases s.len(),
{
    if s.len() == 0 {
        0
    } else {
        tsum(s.drop_last()) + tcross(s.drop_last(), s.last())
    }
}

/// Splitting a sequence splits its weighted inversion sum into the two inner
/// sums plus the cross-block sum.
proof fn lemma_wsum_concat(l: Seq<(int, int)>, r: Seq<(int, int)>)
    ensures
        wsum(l + r) == wsum(l) + wsum(r) + csum(l, r),
    decreases r.len(),
{
    if r.len() == 0 {
        assert(l + r =~= l);
        assert(csum(l, r) == 0);
    } else {
        lemma_wsum_concat(l, r.drop_last());
        assert((l + r).drop_last() =~= l + r.drop_last());
        assert((l + r).last() == r.last());
        lemma_sum_of_concat(
            l,
            r.drop_last(),
            |p: (int, int)| pos_part(p.0 - r.last().0) * (r.last().1 - p.1),
        );
    }
}

/// The closed form of one signed cross sum.
proof fn lemma_tcross_closed(l: Seq<(int, int)>, q: (int, int))
    ensures
        tcross(l, q) == l.len() * (q.0 * q.1) - q.0 * sum_of(l, |p: (int, int)| p.1) - q.1 * sum_of(
            l,
            |p: (int, int)| p.0,
        ) + sum_of(l, |p: (int, int)| p.0 * p.1),
    decreases l.len(),
{
    if l.len() == 0 {
    } else {
        lemma_tcross_closed(l.drop_last(), q);
        let x = l.last();
        let n0 = l.drop_last().len() as int;
        assert((q.0 - x.0) * (q.1 - x.1) == q.0 * q.1 - q.0 * x.1 - q.1 * x.0 + x.0 * x.1)
            by (nonlinear_arith);
        assert((n0 + 1) * (q.0 * q.1) == n0 * (q.0 * q.1) + q.0 * q.1) by (nonlinear_arith);
        assert(q.0 * (sum_of(l.drop_last(), |p: (int, int)| p.1) + x.1) == q.0 * sum_of(
            l.drop_last(),
            |p: (int, int)| p.1,
        ) + q.0 * x.1) by (nonlinear_arith);
        assert(q.1 * (sum_of(l.drop_last(), |p: (int, int)| p.0) + x.0) == q.1 * sum_of(
            l.drop_last(),
            |p: (int, int)| p.0,
        ) + q.1 * x.0) by (nonlinear_arith);
    }
}

/// The closed form of the signed pair sum:
/// `tsum(s) = n·Σ aᵢbᵢ − (Σ aᵢ)(Σ bᵢ)`.
proof fn lemma_tsum_closed(s: Seq<(int, int)>)
    ensures
        tsum(s) == s.len() * sum_of(s, |p: (int, int)| p.0 * p.1) - sum_of(
            s,
            |p: (int, int)| p.0,
        ) * sum_of(s, |p: (int, int)| p.1),
    decreases s.len(),
{
    if s.len() == 0 {
    } else {
        let s0 = s.drop_last();
        let q = s.last();
        lemma_tsum_closed(s0);
        lemma_tcross_closed(s0, q);
        let n0 = s0.len() as int;
        let pp0 = sum_of(s0, |p: (int, int)| p.0 * p.1);
        let a0 = sum_of(s0, |p: (int, int)| p.0);
        let b0 = sum_of(s0, |p: (int, int)| p.1);
        assert(sum_of(s, |p: (int, int)| p.0 * p.1) == pp0 + q.0 * q.1);
        assert(sum_of(s, |p: (int, int)| p.0) == a0 + q.0);
        assert(sum_of(s, |p: (int, int)| p.1) == b0 + q.1);
        assert(n0 * pp0 - a0 * b0 + (n0 * (q.0 * q.1) - q.0 * b0 - q.1 * a0 + pp0) == (n0 + 1) * (
        pp0 + q.0 * q.1) - (a0 + q.0) * (b0 + q.1)) by (nonlinear_arith);
    }
}

/// The central decomposition: when the second coordinates are weakly
/// ascending in position order, the Frobenius double sum is
/// `2·tsum + 4·wsum`.
proof fn lemma_frob_decomposition(s: Seq<(int, int)>)
    requires
        forall|i: int, j: int|
            0 <= i <= j < s.len() ==> (#[trigger] s[i]).1 <= (#[trigger] s[j]).1,
    ensures
        frob(s) == 2 * tsum(s) + 4 * wsum(s),
    decreases s.len(),
{
    if s.len() == 0 {
    } else {
        let s0 = s.drop_last();
        let q = s.last();
        assert(forall|i: int, j: int|
            0 <= i <= j < s0.len() ==> (#[trigger] s0[i]).1 <= (#[trigger] s0[j]).1);
        lemma_frob_decomposition(s0);
        // Peel the last element off the double sum.
        assert(s0.push(q) =~= s);
        assert forall|i: int| 0 <= i < s.len() implies #[trigger] pair_row(s, s[i]) == pair_row(
            s0,
            s[i],
        ) + pair_dist(s[i], q) by {
            lemma_sum_of_push(s0, q, |p2: (int, int)| pair_dist(s[i], p2));
        }
        lemma_sum_of_push(s0, q, |p: (int, int)| pair_row(s, p));
        lemma_sum_of_congruence(
            s0,
            |p: (int, int)| pair_row(s, p),
            |p: (int, int)| pair_row(s0, p) + pair_dist(p, q),
        );
        lemma_sum_of_add(
            s0,
            |p: (int, int)| pair_row(s0, p),
            |p: (int, int)| pair_dist(p, q),
            |p: (int, int)| pair_row(s0, p) + pair_dist(p, q),
        );
        // The row of the last element doubles the cross terms.
        assert(pair_dist(q, q) == 0);
        lemma_sum_of_congruence(
            s0,
            |p2: (int, int)| pair_dist(q, p2),
            |p2: (int, int)| pair_dist(p2, q),
        );
        assert(frob(s) == frob(s0) + 2 * sum_of(s0, |p: (int, int)| pair_dist(p, q)));
        // Each cross term splits into its signed part plus twice its
        // positive-part correction, using that q dominates in the second
        // coordinate.
        assert forall|i: int| 0 <= i < s0.len() implies pair_dist(#[trigger] s0[i], q) == (q.0
            - s0[i].0) * (q.1 - s0[i].1) + 2 * (pos_part(s0[i].0 - q.0) * (q.1 - s0[i].1)) by {
            let p = s0[i];
            assert(p.1 <= q.1);
            assert(absd(p.1, q.1) == q.1 - p.1);
            if p.0 >= q.0 {
                assert(absd(p.0, q.0) == p.0 - q.0);
                assert((p.0 - q.0) * (q.1 - p.1) == (q.0 - p.0) * (q.1 - p.1) + 2 * ((p.0 - q.0) * (
                q.1 - p.1))) by (nonlinear_arith);
                if p.0 == q.0 {
                    assert(pos_part(p.0 - q.0) == 0);
                    assert(pair_dist(p, q) == 0) by {
                        assert(absd(p.0, q.0) == 0);
                    }
                }
            } else {
                assert(absd(p.0, q.0) == q.0 - p.0);
                assert(pos_part(p.0 - q.0) == 0);
            }
        }
        lemma_sum_of_add(
            s0,
            |p: (int, int)| (q.0 - p.0) * (q.1 - p.1),
            |p: (int, int)| 2 * (pos_part(p.0 - q.0) * (q.1 - p.1)),
            |p: (int, int)| pair_dist(p, q),
        );
        crate::sums::lemma_sum_of_scale(
            s0,
            |p: (int, int)| pos_part(p.0 - q.0) * (q.1 - p.1),
            |p: (int, int)| 2 * (pos_part(p.0 - q.0) * (q.1 - p.1)),
            2,
        );
        assert(sum_of(s0, |p: (int, int)| pair_dist(p, q)) == tcross(s0, q) + 2 * wcross(s0, q));
    }
}

/// Magnitude bounds for the inversion sums of bounded samples.
proof fn lemma_wcross_bound(l: Seq<(int, int)>, q: (int, int), m: int)
    requires
        0 <= m,
        pairs_bounded(l, m),
        -m <= q.0 <= m,
        -m <= q.1 <= m,
    ensures
        -(l.len() * (4 * (m * m))) <= wcross(l, q) <= l.len() * (4 * (m * m)),
{
    assert forall|i: int| 0 <= i < l.len() implies -(4 * (m * m)) <= pos_part(
        (#[trigger] l[i]).0 - q.0,
    ) * (q.1 - l[i].1) <= 4 * (m * m) by {
        assert(0 <= pos_part(l[i].0 - q.0) <= 2 * m);
        assert(-(2 * m) <= q.1 - l[i].1 <= 2 * m);
        assert(-((2 * m) * (2 * m)) <= pos_part(l[i].0 - q.0) * (q.1 - l[i].1) <= (2 * m) * (2
            * m)) by (nonlinear_arith)
            requires
                0 <= pos_part(l[i].0 - q.0) <= 2 * m,
                -(2 * m) <= q.1 - l[i].1 <= 2 * m,
                0 <= m,
        ;
        assert((2 * m) * (2 * m) == 4 * (m * m)) by (nonlinear_arith);
    }
    lemma_sum_of_abs_bound(l, |p: (int, int)| pos_part(p.0 - q.0) * (q.1 - p.1), 4 * (m * m));
    assert(0 <= 4 * (m * m)) by (nonlinear_arith)
        requires
            0 <= m,
    ;
}

/// `|csum(l, r)| ≤ |r| · |l| · 4m²`.
proof fn lemma_csum_bound(l: Seq<(int, int)>, r: Seq<(int, int)>, m: int)
    requires
        0 <= m,
        pairs_bounded(l, m),
        pairs_bounded(r, m),
    ensures
        -(r.len() * (l.len() * (4 * (m * m)))) <= csum(l, r) <= r.len() * (l.len() * (4 * (m
            * m))),
{
    assert forall|i: int| 0 <= i < r.len() implies -(l.len() * (4 * (m * m))) <= wcross(
        l,
        #[trigger] r[i],
    ) <= l.len() * (4 * (m * m)) by {
        lemma_wcross_bound(l, r[i], m);
    }
    lemma_sum_of_abs_bound(r, |q: (int, int)| wcross(l, q), l.len() * (4 * (m * m)));
    assert(0 <= l.len() * (4 * (m * m))) by (nonlinear_arith)
        requires
            0 <= m,
    ;
}

/// `|wsum(s)| ≤ |s|² · 4m²`.
proof fn lemma_wsum_bound(s: Seq<(int, int)>, m: int)
    requires
        0 <= m,
        pairs_bounded(s, m),
    ensures
        -(s.len() * (s.len() * (4 * (m * m)))) <= wsum(s) <= s.len() * (s.len() * (4 * (m * m))),
    decreases s.len(),
{
    let c = 4 * (m * m);
    assert(0 <= 4 * (m * m)) by (nonlinear_arith)
        requires
            0 <= m,
    ;
    if s.len() == 0 {
    } else {
        let s0 = s.drop_last();
        assert(pairs_bounded(s0, m));
        lemma_wsum_bound(s0, m);
        lemma_wcross_bound(s0, s.last(), m);
        let n = s.len() as int;
        assert((n - 1) * ((n - 1) * c) + (n - 1) * c <= n * (n * c) && -(n * (n * c)) <= -((n - 1)
            * ((n - 1) * c)) - (n - 1) * c) by (nonlinear_arith)
            requires
                0 <= c,
                1 <= n,
        ;
    }
}

/// Weakly descending in the first coordinate, on machine pairs.
pub open spec fn desc64(s: Seq<(i64, i64)>) -> bool {
    forall|i: int, j: int|
        0 <= i <= j < s.len() ==> (#[trigger] s[i]).0 >= (#[trigger] s[j]).0
}

/// When every element of a prefix of `l` dominates `q` in the first
/// coordinate and nothing after the prefix does strictly, `q`'s collected sum
/// is a closed form of the prefix sums.
proof fn lemma_wcross_prefix(l: Seq<(int, int)>, q: (int, int), t: int)
    requires
        0 <= t <= l.len(),
        forall|k: int| 0 <= k < t ==> (#[trigger] l[k]).0 >= q.0,
        forall|k: int| t <= k < l.len() ==> (#[trigger] l[k]).0 <= q.0,
    ensures
        wcross(l, q) == q.1 * sum_of(l.take(t), |p: (int, int)| p.0) - sum_of(
            l.take(t),
            |p: (int, int)| p.0 * p.1,
        ) - t * (q.0 * q.1) + q.0 * sum_of(l.take(t), |p: (int, int)| p.1),
{
    let f = |p: (int, int)| pos_part(p.0 - q.0) * (q.1 - p.1);
    crate::sums::lemma_sum_of_split_at(l, t, f);
    // Beyond the prefix nothing dominates: those terms vanish.
    assert forall|k: int| 0 <= k < l.skip(t).len() implies f(#[trigger] l.skip(t)[k]) == 0 by {
        assert(l[t + k].0 <= q.0);
        assert(pos_part(l.skip(t)[k].0 - q.0) == 0);
    }
    lemma_sum_of_const(l.skip(t), f, 0);
    // Within the prefix the positive part is exact.
    assert forall|k: int| 0 <= k < l.take(t).len() implies f(#[trigger] l.take(t)[k]) == -((q.0
        - l.take(t)[k].0) * (q.1 - l.take(t)[k].1)) by {
        assert(l[k].0 >= q.0);
        let p = l.take(t)[k];
        assert(pos_part(p.0 - q.0) == p.0 - q.0);
        assert((p.0 - q.0) * (q.1 - p.1) == -((q.0 - p.0) * (q.1 - p.1))) by (nonlinear_arith);
    }
    lemma_sum_of_congruence(l.take(t), f, |p: (int, int)| -((q.0 - p.0) * (q.1 - p.1)));
    crate::sums::lemma_sum_of_scale(
        l.take(t),
        |p: (int, int)| (q.0 - p.0) * (q.1 - p.1),
        |p: (int, int)| -((q.0 - p.0) * (q.1 - p.1)),
        -1,
    );
    lemma_tcross_closed(l.take(t), q);
    assert(l.take(t).len() == t);
}

/// Merges two blocks that are sorted descending by the first coordinate and
/// accumulates the cross-block inversion sum from running prefix sums of the
/// left block.
fn merge_halves(dl: &Vec<(i64, i64)>, dr: &Vec<(i64, i64)>) -> (res: (Vec<(i64, i64)>, i128))
    requires
        dl@.len() + dr@.len() <= MAX_LEN,
        pairs_bounded(pz(dl@), MAX_ABS_SAMPLE as int),
        pairs_bounded(pz(dr@), MAX_ABS_SAMPLE as int),
        desc64(dl@),
        desc64(dr@),
    ensures
        res.0@.len() == dl@.len() + dr@.len(),
        res.0@.to_multiset() == (dl@ + dr@).to_multiset(),
        desc64(res.0@),
        pairs_bounded(pz(res.0@), MAX_ABS_SAMPLE as int),
        res.1 as int == csum(pz(dl@), pz(dr@)),
{
    broadcast use vstd::seq_lib::group_to_multiset_ensures;
    broadcast use vstd::seq_lib::lemma_multiset_commutative;
    broadcast use vstd::multiset::group_multiset_axioms;

    let nl = dl.len();
    let nr = dr.len();
    let ghost lz = pz(dl@);
    let ghost rz = pz(dr@);
    let ghost m = MAX_ABS_SAMPLE as int;
    let ghost fa = |p: (int, int)| p.0;
    let ghost fb = |p: (int, int)| p.1;
    let ghost fab = |p: (int, int)| p.0 * p.1;
    proof {
        assert(lz.len() == nl && rz.len() == nr);
        assert forall|k: int| 0 <= k < nl implies -m <= (#[trigger] lz[k]).0 <= m && -m <= lz[k].1
            <= m && -(m * m) <= fab(lz[k]) <= m * m && lz[k].0 == dl@[k].0 as int by {
            assert(-(m * m) <= lz[k].0 * lz[k].1 <= m * m) by (nonlinear_arith)
                requires
                    -m <= lz[k].0 <= m,
                    -m <= lz[k].1 <= m,
                    0 <= m,
            ;
        }
    }
    let mut merged: Vec<(i64, i64)> = Vec::new();
    let mut acc: i128 = 0;
    let mut sa: i128 = 0;
    let mut sb: i128 = 0;
    let mut sab: i128 = 0;
    let mut i: usize = 0;
    let mut j: usize = 0;
    while i < nl || j < nr
        invariant
            i <= nl,
            j <= nr,
            nl == dl@.len(),
            nr == dr@.len(),
            nl + nr <= MAX_LEN,
            lz == pz(dl@),
            rz == pz(dr@),
            m == MAX_ABS_SAMPLE as int,
            fa == (|p: (int, int)| p.0),
            fb == (|p: (int, int)| p.1),
            fab == (|p: (int, int)| p.0 * p.1),
            pairs_bounded(lz, m),
            pairs_bounded(rz, m),
            desc64(dl@),
            desc64(dr@),
            forall|k: int|
                0 <= k < nl ==> -(m * m) <= fab(#[trigger] lz[k]) <= m * m && lz[k].0 == dl@[k].0
                    as int,
            merged@.len() == i + j,
            merged@.to_multiset() == (dl@.take(i as int) + dr@.take(j as int)).to_multiset(),
            desc64(merged@),
            pairs_bounded(pz(merged@), m),
            forall|a: int, b: int|
                0 <= a < merged@.len() && i <= b < nl ==> (#[trigger] merged@[a]).0
                    >= (#[trigger] dl@[b]).0,
            forall|a: int, b: int|
                0 <= a < merged@.len() && j <= b < nr ==> (#[trigger] merged@[a]).0
                    >= (#[trigger] dr@[b]).0,
            forall|a: int| j < nr && 0 <= a < i ==> (#[trigger] dl@[a]).0 >= dr@[j as int].0,
            sa as int == sum_of(lz.take(i as int), fa),
            sb as int == sum_of(lz.take(i as int), fb),
            sab as int == sum_of(lz.take(i as int), fab),
            acc as int == csum(lz, rz.take(j as int)),
        decreases nl - i + nr - j,
    {
        proof {
            lemma_sum_of_abs_bound(lz.take(i as int), fa, m);
            lemma_sum_of_abs_bound(lz.take(i as int), fb, m);
            assert(0 <= m * m) by (nonlinear_arith)
                requires
                    0 <= m,
            ;
            lemma_sum_of_abs_bound(lz.take(i as int), fab, m * m);
            assert(lz.take(i as int).len() == i);
            assert(i * m <= 1_000_000_000_000 && i * (m * m) <= 1_000_000_000_000_000_000)
                by (nonlinear_arith)
                requires
                    0 <= i <= 1_000_000,
                    m == 1_000_000,
            ;
            lemma_csum_bound(lz, rz.take(j as int), m);
            assert(pairs_bounded(rz.take(j as int), m)) by {
                assert forall|k: int| 0 <= k < rz.take(j as int).len() implies -m
                    <= (#[trigger] rz.take(j as int)[k]).0 <= m && -m <= rz.take(j as int)[k].1
                    <= m by {
                    assert(-m <= rz[k].0 <= m && -m <= rz[k].1 <= m);
                }
            }
            assert(rz.take(j as int).len() * (lz.len() * (4 * (m * m)))
                <= 4_000_000_000_000_000_000_000_000) by (nonlinear_arith)
                requires
                    0 <= rz.take(j as int).len() <= 1_000_000,
                    0 <= lz.len() <= 1_000_000,
                    m == 1_000_000,
            ;
        }
        if i < nl && (j == nr || dl[i].0 >= dr[j].0) {
            let e = dl[i];
            let ghost mg = merged@;
            proof {
                broadcast use vstd::multiset::group_multiset_axioms;

                let ghost ap = dl@.take(i as int);
                let ghost bp = dr@.take(j as int);
                assert(dl@.take(i as int + 1) =~= ap.push(e));
                vstd::seq_lib::lemma_multiset_commutative(ap.push(e), bp);
                vstd::seq_lib::to_multiset_build(ap, e);
                vstd::seq_lib::to_multiset_build(ap + bp, e);
                vstd::seq_lib::lemma_multiset_commutative(ap, bp);
                assert(ap.to_multiset().insert(e).add(bp.to_multiset()) =~= ap.to_multiset().add(
                    bp.to_multiset(),
                ).insert(e));
                assert(lz.take(i as int + 1) =~= lz.take(i as int).push(lz[i as int]));
                lemma_sum_of_push(lz.take(i as int), lz[i as int], fa);
                lemma_sum_of_push(lz.take(i as int), lz[i as int], fb);
                lemma_sum_of_push(lz.take(i as int), lz[i as int], fab);
            }
            merged.push(e);
            proof {
                broadcast use vstd::multiset::group_multiset_axioms;

                assert(merged@ =~= mg.push(e));
                vstd::seq_lib::to_multiset_build(mg, e);
                assert(pz(merged@) =~= pz(mg).push((e.0 as int, e.1 as int)));
                assert(-m <= e.0 as int <= m && -m <= e.1 as int <= m) by {
                    assert(-m <= lz[i as int].0 <= m && -m <= lz[i as int].1 <= m);
                }
                assert forall|k2: int| 0 <= k2 < pz(merged@).len() implies -m <= (#[trigger] pz(
                    merged@,
                )[k2]).0 <= m && -m <= pz(merged@)[k2].1 <= m by {
                    if k2 < pz(mg).len() {
                        assert(pz(merged@)[k2] == pz(mg)[k2]);
                        assert(-m <= pz(mg)[k2].0 <= m && -m <= pz(mg)[k2].1 <= m);
                    }
                }
            }
            sa = sa + (e.0 as i128);
            sb = sb + (e.1 as i128);
            sab = sab + (e.0 as i128) * (e.1 as i128);
            i += 1;
            proof {
                assert(-(m * m) <= (e.0 as int) * (e.1 as int) <= m * m) by (nonlinear_arith)
                    requires
                        -m <= e.0 as int <= m,
                        -m <= e.1 as int <= m,
                        0 <= m,
                ;
            }
        } else {
            let q = dr[j];
            let ghost mg = merged@;
            let ghost qz = rz[j as int];
            proof {
                // Everything still in the left block is dominated by q.
                assert forall|k: int| i <= k < nl implies (#[trigger] lz[k]).0 <= qz.0 by {
                    if i < nl {
                        assert(dl@[i as int].0 < q.0);
                        assert(dl@[i as int].0 >= dl@[k].0);
                    }
                }
                assert forall|k: int| 0 <= k < i implies (#[trigger] lz[k]).0 >= qz.0 by {
                    assert(dl@[k].0 >= dr@[j as int].0);
                }
                lemma_wcross_prefix(lz, qz, i as int);
                lemma_wcross_bound(lz, qz, m);
                assert(lz.len() * (4 * (m * m)) <= 4_000_000_000_000_000_000)
                    by (nonlinear_arith)
                    requires
                        0 <= lz.len() <= 1_000_000,
                        m == 1_000_000,
                ;
                assert(-2_000_000_000_000_000_000 <= (qz.1) * (sa as int)
                    <= 2_000_000_000_000_000_000 && -2_000_000_000_000_000_000 <= (qz.0) * (
                sb as int) <= 2_000_000_000_000_000_000 && -2_000_000_000_000_000_000 <= (i as int)
                    * (qz.0 * qz.1) <= 2_000_000_000_000_000_000) by (nonlinear_arith)
                    requires
                        -1_000_000 <= qz.0 <= 1_000_000,
                        -1_000_000 <= qz.1 <= 1_000_000,
                        -1_000_000_000_000 <= sa as int <= 1_000_000_000_000,
                        -1_000_000_000_000 <= sb as int <= 1_000_000_000_000,
                        0 <= i <= 1_000_000,
                ;
                lemma_sum_of_take_step(rz, j as int, |q2: (int, int)| wcross(lz, q2));
                broadcast use vstd::multiset::group_multiset_axioms;

                let ghost ap = dl@.take(i as int);
                let ghost bp = dr@.take(j as int);
                assert(dr@.take(j as int + 1) =~= bp.push(q));
                vstd::seq_lib::lemma_multiset_commutative(ap, bp.push(q));
                vstd::seq_lib::to_multiset_build(bp, q);
                vstd::seq_lib::to_multiset_build(ap + bp, q);
                vstd::seq_lib::lemma_multiset_commutative(ap, bp);
                assert(ap.to_multiset().add(bp.to_multiset().insert(q)) =~= ap.to_multiset().add(
                    bp.to_multiset(),
                ).insert(q));
                assert(((i as int) * qz.0) * qz.1 == (i as int) * (qz.0 * qz.1))
                    by (nonlinear_arith);
                assert(-1_000_000_000_000 <= (i as int) * qz.0 <= 1_000_000_000_000)
                    by (nonlinear_arith)
                    requires
                        0 <= i <= 1_000_000,
                        -1_000_000 <= qz.0 <= 1_000_000,
                ;
            }
            let c: i128 = (q.1 as i128) * sa - sab - (i as i128) * (q.0 as i128) * (q.1 as i128)
                + (q.0 as i128) * sb;
            acc = acc + c;
            merged.push(q);
            proof {
                broadcast use vstd::multiset::group_multiset_axioms;

                assert(merged@ =~= mg.push(q));
                vstd::seq_lib::to_multiset_build(mg, q);
                assert(pz(merged@) =~= pz(mg).push((q.0 as int, q.1 as int)));
                assert(-m <= q.0 as int <= m && -m <= q.1 as int <= m) by {
                    assert(-m <= qz.0 <= m && -m <= qz.1 <= m);
                }
                assert forall|k2: int| 0 <= k2 < pz(merged@).len() implies -m <= (#[trigger] pz(
                    merged@,
                )[k2]).0 <= m && -m <= pz(merged@)[k2].1 <= m by {
                    if k2 < pz(mg).len() {
                        assert(pz(merged@)[k2] == pz(mg)[k2]);
                        assert(-m <= pz(mg)[k2].0 <= m && -m <= pz(mg)[k2].1 <= m);
                    }
                }
            }
            j += 1;
        }
    }
    proof {
        assert(dl@.take(nl as int) =~= dl@);
        assert(dr@.take(nr as int) =~= dr@);
        assert(rz.take(nr as int) =~= rz);
    }
    (merged, acc)
}

/// The inversion sums only see which pairs the two blocks hold, not their
/// order.
proof fn lemma_csum_multiset(
    l1: Seq<(i64, i64)>,
    l2: Seq<(i64, i64)>,
    r1: Seq<(i64, i64)>,
    r2: Seq<(i64, i64)>,
)
    requires
        l1.to_multiset() == l2.to_multiset(),
        r1.to_multiset() == r2.to_multiset(),
    ensures
        csum(pz(l1), pz(r1)) == csum(pz(l2), pz(r2)),
{
    assert forall|q: (int, int)| #[trigger] wcross(pz(l1), q) == wcross(pz(l2), q) by {
        let f = |p: (int, int)| pos_part(p.0 - q.0) * (q.1 - p.1);
        let g = |p64: (i64, i64)| pos_part(p64.0 as int - q.0) * (q.1 - p64.1 as int);
        lemma_sum_of_parallel(pz(l1), l1, f, g);
        lemma_sum_of_multiset(l1, l2, g);
        lemma_sum_of_parallel(pz(l2), l2, f, g);
    }
    let h = |q64: (i64, i64)| wcross(pz(l1), (q64.0 as int, q64.1 as int));
    lemma_sum_of_parallel(pz(r1), r1, |q: (int, int)| wcross(pz(l1), q), h);
    lemma_sum_of_multiset(r1, r2, h);
    lemma_sum_of_parallel(pz(r2), r2, |q: (int, int)| wcross(pz(l1), q), h);
    lemma_sum_of_congruence(
        pz(r2),
        |q: (int, int)| wcross(pz(l1), q),
        |q: (int, int)| wcross(pz(l2), q),
    );
}

/// Sorts the pairs descending by their first coordinate with a bottom-up
/// halving recursion, returning the weighted inversion sum of the original
/// position order alongside.
fn sort_and_count(pairs: Vec<(i64, i64)>) -> (res: (Vec<(i64, i64)>, i128))
    requires
        pairs@.len() <= MAX_LEN,
        pairs_bounded(pz(pairs@), MAX_ABS_SAMPLE as int),
    ensures
        res.0@.len() == pairs@.len(),
        res.0@.to_multiset() == pairs@.to_multiset(),
        desc64(res.0@),
        pairs_bounded(pz(res.0@), MAX_ABS_SAMPLE as int),
        res.1 as int == wsum(pz(pairs@)),
    decreases pairs@.len(),
{
    let n = pairs.len();
    let ghost m = MAX_ABS_SAMPLE as int;
    if n <= 1 {
        proof {
            if n == 1 {
                assert(pz(pairs@).drop_last().len() == 0);
                assert(wsum(pz(pairs@).drop_last()) == 0);
                assert(wcross(pz(pairs@).drop_last(), pz(pairs@).last()) == 0);
            }
        }
        return (pairs, 0);
    }
    let mid = n / 2;
    let mut l: Vec<(i64, i64)> = Vec::new();
    let mut r: Vec<(i64, i64)> = Vec::new();
    let mut k: usize = 0;
    while k < mid
        invariant
            k <= mid,
            mid < n,
            n == pairs@.len(),
            l@ == pairs@.take(k as int),
        decreases mid - k,
    {
        proof {
            assert(pairs@.take(k as int + 1) =~= pairs@.take(k as int).push(pairs@[k as int]));
        }
        l.push(pairs[k]);
        k += 1;
    }
    let mut k: usize = mid;
    while k < n
        invariant
            mid <= k <= n,
            n == pairs@.len(),
            r@ == pairs@.subrange(mid as int, k as int),
        decreases n - k,
    {
        proof {
            assert(pairs@.subrange(mid as int, k as int + 1) =~= pairs@.subrange(
                mid as int,
                k as int,
            ).push(pairs@[k as int]));
        }
        r.push(pairs[k]);
        k += 1;
    }
    let ghost lseq = l@;
    let ghost rseq = r@;
    proof {
        assert(pairs@ =~= lseq + rseq);
        assert forall|k2: int| 0 <= k2 < pz(lseq).len() implies -m <= (#[trigger] pz(
            lseq,
        )[k2]).0 <= m && -m <= pz(lseq)[k2].1 <= m by {
            assert(pz(lseq)[k2] == pz(pairs@)[k2]);
            assert(-m <= pz(pairs@)[k2].0 <= m && -m <= pz(pairs@)[k2].1 <= m);
        }
        assert forall|k2: int| 0 <= k2 < pz(rseq).len() implies -m <= (#[trigger] pz(
            rseq,
        )[k2]).0 <= m && -m <= pz(rseq)[k2].1 <= m by {
            assert(pz(rseq)[k2] == pz(pairs@)[mid as int + k2]);
            assert(-m <= pz(pairs@)[mid as int + k2].0 <= m && -m <= pz(pairs@)[mid as int
                + k2].1 <= m);
        }
        assert(pairs_bounded(pz(lseq), m));
        assert(pairs_bounded(pz(rseq), m));
    }
    let (dl, wl) = sort_and_count(l);
    let (dr, wr) = sort_and_count(r);
    let (merged, cross) = merge_halves(&dl, &dr);
    proof {
        broadcast use vstd::multiset::group_multiset_axioms;

        assert(pz(pairs@) =~= pz(lseq) + pz(rseq));
        lemma_wsum_concat(pz(lseq), pz(rseq));
        lemma_csum_multiset(dl@, lseq, dr@, rseq);
        // Bounds so that the three parts add without overflow.
        lemma_wsum_bound(pz(lseq), m);
        lemma_wsum_bound(pz(rseq), m);
        lemma_csum_bound(pz(dl@), pz(dr@), m);
        assert(pz(lseq).len() * (pz(lseq).len() * (4 * (m * m)))
            <= 4_000_000_000_000_000_000_000_000 && pz(rseq).len() * (pz(rseq).len() * (4 * (m
            * m))) <= 4_000_000_000_000_000_000_000_000 && pz(dr@).len() * (pz(dl@).len() * (4 * (m
            * m))) <= 4_000_000_000_000_000_000_000_000) by (nonlinear_arith)
            requires
                0 <= pz(lseq).len() <= 1_000_000,
                0 <= pz(rseq).len() <= 1_000_000,
                0 <= pz(dl@).len() <= 1_000_000,
                0 <= pz(dr@).len() <= 1_000_000,
                m == 1_000_000,
        ;
        // The merged pairs are the original pairs.
        vstd::seq_lib::lemma_multiset_commutative(dl@, dr@);
        vstd::seq_lib::lemma_multiset_commutative(lseq, rseq);
    }
    (merged, wl + wr + cross)
}

/// `Σ_{i≠j} |aᵢ−aⱼ|·|bᵢ−bⱼ|` for a paired sample whose second vector is
/// already sorted weakly ascending, in O(n log n): the closed-form signed
/// part from three running sums, plus the merge-counted inversion part.
pub fn compute_frobenius_inner_product(samples0: &Vec<i64>, samples1: &Vec<i64>) -> (r: i128)
    requires
        samples0@.len() == samples1@.len(),
        samples0@.len() <= MAX_LEN,
        crate::model::bounded_by(ints(samples0@), MAX_ABS_SAMPLE as int),
        crate::model::bounded_by(ints(samples1@), MAX_ABS_SAMPLE as int),
        crate::model::non_decreasing(ints(samples1@)),
    ensures
        r as int == frob(zipped(ints(samples0@), ints(samples1@))),
{
    let n = samples0.len();
    let ghost m = MAX_ABS_SAMPLE as int;
    let ghost fa = |p: (int, int)| p.0;
    let ghost fb = |p: (int, int)| p.1;
    let ghost fab = |p: (int, int)| p.0 * p.1;
    let mut pairs: Vec<(i64, i64)> = Vec::new();
    let mut i: usize = 0;
    while i < n
        invariant
            i <= n,
            n == samples0@.len() && n == samples1@.len(),
            pairs@.len() == i,
            forall|k: int|
                0 <= k < i ==> #[trigger] pairs@[k] == (samples0@[k], samples1@[k]),
        decreases n - i,
    {
        pairs.push((samples0[i], samples1[i]));
        i += 1;
    }
    let ghost zq = pz(pairs@);
    proof {
        assert(zq =~= zipped(ints(samples0@), ints(samples1@)));
        assert forall|k: int| 0 <= k < zq.len() implies -m <= (#[trigger] zq[k]).0 <= m && -m
            <= zq[k].1 <= m && -(m * m) <= fab(zq[k]) <= m * m by {
            assert(ints(samples0@)[k] == samples0@[k] as int);
            assert(ints(samples1@)[k] == samples1@[k] as int);
            assert(-(m * m) <= zq[k].0 * zq[k].1 <= m * m) by (nonlinear_arith)
                requires
                    -m <= zq[k].0 <= m,
                    -m <= zq[k].1 <= m,
                    0 <= m,
            ;
        }
        assert(pairs_bounded(zq, m));
    }
    let mut sa: i128 = 0;
    let mut sb: i128 = 0;
    let mut sab: i128 = 0;
    let mut i: usize = 0;
    while i < n
        invariant
            i <= n,
            n == pairs@.len(),
            n <= MAX_LEN,
            zq == pz(pairs@),
            m == MAX_ABS_SAMPLE as int,
            fa == (|p: (int, int)| p.0),
            fb == (|p: (int, int)| p.1),
            fab == (|p: (int, int)| p.0 * p.1),
            forall|k: int|
                0 <= k < zq.len() ==> -m <= (#[trigger] zq[k]).0 <= m && -m <= zq[k].1 <= m && -(m
                    * m) <= fab(zq[k]) <= m * m,
            sa as int == sum_of(zq.take(i as int), fa),
            sb as int == sum_of(zq.take(i as int), fb),
            sab as int == sum_of(zq.take(i as int), fab),
        decreases n - i,
    {
        proof {
            lemma_sum_of_abs_bound(zq.take(i as int), fa, m);
            lemma_sum_of_abs_bound(zq.take(i as int), fb, m);
            assert(0 <= m * m) by (nonlinear_arith)
                requires
                    0 <= m,
            ;
            lemma_sum_of_abs_bound(zq.take(i as int), fab, m * m);
            assert(zq.take(i as int).len() == i);
            assert(i * m <= 1_000_000_000_000 && i * (m * m) <= 1_000_000_000_000_000_000)
                by (nonlinear_arith)
                requires
                    0 <= i <= 1_000_000,
                    m == 1_000_000,
            ;
            lemma_sum_of_take_step(zq, i as int, fa);
            lemma_sum_of_take_step(zq, i as int, fb);
            lemma_sum_of_take_step(zq, i as int, fab);
            assert(zq[i as int] == (pairs@[i as int].0 as int, pairs@[i as int].1 as int));
            assert(-(m * m) <= (pairs@[i as int].0 as int) * (pairs@[i as int].1 as int) <= m
                * m) by (nonlinear_arith)
                requires
                    -m <= pairs@[i as int].0 as int <= m,
                    -m <= pairs@[i as int].1 as int <= m,
                    0 <= m,
            ;
        }
        let p = pairs[i];
        sa = sa + (p.0 as i128);
        sb = sb + (p.1 as i128);
        sab = sab + (p.0 as i128) * (p.1 as i128);
        i += 1;
    }
    proof {
        crate::sums::lemma_sum_of_take_all(zq, fa);
        crate::sums::lemma_sum_of_take_all(zq, fb);
        crate::sums::lemma_sum_of_take_all(zq, fab);
        assert(0 <= m * m) by (nonlinear_arith)
            requires
                0 <= m,
        ;
        lemma_sum_of_abs_bound(zq, fa, m);
        lemma_sum_of_abs_bound(zq, fb, m);
        lemma_sum_of_abs_bound(zq, fab, m * m);
        assert(zq.len() * m <= 1_000_000_000_000 && zq.len() * (m * m)
            <= 1_000_000_000_000_000_000) by (nonlinear_arith)
            requires
                0 <= zq.len() <= 1_000_000,
                m == 1_000_000,
        ;
        assert(-1_000_000_000_000_000_000_000_000 <= (n as int) * (sab as int)
            <= 1_000_000_000_000_000_000_000_000 && -1_000_000_000_000_000_000_000_000 <= (
        sa as int) * (sb as int) <= 1_000_000_000_000_000_000_000_000) by (nonlinear_arith)
            requires
                0 <= n <= 1_000_000,
                -1_000_000_000_000_000_000 <= sab as int <= 1_000_000_000_000_000_000,
                -1_000_000_000_000 <= sa as int <= 1_000_000_000_000,
                -1_000_000_000_000 <= sb as int <= 1_000_000_000_000,
        ;
    }
    let t: i128 = (n as i128) * sab - sa * sb;
    let res = sort_and_count(pairs);
    let w = res.1;
    proof {
        lemma_tsum_closed(zq);
        assert forall|i1: int, j1: int| 0 <= i1 <= j1 < zq.len() implies (#[trigger] zq[i1]).1
            <= (#[trigger] zq[j1]).1 by {
            assert(ints(samples1@)[i1] <= ints(samples1@)[j1]);
        }
        lemma_frob_decomposition(zq);
        lemma_wsum_bound(zq, m);
        assert(zq.len() * (zq.len() * (4 * (m * m))) <= 4_000_000_000_000_000_000_000_000)
            by (nonlinear_arith)
            requires
                0 <= zq.len() <= 1_000_000,
                m == 1_000_000,
        ;
    }
    2 * t + 4 * w
}

} // verus!
