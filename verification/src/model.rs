//! The mathematical model: distance-matrix statistics as exact integer
//! double sums over a paired sample.
//!
//! A sample pair of length `n` is modelled as a `Seq<(int, int)>`.  All
//! statistics are the numerators of the Székely–Rizzo–Bakirov quantities
//! scaled by `n⁴`, so that they are integers:
//!
//! * `frob(z)` — the Frobenius inner product of the two pairwise-distance
//!   matrices, `Σᵢⱼ |aᵢ−aⱼ|·|bᵢ−bⱼ|`;
//! * `dcov_sq_num(z)` — `n⁴ · dCov²`, out of which `dCov² ≥ 0`, `dVar²` and
//!   `dCor² = dCov²/√(dVar₁²·dVar₂²)` are formed by the callers.

use vstd::prelude::*;

use crate::sums::is_index_bijection;
use crate::sums::lemma_sum_of_bounds;
use crate::sums::lemma_sum_of_congruence;
use crate::sums::lemma_sum_of_parallel;
use crate::sums::lemma_sum_of_reindex;
use crate::sums::sum_of;

verus! {

/// Largest accepted sample length; keeps all scaled statistics inside `i128`.
pub const MAX_LEN: usize = 1_000_000;

/// Largest accepted sample magnitude; keeps all scaled statistics inside `i128`.
pub const MAX_ABS_SAMPLE: i64 = 1_000_000;

/// The absolute difference `|a − b|`.
pub open spec fn absd(a: int, b: int) -> int {
    if a >= b {
        a - b
    } else {
        b - a
    }
}

/// The positive part `max(x, 0)`.
pub open spec fn pos_part(x: int) -> int {
    if x > 0 {
        x
    } else {
        0
    }
}

/// `max(x, 0)`: the substitution of 0 for a (numerically) negative square.
pub open spec fn clamp0(x: int) -> int {
    if x < 0 {
        0
    } else {
        x
    }
}

/// A machine sample vector read as a sequence of mathematical integers.
pub open spec fn ints(s: Seq<i64>) -> Seq<int> {
    s.map_values(|x: i64| x as int)
}

/// Pointwise pairing of two equally long sequences.
pub open spec fn zipped(v1: Seq<int>, v2: Seq<int>) -> Seq<(int, int)> {
    Seq::new(v1.len(), |i: int| (v1[i], v2[i]))
}

/// `|a₁ − a₂| · |b₁ − b₂|` for two sample pairs.
pub open spec fn pair_dist(p: (int, int), q: (int, int)) -> int {
    absd(p.0, q.0) * absd(p.1, q.1)
}

/// One row of the elementwise product of the two distance matrices, summed:
/// `Σⱼ |p.0−aⱼ|·|p.1−bⱼ|`.
pub open spec fn pair_row(z: Seq<(int, int)>, p: (int, int)) -> int {
    sum_of(z, |q: (int, int)| pair_dist(p, q))
}

/// `Σᵢ Σⱼ |aᵢ−aⱼ|·|bᵢ−bⱼ|`: the Frobenius inner product of the two
/// pairwise-distance matrices (the diagonal contributes zero).
pub open spec fn frob(z: Seq<(int, int)>) -> int {
    sum_of(z, |p: (int, int)| pair_row(z, p))
}

/// Row sum of the first coordinate's distance matrix against the value `x`:
/// `Σⱼ |x − aⱼ|`.
pub open spec fn row1(z: Seq<(int, int)>, x: int) -> int {
    sum_of(z, |q: (int, int)| absd(x, q.0))
}

/// Row sum of the second coordinate's distance matrix against the value `y`.
pub open spec fn row2(z: Seq<(int, int)>, y: int) -> int {
    sum_of(z, |q: (int, int)| absd(y, q.1))
}

/// `n⁴ · dCov²` of the paired sample: with `aᵢ = row1(z, z[i].0)` and
/// `bᵢ = row2(z, z[i].1)`, this is `n²·frob(z) − 2n·Σᵢ aᵢbᵢ + (Σᵢaᵢ)(Σᵢbᵢ)`.
pub open spec fn dcov_sq_num(z: Seq<(int, int)>) -> int {
    let n = z.len() as int;
    n * n * frob(z) - 2 * n * sum_of(z, |p: (int, int)| row1(z, p.0) * row2(z, p.1)) + sum_of(
        z,
        |p: (int, int)| row1(z, p.0),
    ) * sum_of(z, |p: (int, int)| row2(z, p.1))
}

/// `n⁴ · dVar²`: the distance covariance of a sample with itself.
pub open spec fn dvar_sq_num(v: Seq<int>) -> int {
    dcov_sq_num(zipped(v, v))
}

/// Weak ascending order.
pub open spec fn non_decreasing(s: Seq<int>) -> bool {
    forall|i: int, j: int| 0 <= i <= j < s.len() ==> #[trigger] s[i] <= #[trigger] s[j]
}

/// Every element lies in `[−m, m]`.
pub open spec fn bounded_by(s: Seq<int>, m: int) -> bool {
    forall|i: int| 0 <= i < s.len() ==> -m <= #[trigger] s[i] <= m
}

/// Both coordinates of every pair lie in `[−m, m]`.
pub open spec fn pairs_bounded(z: Seq<(int, int)>, m: int) -> bool {
    forall|i: int|
        0 <= i < z.len() ==> -m <= (#[trigger] z[i]).0 <= m && -m <= z[i].1 <= m
}

/// `ord` enumerates the positions of `s` once each, in weakly ascending order
/// of the values of `s`.
pub open spec fn is_sort_order(ord: Seq<usize>, s: Seq<int>) -> bool {
    &&& is_index_bijection(ord, s.len())
    &&& forall|k1: int, k2: int|
        0 <= k1 <= k2 < ord.len() ==> s[#[trigger] ord[k1] as int] <= s[#[trigger] ord[k2] as int]
}

/// The sequence `s` reordered by `ord`.
pub open spec fn reordered<A>(s: Seq<A>, ord: Seq<usize>) -> Seq<A> {
    Seq::new(ord.len(), |k: int| s[ord[k] as int])
}

/// The statistics only see the set of sample pairs: reading the paired sample
/// through an index bijection changes none of them.
pub proof fn lemma_dcov_sq_num_reindex(z: Seq<(int, int)>, ord: Seq<usize>)
    requires
        is_index_bijection(ord, z.len()),
    ensures
        frob(reordered(z, ord)) == frob(z),
        dcov_sq_num(reordered(z, ord)) == dcov_sq_num(z),
    decreases 0int,
{
    let w = reordered(z, ord);
    assert(w =~= Seq::new(ord.len(), |k: int| z[ord[k] as int]));
    // Inner sums agree pointwise between w and z.
    assert forall|x: int| #[trigger] row1(w, x) == row1(z, x) by {
        lemma_sum_of_reindex(z, ord, |q: (int, int)| absd(x, q.0));
    }
    assert forall|x: int| #[trigger] row2(w, x) == row2(z, x) by {
        lemma_sum_of_reindex(z, ord, |q: (int, int)| absd(x, q.1));
    }
    assert forall|p: (int, int)| #[trigger] pair_row(w, p) == pair_row(z, p) by {
        lemma_sum_of_reindex(z, ord, |q: (int, int)| pair_dist(p, q));
    }
    // Outer sums: first rewrite the w-indexed term functions to the z-indexed
    // ones, then reindex.
    lemma_sum_of_congruence(
        w,
        |p: (int, int)| pair_row(w, p),
        |p: (int, int)| pair_row(z, p),
    );
    lemma_sum_of_reindex(z, ord, |p: (int, int)| pair_row(z, p));
    lemma_sum_of_congruence(
        w,
        |p: (int, int)| row1(w, p.0) * row2(w, p.1),
        |p: (int, int)| row1(z, p.0) * row2(z, p.1),
    );
    lemma_sum_of_reindex(z, ord, |p: (int, int)| row1(z, p.0) * row2(z, p.1));
    lemma_sum_of_congruence(w, |p: (int, int)| row1(w, p.0), |p: (int, int)| row1(z, p.0));
    lemma_sum_of_reindex(z, ord, |p: (int, int)| row1(z, p.0));
    lemma_sum_of_congruence(w, |p: (int, int)| row2(w, p.1), |p: (int, int)| row2(z, p.1));
    lemma_sum_of_reindex(z, ord, |p: (int, int)| row2(z, p.1));
}

/// Swapping the two coordinates of every pair leaves `frob` and the scaled
/// covariance unchanged: the statistics are symmetric in their two arguments.
pub proof fn lemma_dcov_sq_num_swap(v1: Seq<int>, v2: Seq<int>)
    requires
        v1.len() == v2.len(),
    ensures
        frob(zipped(v2, v1)) == frob(zipped(v1, v2)),
        dcov_sq_num(zipped(v2, v1)) == dcov_sq_num(zipped(v1, v2)),
{
    let z = zipped(v1, v2);
    let w = zipped(v2, v1);
    assert forall|x: int| #[trigger] row1(w, x) == row2(z, x) by {
        lemma_sum_of_parallel(
            w,
            z,
            |q: (int, int)| absd(x, q.0),
            |q: (int, int)| absd(x, q.1),
        );
    }
    assert forall|x: int| #[trigger] row2(w, x) == row1(z, x) by {
        lemma_sum_of_parallel(
            w,
            z,
            |q: (int, int)| absd(x, q.1),
            |q: (int, int)| absd(x, q.0),
        );
    }
    assert forall|p: (int, int)| #[trigger] pair_row(w, p) == pair_row(z, ((p.1, p.0))) by {
        assert forall|i: int| 0 <= i < w.len() implies pair_dist(p, w[i]) == pair_dist(
            (p.1, p.0),
            z[i],
        ) by {
            let x = absd(p.0, w[i].0);
            let y = absd(p.1, w[i].1);
            assert(w[i].0 == z[i].1 && w[i].1 == z[i].0);
            assert(x * y == y * x) by (nonlinear_arith);
        }
        lemma_sum_of_parallel(
            w,
            z,
            |q: (int, int)| pair_dist(p, q),
            |q: (int, int)| pair_dist(((p.1, p.0)), q),
        );
    }
    lemma_sum_of_parallel(
        w,
        z,
        |p: (int, int)| pair_row(w, p),
        |p: (int, int)| pair_row(z, p),
    );
    assert forall|i: int| 0 <= i < w.len() implies row1(w, (#[trigger] w[i]).0) * row2(w, w[i].1)
        == row1(z, z[i].0) * row2(z, z[i].1) by {
        assert(w[i].0 == z[i].1 && w[i].1 == z[i].0);
        assert(row1(w, w[i].0) == row2(z, z[i].1));
        assert(row2(w, w[i].1) == row1(z, z[i].0));
        let x = row1(z, z[i].0);
        let y = row2(z, z[i].1);
        assert(y * x == x * y) by (nonlinear_arith);
    }
    lemma_sum_of_parallel(
        w,
        z,
        |p: (int, int)| row1(w, p.0) * row2(w, p.1),
        |p: (int, int)| row1(z, p.0) * row2(z, p.1),
    );
    lemma_sum_of_parallel(w, z, |p: (int, int)| row1(w, p.0), |p: (int, int)| row2(z, p.1));
    lemma_sum_of_parallel(w, z, |p: (int, int)| row2(w, p.1), |p: (int, int)| row1(z, p.0));
}

/// Bounds on the statistics of a bounded sample, as needed for machine
/// arithmetic: with `n = z.len()` and magnitudes at most `m`,
/// `0 ≤ frob ≤ 4n²m²` and `|dcov_sq_num| ≤ 8n⁴m²`.
pub proof fn lemma_dcov_sq_num_bounds(z: Seq<(int, int)>, m: int)
    requires
        0 <= m,
        pairs_bounded(z, m),
    ensures
        0 <= frob(z) <= 4 * z.len() * z.len() * m * m,
        forall|x: int| -m <= x <= m ==> 0 <= #[trigger] row1(z, x) <= 2 * z.len() * m,
        forall|x: int| -m <= x <= m ==> 0 <= #[trigger] row2(z, x) <= 2 * z.len() * m,
        0 <= sum_of(z, |p: (int, int)| row1(z, p.0) * row2(z, p.1)) <= 4 * z.len() * z.len()
            * z.len() * m * m,
        0 <= sum_of(z, |p: (int, int)| row1(z, p.0)) <= 2 * z.len() * z.len() * m,
        0 <= sum_of(z, |p: (int, int)| row2(z, p.1)) <= 2 * z.len() * z.len() * m,
        -8 * z.len() * z.len() * z.len() * z.len() * m * m <= dcov_sq_num(z) <= 8 * z.len()
            * z.len() * z.len() * z.len() * m * m,
{
    let n = z.len() as int;
    assert forall|x: int| -m <= x <= m implies 0 <= #[trigger] row1(z, x) <= 2 * n * m by {
        lemma_sum_of_bounds(z, |q: (int, int)| absd(x, q.0), 0, 2 * m);
        assert(n * (2 * m) == 2 * n * m) by (nonlinear_arith);
    }
    assert forall|x: int| -m <= x <= m implies 0 <= #[trigger] row2(z, x) <= 2 * n * m by {
        lemma_sum_of_bounds(z, |q: (int, int)| absd(x, q.1), 0, 2 * m);
        assert(n * (2 * m) == 2 * n * m) by (nonlinear_arith);
    }
    assert forall|p: (int, int)| -m <= p.0 <= m && -m <= p.1 <= m implies 0 <= #[trigger] pair_row(
        z,
        p,
    ) <= 4 * n * m * m by {
        assert forall|i: int| 0 <= i < z.len() implies 0 <= pair_dist(p, #[trigger] z[i]) <= 4 * m
            * m by {
            assert(0 <= absd(p.0, z[i].0) <= 2 * m);
            assert(0 <= absd(p.1, z[i].1) <= 2 * m);
            assert(0 <= absd(p.0, z[i].0) * absd(p.1, z[i].1) <= (2 * m) * (2 * m))
                by (nonlinear_arith)
                requires
                    0 <= absd(p.0, z[i].0) <= 2 * m,
                    0 <= absd(p.1, z[i].1) <= 2 * m,
            ;
            assert((2 * m) * (2 * m) == 4 * m * m) by (nonlinear_arith);
        }
        lemma_sum_of_bounds(z, |q: (int, int)| pair_dist(p, q), 0, 4 * m * m);
        assert(n * (4 * m * m) == 4 * n * m * m) by (nonlinear_arith);
    }
    lemma_sum_of_bounds(z, |p: (int, int)| pair_row(z, p), 0, 4 * n * m * m);
    assert(n * (4 * n * m * m) == 4 * n * n * m * m) by (nonlinear_arith);
    assert forall|i: int| 0 <= i < z.len() implies 0 <= row1(z, (#[trigger] z[i]).0) * row2(
        z,
        z[i].1,
    ) <= 4 * n * n * m * m by {
        assert(0 <= row1(z, z[i].0) * row2(z, z[i].1) <= (2 * n * m) * (2 * n * m))
            by (nonlinear_arith)
            requires
                0 <= row1(z, z[i].0) <= 2 * n * m,
                0 <= row2(z, z[i].1) <= 2 * n * m,
        ;
        assert((2 * n * m) * (2 * n * m) == 4 * n * n * m * m) by (nonlinear_arith);
    }
    lemma_sum_of_bounds(z, |p: (int, int)| row1(z, p.0) * row2(z, p.1), 0, 4 * n * n * m * m);
    assert(n * (4 * n * n * m * m) == 4 * n * n * n * m * m) by (nonlinear_arith);
    lemma_sum_of_bounds(z, |p: (int, int)| row1(z, p.0), 0, 2 * n * m);
    lemma_sum_of_bounds(z, |p: (int, int)| row2(z, p.1), 0, 2 * n * m);
    assert(n * (2 * n * m) == 2 * n * n * m) by (nonlinear_arith);
    let f = frob(z);
    let sab = sum_of(z, |p: (int, int)| row1(z, p.0) * row2(z, p.1));
    let sa = sum_of(z, |p: (int, int)| row1(z, p.0));
    let sb = sum_of(z, |p: (int, int)| row2(z, p.1));
    let scale = n * n * n * n * m * m;
    assert(0 <= n * n * f <= 4 * scale) by (nonlinear_arith)
        requires
            0 <= f <= 4 * n * n * m * m,
            0 <= n,
            scale == n * n * n * n * m * m,
    ;
    assert(0 <= 2 * n * sab <= 8 * scale) by (nonlinear_arith)
        requires
            0 <= sab <= 4 * n * n * n * m * m,
            0 <= n,
            scale == n * n * n * n * m * m,
    ;
    assert(0 <= sa * sb <= 4 * scale) by (nonlinear_arith)
        requires
            0 <= sa <= 2 * n * n * m,
            0 <= sb <= 2 * n * n * m,
            scale == n * n * n * n * m * m,
    ;
    assert(8 * n * n * n * n * m * m == 8 * scale) by (nonlinear_arith)
        requires
            scale == n * n * n * n * m * m,
    ;
    assert(-8 * n * n * n * n * m * m == -8 * scale) by (nonlinear_arith)
        requires
            scale == n * n * n * n * m * m,
    ;
    assert(dcov_sq_num(z) == n * n * f - 2 * n * sab + sa * sb);
}


/// `Σⱼ |x − vⱼ|`: one row sum of the pairwise-distance matrix of `v`,
/// referenced by the value `x` of the row's sample point.
pub open spec fn dist_row(v: Seq<int>, x: int) -> int {
    sum_of(v, |y: int| absd(x, y))
}

/// `Σⱼ vⱼ`.
pub open spec fn tot(v: Seq<int>) -> int {
    sum_of(v, |y: int| y)
}

/// `Σⱼ |x − vⱼ|·wⱼ`: one row of the distance matrix of `v` applied to the
/// weight vector `w`.
pub open spec fn dist_row_weighted(v: Seq<int>, w: Seq<int>, x: int) -> int {
    sum_of(zipped(v, w), |q: (int, int)| absd(x, q.0) * q.1)
}

/// The row sums of a zipped sample are the row sums of its two components.
pub proof fn lemma_rows_of_zipped(v1: Seq<int>, v2: Seq<int>)
    requires
        v1.len() == v2.len(),
    ensures
        forall|x: int| #[trigger] row1(zipped(v1, v2), x) == dist_row(v1, x),
        forall|x: int| #[trigger] row2(zipped(v1, v2), x) == dist_row(v2, x),
{
    let z = zipped(v1, v2);
    assert forall|x: int| #[trigger] row1(z, x) == dist_row(v1, x) by {
        lemma_sum_of_parallel(z, v1, |q: (int, int)| absd(x, q.0), |y: int| absd(x, y));
    }
    assert forall|x: int| #[trigger] row2(z, x) == dist_row(v2, x) by {
        lemma_sum_of_parallel(z, v2, |q: (int, int)| absd(x, q.1), |y: int| absd(x, y));
    }
}

/// Row sums and totals are unchanged by reading the sample through an index
/// bijection.
pub proof fn lemma_dist_row_reindex(s: Seq<int>, ord: Seq<usize>)
    requires
        is_index_bijection(ord, s.len()),
    ensures
        forall|x: int| #[trigger] dist_row(reordered(s, ord), x) == dist_row(s, x),
        tot(reordered(s, ord)) == tot(s),
{
    let w = reordered(s, ord);
    assert(w =~= Seq::new(ord.len(), |k: int| s[ord[k] as int]));
    assert forall|x: int| #[trigger] dist_row(w, x) == dist_row(s, x) by {
        lemma_sum_of_reindex(s, ord, |y: int| absd(x, y));
    }
    lemma_sum_of_reindex(s, ord, |y: int| y);
}

} // verus!
