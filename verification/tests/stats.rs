use dist_corr::CorStats;
use dist_corr::DistCorrError;
use dist_corr::DistCorrelation;
use dist_corr::DistCovariance;
use dist_corr::grand_mean::grand_means;
use dist_corr::grand_mean::grand_means_weighted;
use dist_corr::frob_inner_product::compute_frobenius_inner_product;
use dist_corr::ordering::order_wrt_v2_simple;

/// The floating-point distance correlation out of the exact ingredients.
fn dcor(stats: &CorStats) -> f64 {
    let denom = ((stats.var1_num as f64) * (stats.var2_num as f64)).sqrt();
    if denom > 0.0 {
        ((stats.cov_num as f64) / denom).sqrt().clamp(0.0, 1.0)
    } else {
        0.0
    }
}

/// A small deterministic pseudo-random stream over [-bound, bound].
struct Lcg(u64);

impl Lcg {
    fn next_in(&mut self, bound: i64) -> i64 {
        self.0 = self.0.wrapping_mul(6364136223846793005).wrapping_add(1442695040888963407);
        let span = (2 * bound + 1) as u64;
        ((self.0 >> 11) % span) as i64 - bound
    }
}

fn naive_dcov_sq_num(v1: &[i64], v2: &[i64]) -> i128 {
    let n = v1.len() as i128;
    let mut frob: i128 = 0;
    let mut a1 = vec![0i128; v1.len()];
    let mut a2 = vec![0i128; v1.len()];
    for i in 0..v1.len() {
        for j in 0..v1.len() {
            let d1 = (v1[i] - v1[j]).abs() as i128;
            let d2 = (v2[i] - v2[j]).abs() as i128;
            frob += d1 * d2;
            a1[i] += d1;
            a2[i] += d2;
        }
    }
    let dot: i128 = (0..v1.len()).map(|i| a1[i] * a2[i]).sum();
    let s1: i128 = a1.iter().sum();
    let s2: i128 = a2.iter().sum();
    n * n * frob - 2 * n * dot + s1 * s2
}

#[test]
fn zero_covariance_binary() {
    let v1 = vec![0i64, 0, 1, 1];
    let v2 = vec![0i64, 1, 1, 0];
    let cov = DistCovariance;
    let bb = cov.compute_binary(&v1, &v2, true, true).unwrap();
    assert_eq!(bb.num, 0);
    let gen = cov.compute(&v1, &v2).unwrap();
    assert_eq!(gen.num, 0);
    let corr = DistCorrelation;
    let stats = corr.compute_binary(&v1, &v2, true, true).unwrap();
    assert_eq!(stats.cov_num, 0);
    assert_eq!(dcor(&stats), 0.0);
}

#[test]
fn three_point_exact_value() {
    // dCor((1,0,-1),(1,0,1)) = sqrt(2/sqrt(40)), so dCor^4 = 1/10:
    // 10·cov² = var1·var2 exactly.
    let v1 = vec![1i64, 0, -1];
    let v2 = vec![1i64, 0, 1];
    let corr = DistCorrelation;
    let stats = corr.compute(&v1, &v2).unwrap();
    assert_eq!(10 * stats.cov_num * stats.cov_num, stats.var1_num * stats.var2_num);
    let expected = (2.0 / 40.0f64.sqrt()).sqrt();
    assert!((dcor(&stats) - expected).abs() <= 1e-10);
}

#[test]
fn linear_relation_is_perfect() {
    let v1 = vec![1i64, 2, 3];
    let v2 = vec![2i64, 4, 6];
    let corr = DistCorrelation;
    let stats = corr.compute(&v1, &v2).unwrap();
    assert_eq!(stats.cov_num * stats.cov_num, stats.var1_num * stats.var2_num);
    assert!(stats.cov_num > 0);
    assert!((dcor(&stats) - 1.0).abs() <= 1e-12);
}

#[test]
fn self_correlation_is_one() {
    let v = vec![3i64, -7, 12, 0, 5, 5, -2];
    let corr = DistCorrelation;
    let stats = corr.compute(&v, &v).unwrap();
    assert_eq!(stats.cov_num, stats.var1_num);
    assert_eq!(stats.cov_num, stats.var2_num);
    assert!((dcor(&stats) - 1.0).abs() <= 1e-12);
}

#[test]
fn symmetry_exact() {
    let v1 = vec![4i64, -1, 0, 9, 2];
    let v2 = vec![7i64, 7, -3, 1, 0];
    let corr = DistCorrelation;
    let a = corr.compute(&v1, &v2).unwrap();
    let b = corr.compute(&v2, &v1).unwrap();
    assert_eq!(a.cov_num, b.cov_num);
    assert_eq!(a.var1_num, b.var2_num);
    assert_eq!(a.var2_num, b.var1_num);
    let cov = DistCovariance;
    assert_eq!(cov.compute(&v1, &v2).unwrap().num, cov.compute(&v2, &v1).unwrap().num);
}

#[test]
fn affine_invariance() {
    // dCor(c·v + s, v) = 1: cov² = var1·var2 exactly.
    let v = vec![5i64, -3, 8, 0, 1, 1, -9];
    let w: Vec<i64> = v.iter().map(|x| 3 * x + 7).collect();
    let corr = DistCorrelation;
    let stats = corr.compute(&w, &v).unwrap();
    assert_eq!(stats.cov_num * stats.cov_num, stats.var1_num * stats.var2_num);
    assert!((dcor(&stats) - 1.0).abs() <= 1e-12);
}

#[test]
fn independent_samples_decorrelate() {
    let mut g1 = Lcg(134);
    let mut g2 = Lcg(11);
    let n = 1000;
    let v1: Vec<i64> = (0..n).map(|_| g1.next_in(1_000_000)).collect();
    let v2: Vec<i64> = (0..n).map(|_| g2.next_in(1_000_000)).collect();
    let corr = DistCorrelation;
    let stats = corr.compute(&v1, &v2).unwrap();
    assert!(dcor(&stats) < 0.15);
}

#[test]
fn agrees_with_naive_reference() {
    let mut g1 = Lcg(897);
    let mut g2 = Lcg(13);
    let n = 200;
    let v1: Vec<i64> = (0..n).map(|_| g1.next_in(500)).collect();
    let v2: Vec<i64> = (0..n).map(|i| g2.next_in(500) + v1[i as usize]).collect();
    let cov = DistCovariance;
    let fast = cov.compute(&v1, &v2).unwrap();
    assert_eq!(fast.num, naive_dcov_sq_num(&v1, &v2).max(0));
}

#[test]
fn determinism_across_calls() {
    let mut g1 = Lcg(121);
    let mut g2 = Lcg(597);
    let v1: Vec<i64> = (0..500).map(|_| g1.next_in(10_000)).collect();
    let v2: Vec<i64> = (0..500).map(|_| g2.next_in(10_000)).collect();
    let corr = DistCorrelation;
    let first = corr.compute(&v1, &v2).unwrap();
    for _ in 0..100 {
        let again = corr.compute(&v1, &v2).unwrap();
        assert_eq!(first.cov_num, again.cov_num);
        assert_eq!(first.var1_num, again.var1_num);
        assert_eq!(first.var2_num, again.var2_num);
    }
}

#[test]
fn binary_path_matches_general() {
    let mut g = Lcg(42);
    let n = 400;
    let v1: Vec<i64> = (0..n).map(|_| (g.next_in(100) & 1).abs()).collect();
    let v2: Vec<i64> = (0..n).map(|i| if i % 3 == 0 { v1[i as usize] } else { (g.next_in(100) & 1).abs() }).collect();
    let corr = DistCorrelation;
    let bb = corr.compute_binary(&v1, &v2, true, true).unwrap();
    let gen = corr.compute(&v1, &v2).unwrap();
    assert_eq!(bb.cov_num, gen.cov_num);
    assert_eq!(bb.var1_num, gen.var1_num);
    assert_eq!(bb.var2_num, gen.var2_num);
    assert!((dcor(&bb) - dcor(&gen)).abs() <= 1e-10);
}

#[test]
fn one_binary_flip_symmetry() {
    let mut g = Lcg(7);
    let n = 300;
    let v1: Vec<i64> = (0..n).map(|_| (g.next_in(100) & 1).abs()).collect();
    let v2: Vec<i64> = (0..n).map(|_| g.next_in(5_000)).collect();
    let corr = DistCorrelation;
    let a = corr.compute_binary(&v1, &v2, true, false).unwrap();
    let b = corr.compute_binary(&v2, &v1, false, true).unwrap();
    assert_eq!(a.cov_num, b.cov_num);
    assert_eq!(a.var1_num, b.var2_num);
    assert_eq!(a.var2_num, b.var1_num);
    assert_eq!(dcor(&a), dcor(&b));
}

#[test]
fn clamp_keeps_unit_interval() {
    let cases: Vec<(Vec<i64>, Vec<i64>)> = vec![
        (vec![1, 1, 1], vec![5, 5, 5]),
        (vec![0, 1], vec![1, 0]),
        (vec![2, -2, 2, -2], vec![1, 1, -1, -1]),
    ];
    let corr = DistCorrelation;
    for (v1, v2) in cases {
        let stats = corr.compute(&v1, &v2).unwrap();
        let r = dcor(&stats);
        assert!(stats.cov_num >= 0);
        assert!((0.0..=1.0).contains(&r));
    }
}

#[test]
fn error_kinds() {
    let corr = DistCorrelation;
    let cov = DistCovariance;
    assert_eq!(
        corr.compute(&vec![1, 2, 3], &vec![1, 2, 3, 4]).unwrap_err(),
        DistCorrError::LengthMismatch
    );
    assert_eq!(corr.compute(&vec![], &vec![]).unwrap_err(), DistCorrError::EmptyInput);
    assert_eq!(
        corr.compute_binary(&vec![0, 2, 1], &vec![0, 1, 1], true, false).unwrap_err(),
        DistCorrError::NonBinaryInput
    );
    assert_eq!(
        cov.compute_binary(&vec![0, 1, 1], &vec![0, 5, 1], false, true).unwrap_err(),
        DistCorrError::NonBinaryInput
    );
    assert_eq!(DistCovariance::compute_var(&vec![]).unwrap_err(), DistCorrError::EmptyInput);
}

#[test]
fn compute_var_matches_compute() {
    let v = vec![9i64, -4, 0, 3, 3, 17];
    let var = DistCovariance::compute_var(&v).unwrap();
    let cov = DistCovariance;
    let self_cov = cov.compute(&v, &v).unwrap();
    assert_eq!(var.num, self_cov.num);
    assert_eq!(var.n, v.len());
}

#[test]
fn grand_means_are_row_sums() {
    let v = vec![-5i64, -1, 0, 2, 9];
    let out = grand_means(&v, None);
    for i in 0..v.len() {
        let expected: i64 = v.iter().map(|y| (v[i] - y).abs()).sum();
        assert_eq!(out[i], expected);
    }
}

#[test]
fn grand_means_unordered_indexing() {
    let v = vec![4i64, -2, 7, 0];
    let mut idx: Vec<usize> = (0..v.len()).collect();
    idx.sort_by_key(|&i| v[i]);
    let out = grand_means(&v, Some(&idx));
    for i in 0..v.len() {
        let expected: i64 = v.iter().map(|y| (v[i] - y).abs()).sum();
        assert_eq!(out[i], expected);
    }
}

#[test]
fn grand_means_weighted_matrix_product() {
    let v = vec![-3i64, 0, 1, 6];
    let w = vec![2i64, -1, 5, 3];
    let out = grand_means_weighted(&v, &w);
    for i in 0..v.len() {
        let expected: i64 = (0..v.len()).map(|j| (v[i] - v[j]).abs() * w[j]).sum();
        assert_eq!(out[i], expected);
    }
}

#[test]
fn frobenius_inner_product_definition() {
    let mut g = Lcg(31);
    let n = 150;
    let s0: Vec<i64> = (0..n).map(|_| g.next_in(1000)).collect();
    let mut s1: Vec<i64> = (0..n).map(|_| g.next_in(1000)).collect();
    s1.sort();
    let fast = compute_frobenius_inner_product(&s0, &s1);
    let mut brute: i128 = 0;
    for i in 0..s0.len() {
        for j in 0..s0.len() {
            brute += ((s0[i] - s0[j]).abs() as i128) * ((s1[i] - s1[j]).abs() as i128);
        }
    }
    assert_eq!(fast, brute);
}

#[test]
fn ordering_sorts_and_keeps_pairs() {
    let v1 = vec![10i64, 20, 30, 40];
    let v2 = vec![3i64, 1, 2, 1];
    let (v1_per, v2_ord) = order_wrt_v2_simple(&v1, &v2);
    assert!(v2_ord.windows(2).all(|w| w[0] <= w[1]));
    let mut pairs: Vec<(i64, i64)> = v1.iter().zip(v2.iter()).map(|(a, b)| (*a, *b)).collect();
    let mut permuted: Vec<(i64, i64)> =
        v1_per.iter().zip(v2_ord.iter()).map(|(a, b)| (*a, *b)).collect();
    pairs.sort();
    permuted.sort();
    assert_eq!(pairs, permuted);
}

#[test]
fn semi_binary_consistency() {
    // One binary, one general: the dedicated path and the general one agree.
    let v1 = vec![1i64, 0, 0, 1, 1, 0];
    let v2 = vec![9i64, -2, 4, 4, 0, 11];
    let corr = DistCorrelation;
    let ob = corr.compute_binary(&v1, &v2, true, false).unwrap();
    let gen = corr.compute(&v1, &v2).unwrap();
    assert_eq!(ob.cov_num, gen.cov_num);
    assert_eq!(ob.var1_num, gen.var1_num);
    assert_eq!(ob.var2_num, gen.var2_num);
    assert!((dcor(&ob) - dcor(&gen)).abs() <= 1e-10);
}
