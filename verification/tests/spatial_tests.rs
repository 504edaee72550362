use substratum::agg_tree::linear_scan_aggregate;
use substratum::metric::distance;
use substratum::spatial_query::linear_scan_k_nearest;
use substratum::vp_tree::rand_index;
use substratum::{
    AggTree, BallTree, DistanceMetric, Generator, HeapItem, KDTree, KernelType, SpatialError,
    SpatialQuery, VPTree, VantagePointSelection,
};

fn sample_points() -> Vec<Vec<i64>> {
    vec![vec![0, 0], vec![1, 0], vec![0, 1], vec![5, 5]]
}

fn indices(r: &[HeapItem]) -> Vec<usize> {
    r.iter().map(|e| e.index).collect()
}

#[test]
fn kd_two_nearest_scenario() {
    let t = KDTree::build(sample_points(), DistanceMetric::Euclidean, 1).unwrap();
    let r = t.k_nearest(&vec![0, 0], 2).unwrap();
    assert_eq!(r.len(), 2);
    assert_eq!(r[0].index, 0);
    assert_eq!(r[1].index, 1);
    // the Euclidean key is the squared distance; the true distances are 0 and 1
    assert_eq!((r[0].distance as f64).sqrt(), 0.0);
    assert_eq!((r[1].distance as f64).sqrt(), 1.0);
    assert!(!indices(&r).contains(&3));
}

#[test]
fn ball_two_nearest_scenario() {
    let t = BallTree::build(sample_points(), DistanceMetric::Euclidean, 1).unwrap();
    let r = t.k_nearest(&vec![0, 0], 2).unwrap();
    assert_eq!(indices(&r), vec![0, 1]);
    assert_eq!(r[0].distance, 0);
    assert_eq!(r[1].distance, 1);
}

#[test]
fn vp_two_nearest_scenario() {
    let mut gen = Generator::from_seed(9);
    let t = VPTree::build(
        sample_points(),
        DistanceMetric::Euclidean,
        1,
        VantagePointSelection::Random,
        &mut gen,
    )
    .unwrap();
    let r = t.k_nearest(&vec![0, 0], 2).unwrap();
    assert_eq!(indices(&r), vec![0, 1]);
}

#[test]
fn agg_two_nearest_scenario() {
    let t = AggTree::build(sample_points(), DistanceMetric::Euclidean, 1).unwrap();
    let r = t.k_nearest(&vec![0, 0], 2).unwrap();
    assert_eq!(indices(&r), vec![0, 1]);
}

#[test]
fn kd_radius_scenario() {
    let t = KDTree::build(sample_points(), DistanceMetric::Euclidean, 1).unwrap();
    // a true radius of 1.5 is the squared key bound floor(1.5^2) = 2
    let r = t.radius(&vec![0, 0], 2).unwrap();
    assert_eq!(indices(&r), vec![0, 1, 2]);
    assert!(!indices(&r).contains(&3));
}

#[test]
fn ball_radius_scenario() {
    let t = BallTree::build(sample_points(), DistanceMetric::Euclidean, 1).unwrap();
    let r = t.radius(&vec![0, 0], 2).unwrap();
    assert_eq!(indices(&r), vec![0, 1, 2]);
}

#[test]
fn vp_radius_scenario() {
    let mut gen = Generator::from_seed(3);
    let t = VPTree::build(
        sample_points(),
        DistanceMetric::Euclidean,
        2,
        VantagePointSelection::MaxSpread,
        &mut gen,
    )
    .unwrap();
    let r = t.radius(&vec![0, 0], 2).unwrap();
    assert_eq!(indices(&r), vec![0, 1, 2]);
}

fn random_points(seed: u64, n: i64, lo: i64, hi: i64, d: usize) -> Vec<Vec<i64>> {
    let mut gen = Generator::from_seed(seed);
    let flat = gen.randint(lo, hi, substratum::Shape::d1((n as usize) * d));
    let vals = flat.as_slice();
    (0..n as usize)
        .map(|i| (0..d).map(|j| vals[i * d + j]).collect())
        .collect()
}

#[test]
fn all_trees_agree_with_brute_force() {
    let pts = random_points(123, 40, -50, 50, 3);
    let metrics = [
        DistanceMetric::Euclidean,
        DistanceMetric::Manhattan,
        DistanceMetric::Chebyshev,
        DistanceMetric::Minkowski(3),
    ];
    let queries = vec![vec![0i64, 0, 0], vec![10, -10, 5], vec![49, 49, -49]];
    for m in metrics {
        let kd = KDTree::build(pts.clone(), m, 4).unwrap();
        let ball = BallTree::build(pts.clone(), m, 4).unwrap();
        let agg = AggTree::build(pts.clone(), m, 4).unwrap();
        let mut gen = Generator::from_seed(77);
        let vp = VPTree::build(pts.clone(), m, 4, VantagePointSelection::Random, &mut gen).unwrap();
        for q in &queries {
            for k in [0usize, 1, 5, 40, 100] {
                let reference = linear_scan_k_nearest(&pts, m, q, k);
                assert_eq!(kd.k_nearest(q, k).unwrap(), reference);
                assert_eq!(ball.k_nearest(q, k).unwrap(), reference);
                assert_eq!(agg.k_nearest(q, k).unwrap(), reference);
                assert_eq!(vp.k_nearest(q, k).unwrap(), reference);
            }
        }
    }
}

#[test]
fn radius_returns_exactly_the_points_within() {
    let pts = random_points(5, 30, -20, 20, 2);
    let m = DistanceMetric::Manhattan;
    let kd = KDTree::build(pts.clone(), m, 3).unwrap();
    let ball = BallTree::build(pts.clone(), m, 3).unwrap();
    let q = vec![1i64, -2];
    for rad in [0i64, 5, 13, 60] {
        let r = kd.radius(&q, rad).unwrap();
        // cross-check against the direct distance of every point
        let expect: Vec<usize> = (0..pts.len())
            .filter(|&i| distance(m, &q, &pts[i]).unwrap() <= rad as i128)
            .collect();
        let mut got = indices(&r);
        got.sort();
        assert_eq!(got, expect);
        assert_eq!(ball.radius(&q, rad).unwrap(), r);
    }
}

#[test]
fn aggregate_matches_brute_force() {
    let pts = random_points(31, 25, -30, 30, 2);
    let t = AggTree::build(pts.clone(), DistanceMetric::Euclidean, 2).unwrap();
    for (lo, hi) in [
        (vec![-10i64, -10], vec![10i64, 10]),
        (vec![-30, -30], vec![30, 30]),
        (vec![5, 5], vec![6, 6]),
        (vec![10, 10], vec![-10, -10]),
    ] {
        let agg = t.aggregate_in_region(&lo, &hi).unwrap();
        let (count, sum) = linear_scan_aggregate(&pts, &lo, &hi);
        assert_eq!(agg.count, count);
        assert_eq!(agg.sum, sum);
        // and against a hand filter
        let inside: Vec<&Vec<i64>> = pts
            .iter()
            .filter(|p| (0..2).all(|a| lo[a] <= p[a] && p[a] <= hi[a]))
            .collect();
        assert_eq!(agg.count, inside.len());
        for a in 0..2 {
            let s: i128 = inside.iter().map(|p| p[a] as i128).sum();
            assert_eq!(agg.sum[a], s);
        }
    }
}

#[test]
fn aggregate_dimension_mismatch() {
    let t = AggTree::build(sample_points(), DistanceMetric::Euclidean, 2).unwrap();
    assert_eq!(
        t.aggregate_in_region(&vec![0], &vec![1, 1]).unwrap_err(),
        SpatialError::DimensionMismatch
    );
}

#[test]
fn same_seed_same_vp_answers() {
    let pts = random_points(88, 20, -40, 40, 2);
    let mut g1 = Generator::from_seed(1234);
    let mut g2 = Generator::from_seed(1234);
    let t1 = VPTree::build(pts.clone(), DistanceMetric::Chebyshev, 2, VantagePointSelection::MaxSpread, &mut g1)
        .unwrap();
    let t2 = VPTree::build(pts.clone(), DistanceMetric::Chebyshev, 2, VantagePointSelection::MaxSpread, &mut g2)
        .unwrap();
    for q in [vec![0i64, 0], vec![17, -3]] {
        assert_eq!(t1.k_nearest(&q, 7).unwrap(), t2.k_nearest(&q, 7).unwrap());
        assert_eq!(t1.radius(&q, 12).unwrap(), t2.radius(&q, 12).unwrap());
    }
}

#[test]
fn build_rejects_zero_leaf_size() {
    assert_eq!(
        KDTree::build(sample_points(), DistanceMetric::Euclidean, 0).unwrap_err(),
        SpatialError::InvalidConfiguration
    );
}

#[test]
fn build_rejects_bad_minkowski_exponent() {
    assert_eq!(
        BallTree::build(sample_points(), DistanceMetric::Minkowski(0), 2).unwrap_err(),
        SpatialError::InvalidConfiguration
    );
}

#[test]
fn build_rejects_ragged_rows() {
    let pts = vec![vec![0i64, 0], vec![1i64, 2, 3]];
    assert_eq!(
        KDTree::build(pts, DistanceMetric::Euclidean, 2).unwrap_err(),
        SpatialError::DimensionMismatch
    );
}

#[test]
fn query_rejects_wrong_dimension() {
    let t = KDTree::build(sample_points(), DistanceMetric::Euclidean, 2).unwrap();
    assert_eq!(t.k_nearest(&vec![0, 0, 0], 1), Err(SpatialError::DimensionMismatch));
    assert_eq!(t.radius(&vec![0], 1), Err(SpatialError::DimensionMismatch));
}

#[test]
fn radius_rejects_negative_radius() {
    let t = KDTree::build(sample_points(), DistanceMetric::Euclidean, 2).unwrap();
    assert_eq!(t.radius(&vec![0, 0], -1), Err(SpatialError::InvalidQuery));
}

#[test]
fn zero_k_gives_empty_answer() {
    let t = KDTree::build(sample_points(), DistanceMetric::Euclidean, 2).unwrap();
    assert_eq!(t.k_nearest(&vec![0, 0], 0).unwrap(), vec![]);
}

#[test]
fn oversized_k_returns_all_points() {
    let t = KDTree::build(sample_points(), DistanceMetric::Euclidean, 2).unwrap();
    let r = t.k_nearest(&vec![0, 0], 10).unwrap();
    assert_eq!(r.len(), 4);
    let mut got = indices(&r);
    got.sort();
    assert_eq!(got, vec![0, 1, 2, 3]);
}

#[test]
fn empty_point_set_builds_and_answers_empty() {
    let t = KDTree::build(Vec::new(), DistanceMetric::Euclidean, 2).unwrap();
    assert_eq!(t.k_nearest(&vec![1, 2, 3], 5).unwrap(), vec![]);
    assert_eq!(t.radius(&vec![1, 2, 3], 10).unwrap(), vec![]);
    let a = AggTree::build(Vec::new(), DistanceMetric::Euclidean, 2).unwrap();
    let agg = a.aggregate_in_region(&vec![0, 0], &vec![1, 1]).unwrap();
    assert_eq!(agg.count, 0);
}

#[test]
fn distance_values_are_exact() {
    let a = vec![0i64, 0];
    assert_eq!(distance(DistanceMetric::Euclidean, &a, &vec![3, 4]).unwrap(), 25);
    assert_eq!(distance(DistanceMetric::Manhattan, &a, &vec![3, -4]).unwrap(), 7);
    assert_eq!(distance(DistanceMetric::Chebyshev, &a, &vec![3, -4]).unwrap(), 4);
    assert_eq!(distance(DistanceMetric::Minkowski(3), &a, &vec![2, 1]).unwrap(), 9);
    assert_eq!(
        distance(DistanceMetric::Euclidean, &a, &vec![1, 2, 3]),
        Err(SpatialError::DimensionMismatch)
    );
}

#[test]
fn kernel_weights_are_exact() {
    let w = substratum::kernel::kernel(KernelType::Uniform(10), 7).unwrap().unwrap();
    assert_eq!((w.num, w.den), (1, 1));
    let w = substratum::kernel::kernel(KernelType::Uniform(10), 11).unwrap().unwrap();
    assert_eq!((w.num, w.den), (0, 1));
    let w = substratum::kernel::kernel(KernelType::Triangular(10), 4).unwrap().unwrap();
    assert_eq!((w.num, w.den), (6, 10));
    let w = substratum::kernel::kernel(KernelType::Epanechnikov(10), 6).unwrap().unwrap();
    assert_eq!((w.num, w.den), (64, 100));
    assert_eq!(substratum::kernel::kernel(KernelType::Gaussian(10), 3).unwrap(), None);
    assert_eq!(
        substratum::kernel::kernel(KernelType::Gaussian(0), 3),
        Err(SpatialError::InvalidConfiguration)
    );
    assert_eq!(
        substratum::kernel::kernel(KernelType::Triangular(-2), 3),
        Err(SpatialError::InvalidConfiguration)
    );
}

#[test]
fn rand_index_respects_range() {
    let mut gen = Generator::from_seed(2);
    for _ in 0..50 {
        let v = rand_index(&mut gen, 3, 9).unwrap();
        assert!((3..9).contains(&v));
    }
    assert_eq!(rand_index(&mut gen, 5, 5), Err(SpatialError::InvalidConfiguration));
}

#[test]
fn results_are_sorted_by_distance_then_index() {
    let pts = random_points(42, 30, -9, 9, 2);
    let t = KDTree::build(pts, DistanceMetric::Manhattan, 3).unwrap();
    let r = t.k_nearest(&vec![0, 0], 30).unwrap();
    for w in r.windows(2) {
        assert!(
            w[0].distance < w[1].distance
                || (w[0].distance == w[1].distance && w[0].index < w[1].index)
        );
    }
    let r2 = t.radius(&vec![0, 0], 6).unwrap();
    for w in r2.windows(2) {
        assert!(
            w[0].distance < w[1].distance
                || (w[0].distance == w[1].distance && w[0].index < w[1].index)
        );
    }
}

#[test]
fn duplicate_points_tie_break_by_index() {
    let pts = vec![vec![2i64, 2], vec![2, 2], vec![2, 2], vec![0, 0]];
    let t = KDTree::build(pts.clone(), DistanceMetric::Euclidean, 1).unwrap();
    let r = t.k_nearest(&vec![2, 2], 2).unwrap();
    assert_eq!(indices(&r), vec![0, 1]);
    let r = t.radius(&vec![2, 2], 0).unwrap();
    assert_eq!(indices(&r), vec![0, 1, 2]);
    let b = BallTree::build(pts.clone(), DistanceMetric::Manhattan, 1).unwrap();
    assert_eq!(indices(&b.k_nearest(&vec![2, 2], 3).unwrap()), vec![0, 1, 2]);
    let mut gen = Generator::from_seed(11);
    let v = VPTree::build(pts, DistanceMetric::Manhattan, 1, VantagePointSelection::Random, &mut gen)
        .unwrap();
    assert_eq!(indices(&v.k_nearest(&vec![2, 2], 3).unwrap()), vec![0, 1, 2]);
}

#[test]
fn single_point_tree() {
    let t = KDTree::build(vec![vec![7i64]], DistanceMetric::Chebyshev, 4).unwrap();
    let r = t.k_nearest(&vec![5], 3).unwrap();
    assert_eq!(r.len(), 1);
    assert_eq!(r[0].index, 0);
    assert_eq!(r[0].distance, 2);
}

#[test]
fn one_dimensional_points() {
    let pts: Vec<Vec<i64>> = (0..16).map(|i| vec![i * i]).collect();
    let t = BallTree::build(pts.clone(), DistanceMetric::Manhattan, 2).unwrap();
    let reference = linear_scan_k_nearest(&pts, DistanceMetric::Manhattan, &vec![40], 4);
    assert_eq!(t.k_nearest(&vec![40], 4).unwrap(), reference);
    assert_eq!(indices(&reference), vec![6, 7, 5, 4]);
}
