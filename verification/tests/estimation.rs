use rabitq::quantizer::{quantize_split_single, MetricType};
use rabitq::rotator::Rotator;
use rabitq::estimator::select_excode_ipfunc;
use rabitq::{RabitqConfig, SingleEstimator};
use rabitq::RabitqError;

/// Fixed-point scale used by the tests: 2^16 per unit.
const SCALE: f64 = 65536.0;

/// Small deterministic generator for test vectors.
struct TestRng(u64);

impl TestRng {
    fn next_u64(&mut self) -> u64 {
        self.0 = self.0.wrapping_mul(6364136223846793005).wrapping_add(1442695040888963407);
        self.0 >> 11
    }

    /// Uniform in [-1, 1].
    fn unit(&mut self) -> f64 {
        (self.next_u64() % 2000001) as f64 / 1000000.0 - 1.0
    }
}

fn to_fixed(xs: &[f64]) -> Vec<i64> {
    xs.iter().map(|&x| (x * SCALE).round() as i64).collect()
}

fn dist_sq(a: &[i64], b: &[i64]) -> i128 {
    a.iter().zip(b.iter()).map(|(&x, &y)| ((x - y) as i128) * ((x - y) as i128)).sum()
}

#[test]
fn test_quantization_and_estimation() {
    const DIM: usize = 256;
    const PADDED_DIM: usize = 256;
    const NUM_VECTORS: usize = 100;
    const EX_BITS: usize = 4;

    // 1. Generate random vectors
    let mut rng = TestRng(7);
    let vectors: Vec<Vec<f64>> = (0..NUM_VECTORS)
        .map(|_| (0..DIM).map(|_| rng.unit()).collect())
        .collect();
    let query_vec: Vec<f64> = (0..DIM).map(|_| rng.unit()).collect();

    // 2. Create a rotator and rotate vectors
    let rotator = Rotator::new(DIM, PADDED_DIM).expect("Failed to create rotator");
    let mut rotated_vectors: Vec<Vec<i64>> = Vec::new();
    for v in &vectors {
        let mut out = vec![0i64; rotator.padded_dim()];
        rotator.rotate(&to_fixed(v), &mut out);
        rotated_vectors.push(out);
    }
    let mut rotated_query = vec![0i64; rotator.padded_dim()];
    rotator.rotate(&to_fixed(&query_vec), &mut rotated_query);

    // 3. Quantize with centroid at origin
    let centroid = vec![0i64; rotator.padded_dim()];

    let (bin_codes, ex_codes) = quantize_split_single(
        &rotated_vectors[0],
        &centroid,
        EX_BITS,
        MetricType::L2,
        &RabitqConfig::new(),
    )
    .unwrap();

    // 4. Query
    let query = SingleEstimator::new(
        &rotated_query,
        rotator.padded_dim(),
        EX_BITS,
        &RabitqConfig::new(),
        MetricType::L2,
    )
    .unwrap();

    // 4.1 estimate using 1-bit encoding
    println!("rotator dim: {:?}", bin_codes.len());
    let (dist, low_dist, ip) = query.estdist(&bin_codes, 0, 0).unwrap();
    // exact distance between the query and the first vector
    let l2_dist = (dist_sq(&rotated_query, &rotated_vectors[0]) as f64).sqrt() / SCALE;
    println!("acc dist: {:}", l2_dist);
    println!(
        "dist: {:?}, low_dist: {:?}, ip: {:?}",
        (dist.max(0) as f64).sqrt() / SCALE,
        (low_dist.max(0) as f64).sqrt() / SCALE,
        ip
    );

    let ip_func = select_excode_ipfunc(EX_BITS).expect("Failed to get ip function");

    let estimated_dist = query.distance_boosting(&ex_codes, Some(ip_func), ip).unwrap();

    println!("estimated dist: {:}", (estimated_dist.max(0) as f64).sqrt() / SCALE);
}

#[test]
fn lower_bound_never_exceeds_true_distance() {
    const DIM: usize = 128;
    const EX_BITS: usize = 4;
    let mut rng = TestRng(99);
    let rotator = Rotator::new(DIM, DIM).unwrap();
    let centroid = vec![0i64; DIM];
    let cfg = RabitqConfig::new();

    let qf: Vec<f64> = (0..DIM).map(|_| rng.unit()).collect();
    let mut query = vec![0i64; DIM];
    rotator.rotate(&to_fixed(&qf), &mut query);
    let est = SingleEstimator::new(&query, DIM, EX_BITS, &cfg, MetricType::L2).unwrap();

    for _ in 0..50 {
        let vf: Vec<f64> = (0..DIM).map(|_| rng.unit()).collect();
        let mut cand = vec![0i64; DIM];
        rotator.rotate(&to_fixed(&vf), &mut cand);
        let (bin, _exc) =
            quantize_split_single(&cand, &centroid, EX_BITS, MetricType::L2, &cfg).unwrap();
        let (_d, low, _ip) = est.estdist(&bin, 0, 0).unwrap();
        let true_sq = dist_sq(&query, &cand);
        assert!(low <= true_sq, "lower bound {} exceeds true {}", low, true_sq);
    }
}

#[test]
fn boosting_improves_mean_accuracy() {
    const DIM: usize = 128;
    const EX_BITS: usize = 4;
    let mut rng = TestRng(1234);
    let rotator = Rotator::new(DIM, DIM).unwrap();
    let centroid = vec![0i64; DIM];
    let cfg = RabitqConfig::new();
    let kernel = select_excode_ipfunc(EX_BITS).unwrap();

    let mut est_err_total = 0.0f64;
    let mut boost_err_total = 0.0f64;
    for pair in 0..40 {
        let qf: Vec<f64> = (0..DIM).map(|_| rng.unit()).collect();
        let vf: Vec<f64> = (0..DIM).map(|_| rng.unit()).collect();
        let mut query = vec![0i64; DIM];
        let mut cand = vec![0i64; DIM];
        rotator.rotate(&to_fixed(&qf), &mut query);
        rotator.rotate(&to_fixed(&vf), &mut cand);
        let est = SingleEstimator::new(&query, DIM, EX_BITS, &cfg, MetricType::L2).unwrap();
        let (bin, exc) =
            quantize_split_single(&cand, &centroid, EX_BITS, MetricType::L2, &cfg).unwrap();
        let (d1, _low, ip) = est.estdist(&bin, 0, 0).unwrap();
        let d2 = est.distance_boosting(&exc, Some(kernel), ip).unwrap();
        let truth = (dist_sq(&query, &cand) as f64).sqrt();
        let e1 = ((d1.max(0) as f64).sqrt() - truth).abs();
        let e2 = ((d2.max(0) as f64).sqrt() - truth).abs();
        est_err_total += e1;
        boost_err_total += e2;
        let _ = pair;
    }
    assert!(
        boost_err_total < est_err_total,
        "boosting mean error {} not below first-stage {}",
        boost_err_total / 40.0,
        est_err_total / 40.0
    );
}

#[test]
fn concrete_scenario_256_dims() {
    const DIM: usize = 256;
    const EX_BITS: usize = 4;
    let mut rng = TestRng(5150);
    let rotator = Rotator::new(DIM, DIM).unwrap();
    let centroid = vec![0i64; DIM];
    let cfg = RabitqConfig::new();
    let kernel = select_excode_ipfunc(EX_BITS).unwrap();

    let qf: Vec<f64> = (0..DIM).map(|_| rng.unit()).collect();
    let vf: Vec<f64> = (0..DIM).map(|_| rng.unit()).collect();
    let mut query = vec![0i64; DIM];
    let mut cand = vec![0i64; DIM];
    rotator.rotate(&to_fixed(&qf), &mut query);
    rotator.rotate(&to_fixed(&vf), &mut cand);

    let (bin, exc) =
        quantize_split_single(&cand, &centroid, EX_BITS, MetricType::L2, &cfg).unwrap();
    let est = SingleEstimator::new(&query, DIM, EX_BITS, &cfg, MetricType::L2).unwrap();
    let (d1, low, ip) = est.estdist(&bin, 0, 0).unwrap();
    let d2 = est.distance_boosting(&exc, Some(kernel), ip).unwrap();

    let truth = (dist_sq(&query, &cand) as f64).sqrt();
    let first = (d1.max(0) as f64).sqrt();
    let boosted = (d2.max(0) as f64).sqrt();
    assert!(low as f64 <= dist_sq(&query, &cand) as f64);
    assert!(
        (first - truth).abs() <= 0.50 * truth,
        "first stage {} vs truth {}",
        first,
        truth
    );
    assert!(
        (boosted - truth).abs() <= 0.15 * truth,
        "boosted {} vs truth {}",
        boosted,
        truth
    );
}

#[test]
fn select_kernel_for_each_supported_width() {
    for &ex in &[1usize, 2, 4, 8] {
        let k = select_excode_ipfunc(ex).expect("supported width must have a kernel");
        assert_eq!(k.width(), ex);
    }
    assert!(select_excode_ipfunc(0).is_none());
    for &ex in &[3usize, 5, 6, 7, 9, 16, 100] {
        assert!(select_excode_ipfunc(ex).is_none());
    }
}

#[test]
fn estimator_rejects_mismatched_inputs() {
    const DIM: usize = 64;
    let query = vec![1000i64; DIM];
    let cfg = RabitqConfig::new();
    // unsupported residual width
    assert_eq!(
        SingleEstimator::new(&query, DIM, 3, &cfg, MetricType::L2).err().unwrap(),
        RabitqError::UnsupportedParameter
    );
    // length that does not match the padded dimension
    assert_eq!(
        SingleEstimator::new(&query, 128, 4, &cfg, MetricType::L2).err().unwrap(),
        RabitqError::ConstructionFailure
    );
    let est = SingleEstimator::new(&query, DIM, 4, &cfg, MetricType::L2).unwrap();
    // binary buffer of the wrong length
    let bad = vec![0u8; 5];
    assert_eq!(est.estdist(&bad, 0, 0).unwrap_err(), RabitqError::LengthMismatch);
    // kernel of the wrong width
    let centroid = vec![0i64; DIM];
    let (_bin, exc) =
        quantize_split_single(&query, &centroid, 4, MetricType::L2, &cfg).unwrap();
    let wrong = select_excode_ipfunc(2).unwrap();
    assert_eq!(
        est.distance_boosting(&exc, Some(wrong), 0).unwrap_err(),
        RabitqError::UnsupportedParameter
    );
    assert_eq!(
        est.distance_boosting(&exc, None, 0).unwrap_err(),
        RabitqError::UnsupportedParameter
    );
    // extended buffer of the wrong length
    let right = select_excode_ipfunc(4).unwrap();
    let short = vec![0u8; 7];
    assert_eq!(
        est.distance_boosting(&short, Some(right), 0).unwrap_err(),
        RabitqError::LengthMismatch
    );
}

#[test]
fn estimator_accessors_and_g_add() {
    const DIM: usize = 64;
    let mut rng = TestRng(31337);
    let qf: Vec<f64> = (0..DIM).map(|_| rng.unit()).collect();
    let query = to_fixed(&qf);
    let cfg = RabitqConfig::new();
    let mut est = SingleEstimator::new(&query, DIM, 4, &cfg, MetricType::L2).unwrap();
    assert_eq!(est.query_bin().len(), DIM / 8);
    assert!(est.delta() >= 1);
    let _ = est.vl();

    // the correction is folded additively into the estimate
    let centroid = vec![0i64; DIM];
    let (bin, _exc) =
        quantize_split_single(&query, &centroid, 4, MetricType::L2, &cfg).unwrap();
    let (d0, _, _) = est.estdist(&bin, 0, 0).unwrap();
    est.set_g_add(5000, 1000);
    let (d1, _, _) = est.estdist(&bin, 0, 0).unwrap();
    assert_eq!(d1, d0 + 5000 - 2 * 1000);
    // order-independent: two more calls in either conceptual order add up
    est.set_g_add(100, 0);
    est.set_g_add(0, 50);
    let (d2, _, _) = est.estdist(&bin, 0, 0).unwrap();
    assert_eq!(d2, d1 + 100 - 100);
}

#[test]
fn inner_product_metric_lower_bound() {
    const DIM: usize = 64;
    const EX_BITS: usize = 2;
    let mut rng = TestRng(777);
    let centroid = vec![0i64; DIM];
    let cfg = RabitqConfig::new();

    let qf: Vec<f64> = (0..DIM).map(|_| rng.unit()).collect();
    let query = to_fixed(&qf);
    let est = SingleEstimator::new(&query, DIM, EX_BITS, &cfg, MetricType::IP).unwrap();

    for _ in 0..20 {
        let vf: Vec<f64> = (0..DIM).map(|_| rng.unit()).collect();
        let cand = to_fixed(&vf);
        let (bin, _exc) =
            quantize_split_single(&cand, &centroid, EX_BITS, MetricType::IP, &cfg).unwrap();
        let (_d, low, _ip) = est.estdist(&bin, 0, 0).unwrap();
        // the negated inner product is the true "distance" in this mode
        let true_neg_ip: i128 = -query
            .iter()
            .zip(cand.iter())
            .map(|(&a, &b)| (a as i128) * (b as i128))
            .sum::<i128>();
        assert!(low <= true_neg_ip, "IP lower bound {} exceeds true {}", low, true_neg_ip);
    }
}
