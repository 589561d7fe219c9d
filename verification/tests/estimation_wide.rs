use rabitq::estimator::select_excode_ipfunc;
use rabitq::quantizer::{quantize_split_single, MetricType};
use rabitq::rotator::Rotator;
use rabitq::{RabitqConfig, SingleEstimator};

/// Fixed-point scale used by the tests: 2^16 per unit.
const SCALE: f64 = 65536.0;

struct WideRng(u64);

impl WideRng {
    fn next_u64(&mut self) -> u64 {
        self.0 = self.0.wrapping_mul(6364136223846793005).wrapping_add(1442695040888963407);
        self.0 >> 11
    }

    fn unit(&mut self) -> f64 {
        (self.next_u64() % 2000001) as f64 / 1000000.0 - 1.0
    }
}

fn to_fixed(xs: &[f64]) -> Vec<i64> {
    xs.iter().map(|&x| (x * SCALE).round() as i64).collect()
}

fn dist_sq(a: &[i64], b: &[i64]) -> i128 {
    a.iter().zip(b.iter()).map(|(&x, &y)| ((x - y) as i128) * ((x - y) as i128)).sum()
}

#[test]
fn integration_test_test_quantization_and_estimation() {
    const DIM: usize = 1024;
    const PADDED_DIM: usize = 1024;
    const NUM_VECTORS: usize = 100;
    const EX_BITS: usize = 4;

    // 1. Generate random vectors
    let mut rng = WideRng(2024);
    let vectors: Vec<Vec<f64>> = (0..NUM_VECTORS)
        .map(|_| (0..DIM).map(|_| rng.unit()).collect())
        .collect();
    let query_vec: Vec<f64> = (0..DIM).map(|_| rng.unit()).collect();

    // 2. Create a rotator and rotate vectors
    let rotator = Rotator::new(DIM, PADDED_DIM).expect("Failed to create rotator");
    let mut rotated_vectors: Vec<Vec<i64>> = Vec::new();
    for v in &vectors {
        let mut out = vec![0i64; rotator.padded_dim()];
        rotator.rotate(&to_fixed(v), &mut out);
        rotated_vectors.push(out);
    }
    let mut rotated_query = vec![0i64; rotator.padded_dim()];
    rotator.rotate(&to_fixed(&query_vec), &mut rotated_query);

    // 3. Quantize with a random centroid
    let centroid_f: Vec<f64> = (0..rotator.padded_dim()).map(|_| rng.unit()).collect();
    let centroid = to_fixed(&centroid_f);

    let (bin_codes, ex_codes) = quantize_split_single(
        &rotated_vectors[0],
        &centroid,
        EX_BITS,
        MetricType::L2,
        &RabitqConfig::new(),
    )
    .unwrap();

    // 4. Query, in the centroid-relative frame the codes live in
    let query_rel: Vec<i64> =
        rotated_query.iter().zip(centroid.iter()).map(|(&q, &c)| q - c).collect();
    let query = SingleEstimator::new(
        &query_rel,
        rotator.padded_dim(),
        EX_BITS,
        &RabitqConfig::new(),
        MetricType::L2,
    )
    .unwrap();

    // 4.1 estimate using 1-bit encoding
    println!("rotator dim: {:?}", bin_codes.len());
    let (dist, low_dist, ip) = query.estdist(&bin_codes, 0, 0).unwrap();
    // Calculate the exact distance
    let l2_dist = (dist_sq(&rotated_query, &rotated_vectors[0]) as f64).sqrt() / SCALE;
    println!("acc dist: {:}", l2_dist);
    println!(
        "1-bit dist: {:?}, low_dist: {:?}, ip: {:?}",
        (dist.max(0) as f64).sqrt() / SCALE,
        (low_dist.max(0) as f64).sqrt() / SCALE,
        ip
    );

    let ip_func = select_excode_ipfunc(EX_BITS).expect("Failed to get ip function");

    let estimated_dist = query.distance_boosting(&ex_codes, Some(ip_func), ip).unwrap();

    println!("5-bit estimated dist: {:}", (estimated_dist.max(0) as f64).sqrt() / SCALE);
}
