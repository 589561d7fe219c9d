use rabitq::{quantize_full_single, quantize_split_single, reconstruct_vec, MetricType, RabitqConfig};
use rabitq::RabitqError;

fn dist_sq(a: &[i64], b: &[i64]) -> i128 {
    a.iter().zip(b.iter()).map(|(&x, &y)| ((x - y) as i128) * ((x - y) as i128)).sum()
}

#[test]
fn test_quantize_and_reconstruct() {
    let dim = 128;
    let total_bits = 5;
    let data: Vec<i64> = (0..dim).map(|i| (i as i64) * 4096).collect();
    let config = RabitqConfig::faster_config(dim, total_bits);

    let (quantized, delta, vl, _) =
        quantize_full_single(&data, total_bits, MetricType::L2, &config).unwrap();
    let reconstructed = reconstruct_vec(&quantized, delta, vl);

    assert_eq!(reconstructed.len(), dim);
    // Simple check, a more robust test would check the error
    assert!(reconstructed.iter().sum::<i64>() > 0);
}

#[test]
fn quantize_full_reconstruct_within_error_budget() {
    // pseudo-random coordinates in about [-1, 1] at scale 2^16
    let mut state: u64 = 42;
    let mut next = move || {
        state = state.wrapping_mul(6364136223846793005).wrapping_add(1442695040888963407);
        ((state >> 40) as i64) - 8388608 // 24 random bits, centered
    };
    for &bits in &[1usize, 3, 5, 8] {
        let data: Vec<i64> = (0..96).map(|_| next() / 128).collect();
        let cfg = RabitqConfig::new();
        let (codes, vl, delta, f_error) =
            quantize_full_single(&data, bits, MetricType::L2, &cfg).unwrap();
        let recon = reconstruct_vec(&codes, delta, vl);
        assert_eq!(recon.len(), data.len());
        assert!(dist_sq(&data, &recon) <= f_error, "bits={} err over budget", bits);
    }
}

#[test]
fn quantize_full_ip_metric_reconstructs() {
    let data: Vec<i64> = (0..64).map(|i| (i as i64) * 1000 - 32000).collect();
    let cfg = RabitqConfig::new();
    let (codes, vl, delta, f_error) =
        quantize_full_single(&data, 6, MetricType::IP, &cfg).unwrap();
    let recon = reconstruct_vec(&codes, delta, vl);
    assert!(dist_sq(&data, &recon) <= f_error);
}

#[test]
fn quantize_full_rejects_bad_parameters() {
    let data: Vec<i64> = vec![1, 2, 3, 4];
    let cfg = RabitqConfig::new();
    assert_eq!(
        quantize_full_single(&data, 0, MetricType::L2, &cfg).unwrap_err(),
        RabitqError::UnsupportedParameter
    );
    assert_eq!(
        quantize_full_single(&data, 9, MetricType::L2, &cfg).unwrap_err(),
        RabitqError::UnsupportedParameter
    );
    let empty: Vec<i64> = vec![];
    assert_eq!(
        quantize_full_single(&empty, 5, MetricType::L2, &cfg).unwrap_err(),
        RabitqError::LengthMismatch
    );
    // a pinned configuration rejects other dimensions
    let pinned = RabitqConfig::faster_config(8, 5);
    assert_eq!(
        quantize_full_single(&data, 5, MetricType::L2, &pinned).unwrap_err(),
        RabitqError::LengthMismatch
    );
}

#[test]
fn quantize_split_buffer_sizes() {
    let n = 64;
    let data: Vec<i64> = (0..n).map(|i| (i as i64) * 900 - 28000).collect();
    let centroid = vec![0i64; n as usize];
    let cfg = RabitqConfig::new();
    for &ex in &[1usize, 2, 4, 8] {
        let (bin, exc) =
            quantize_split_single(&data, &centroid, ex, MetricType::L2, &cfg).unwrap();
        assert_eq!(bin.len(), (n as usize) / 8 + 16);
        assert_eq!(exc.len(), (n as usize) * ex / 8 + 32);
    }
}

#[test]
fn quantize_split_rejects_bad_parameters() {
    let data: Vec<i64> = vec![0; 32];
    let centroid: Vec<i64> = vec![0; 16];
    let cfg = RabitqConfig::new();
    assert_eq!(
        quantize_split_single(&data, &centroid, 3, MetricType::L2, &cfg).unwrap_err(),
        RabitqError::UnsupportedParameter
    );
    assert_eq!(
        quantize_split_single(&data, &centroid, 4, MetricType::L2, &cfg).unwrap_err(),
        RabitqError::LengthMismatch
    );
    let odd: Vec<i64> = vec![0; 12];
    assert_eq!(
        quantize_split_single(&odd, &odd, 4, MetricType::L2, &cfg).unwrap_err(),
        RabitqError::LengthMismatch
    );
}
