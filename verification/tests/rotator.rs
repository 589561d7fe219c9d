use rabitq::rotator::Rotator;
use rabitq::RabitqError;

/// Fixed-point scale used by the tests: 2^16 per unit.
const SCALE: f64 = 65536.0;

fn to_fixed(xs: &[f32]) -> Vec<i64> {
    xs.iter().map(|&x| (x as f64 * SCALE).round() as i64).collect()
}

fn norm_sq(xs: &[i64]) -> i128 {
    xs.iter().map(|&x| (x as i128) * (x as i128)).sum()
}

#[test]
fn test_rotator_creation() {
    let rotator = Rotator::new(128, 128);
    assert!(rotator.is_some());
    let rotator = rotator.unwrap();
    assert_eq!(rotator.padded_dim(), 128);
}

#[test]
fn test_rotator_rotate() {
    let rotator = Rotator::new(128, 128).unwrap();
    let x = to_fixed(&vec![1.0f32; 128]);
    let mut y = vec![0i64; 128];
    rotator.rotate(&x, &mut y);
    // Simple sanity test
    assert!(y.iter().any(|&v| v != 0));
}

#[test]
fn test_rotator_save_load() {
    let rotator = Rotator::new(128, 128).unwrap();
    let saved = rotator.save();

    let mut new_rotator = Rotator::new(128, 128).unwrap();
    let load_result = new_rotator.load(&saved);
    assert!(load_result.is_ok());
}

#[test]
fn test_fht_kac_rotator_binding() {
    let dim: usize = 128;
    let padded_dim: usize = (dim + 15) / 16 * 16;

    let mut original_vec: Vec<f32> = (0..dim).map(|i| i as f32).collect();
    original_vec.resize(padded_dim, 0.0);
    let original_fixed = to_fixed(&original_vec);

    let mut rotated_vec = vec![0i64; padded_dim];

    let rotator = Rotator::new(dim, padded_dim);
    assert!(rotator.is_some(), "Rotator creation failed");
    let rotator = rotator.unwrap();

    rotator.rotate(&original_fixed, &mut rotated_vec);

    println!("Original vector: {:?}", &original_fixed[..dim]);
    println!("Rotated vector:  {:?}", &rotated_vec[..dim]);

    assert_ne!(
        &original_fixed[..dim],
        &rotated_vec[..dim],
        "Rotated vector should not be the same as the original vector"
    );

    let is_any_nonzero = rotated_vec.iter().any(|&x| x != 0);
    assert!(is_any_nonzero, "Rotated vector should not be all zeros");
}

#[test]
fn lib_test_fht_kac_rotator_binding() {
    let dim: usize = 128;
    let padded_dim: usize = (dim + 15) / 16 * 16;

    let mut original_vec: Vec<f32> = (0..dim).map(|i| i as f32).collect();
    original_vec.resize(padded_dim, 0.0);
    let original_fixed = to_fixed(&original_vec);

    let mut rotated_vec = vec![0i64; padded_dim];

    let rotator = Rotator::new(dim, padded_dim);
    assert!(rotator.is_some(), "Rotator creation failed");
    let rotator = rotator.unwrap();

    rotator.rotate(&original_fixed, &mut rotated_vec);

    println!("Original vector: {:?}", &original_fixed[..dim]);
    println!("Rotated vector:  {:?}", &rotated_vec[..dim]);

    assert_ne!(
        &original_fixed[..dim],
        &rotated_vec[..dim],
        "Rotated vector should not be the same as the original vector"
    );

    let is_any_nonzero = rotated_vec.iter().any(|&x| x != 0);
    assert!(is_any_nonzero, "Rotated vector should not be all zeros");
}

#[test]
fn rotator_is_exactly_norm_preserving() {
    let rotator = Rotator::new(100, 112).unwrap();
    let x: Vec<i64> = (0..100).map(|i| (i as i64) * 317 - 9000).collect();
    let y: Vec<i64> = (0..100).map(|i| (i as i64) * 211 + 500).collect();
    let mut rx = vec![0i64; 112];
    let mut ry = vec![0i64; 112];
    rotator.rotate(&x, &mut rx);
    rotator.rotate(&y, &mut ry);
    assert_eq!(norm_sq(&x), norm_sq(&rx));
    // distances are preserved exactly, not merely within a tolerance
    let diff_in: Vec<i64> = x.iter().zip(y.iter()).map(|(a, b)| a - b).collect();
    let diff_out: Vec<i64> = rx.iter().zip(ry.iter()).map(|(a, b)| a - b).collect();
    assert_eq!(norm_sq(&diff_in), norm_sq(&diff_out));
}

#[test]
fn rotator_is_deterministic() {
    let r1 = Rotator::new(64, 64).unwrap();
    let r2 = Rotator::new(64, 64).unwrap();
    let x: Vec<i64> = (0..64).map(|i| (i as i64) * 1234 - 40000).collect();
    let mut y1 = vec![0i64; 64];
    let mut y2 = vec![0i64; 64];
    r1.rotate(&x, &mut y1);
    r2.rotate(&x, &mut y2);
    assert_eq!(y1, y2);
}

#[test]
fn rotator_save_load_reproduces_outputs() {
    let r1 = Rotator::new_seeded(48, 48, 0xDEADBEEF).unwrap();
    let saved = r1.save();
    let mut r2 = Rotator::new(48, 48).unwrap();
    assert!(r2.load(&saved).is_ok());
    let x: Vec<i64> = (0..48).map(|i| (i as i64) * 999 - 20000).collect();
    let mut y1 = vec![0i64; 48];
    let mut y2 = vec![0i64; 48];
    r1.rotate(&x, &mut y1);
    r2.rotate(&x, &mut y2);
    assert_eq!(y1, y2);
}

#[test]
fn rotator_load_rejects_other_dimensions() {
    let r1 = Rotator::new(64, 64).unwrap();
    let saved = r1.save();
    let mut r2 = Rotator::new(128, 128).unwrap();
    assert_eq!(r2.load(&saved), Err(RabitqError::FormatError));
    // and garbage bytes are rejected outright
    let mut r3 = Rotator::new(64, 64).unwrap();
    assert_eq!(r3.load(&vec![1u8, 2, 3]), Err(RabitqError::FormatError));
}

#[test]
fn rotator_rejects_bad_dimensions() {
    // padded dimension below the input dimension
    assert!(Rotator::new(128, 64).is_none());
    // alignment violated
    assert!(Rotator::new(10, 20).is_none());
    // zero input dimension
    assert!(Rotator::new(0, 16).is_none());
    // aligned and large enough: fine
    assert!(Rotator::new(10, 16).is_some());
}
