use heretek::coder::probability::{normalize, quantize, validate_distribution};
use heretek::error::PredictorError;

/// Scales probabilities to 16 bits.
fn quantize_floats(probs: &[f32; 256]) -> [u16; 256] {
    let mut scaled = [0u64; 256];
    for (i, &p) in probs.iter().enumerate() {
        scaled[i] = (p.clamp(0.0, 1.0) * 65535.0).round() as u64;
    }
    quantize(&scaled)
}

/// The probabilities of quantized values.
fn normalize_floats(quantized: &[u16; 256]) -> [f32; 256] {
    let fractions = normalize(quantized);
    let mut out = [0.0f32; 256];
    for (i, &n) in fractions.numerators.iter().enumerate() {
        out[i] = n as f32 / fractions.denominator as f32;
    }
    out
}

/// Checks probabilities.
fn validate_floats(probs: &[f32; 256]) -> Result<(), PredictorError> {
    let sum: f32 = probs.iter().sum();
    let mut negative = [false; 256];
    for (i, &p) in probs.iter().enumerate() {
        negative[i] = !(p >= 0.0);
    }
    validate_distribution(&negative, sum >= 0.999 && sum <= 1.001, (sum as f64).to_string())
}

#[test]
fn quantize_uniform_distribution() {
    let uniform = [1.0f32 / 256.0; 256];
    let q = quantize_floats(&uniform);
    for &v in &q {
        assert!(v == 255 || v == 256, "got {v}");
    }
}

#[test]
fn quantize_max_error_below_one_div_65536() {
    let mut probs = [0.0f32; 256];
    probs[0] = 1.0;
    let q = quantize_floats(&probs);
    assert_eq!(q[0], 65535);
    for i in 1..256 {
        assert_eq!(q[i], 0);
    }

    let original = [1.0f32 / 256.0; 256];
    let q = quantize_floats(&original);
    let restored = normalize_floats(&q);
    let max_error = 1.0 / 65536.0;
    for i in 0..256 {
        let diff = (restored[i] - original[i]).abs();
        assert!(diff < max_error, "bin {i}: diff {diff:.8} >= {max_error:.8}");
    }
}

#[test]
fn quantize_clamps_negative_to_zero() {
    let mut probs = [0.0f32; 256];
    probs[0] = -0.5;
    let q = quantize_floats(&probs);
    assert_eq!(q[0], 0);
}

#[test]
fn normalize_sums_to_one() {
    let q = quantize_floats(&[1.0f32 / 256.0; 256]);
    let n = normalize_floats(&q);
    let sum: f32 = n.iter().sum();
    assert!((sum - 1.0).abs() < 1e-6, "sum={sum}");
}

#[test]
fn normalize_all_zeros_is_uniform() {
    let q = [0u16; 256];
    let n = normalize_floats(&q);
    for &v in &n {
        assert!((v - 1.0 / 256.0).abs() < 1e-7);
    }
}

#[test]
fn validate_distribution_accepts_valid() {
    let uniform = [1.0f32 / 256.0; 256];
    validate_floats(&uniform).unwrap();
}

#[test]
fn validate_distribution_rejects_negative() {
    let mut probs = [0.0f32; 256];
    probs[0] = 1.1;
    probs[10] = -0.1;
    let err = validate_floats(&probs).unwrap_err();
    assert!(matches!(err, PredictorError::InvalidDistribution { .. }));
}

#[test]
fn validate_distribution_rejects_sum_far_from_one() {
    let mut probs = [0.0f32; 256];
    probs[0] = 0.5;
    let err = validate_floats(&probs).unwrap_err();
    assert!(matches!(err, PredictorError::InvalidDistribution { .. }));
}

#[test]
fn validate_distribution_accepts_sum_in_tolerance() {
    let mut probs = [0.0f32; 256];
    probs[0] = 0.9995;
    probs[1] = 0.0005;
    validate_floats(&probs).unwrap();
}

#[test]
fn validate_distribution_rejects_numbers_that_are_none() {
    let mut probs = [1.0f32 / 256.0; 256];
    probs[7] = f32::NAN;
    match validate_floats(&probs) {
        Err(PredictorError::InvalidDistribution { index, .. }) => assert_eq!(index, 7),
        _ => panic!("must be refused"),
    }
}

#[test]
fn quantize_cuts_large_values() {
    let mut scaled = [0u64; 256];
    scaled[0] = 65534;
    scaled[1] = 65535;
    scaled[2] = 65536;
    scaled[255] = u64::MAX;
    let q = quantize(&scaled);
    assert_eq!((q[0], q[1], q[2], q[3], q[255]), (65534, 65535, 65535, 0, 65535));
}

#[test]
fn normalize_keeps_numerators_over_their_sum() {
    let mut q = [0u16; 256];
    q[1] = 10;
    q[200] = 30;
    let fractions = normalize(&q);
    assert_eq!(fractions.numerators, q);
    assert_eq!(fractions.denominator, 40);

    let fractions = normalize(&[65535u16; 256]);
    assert_eq!(fractions.denominator, 256 * 65535);

    let fractions = normalize(&[0u16; 256]);
    assert_eq!(fractions.numerators, [1u16; 256]);
    assert_eq!(fractions.denominator, 256);
}

#[test]
fn validate_distribution_reports_the_first_negative_entry() {
    let mut negative = [false; 256];
    negative[10] = true;
    negative[20] = true;
    match validate_distribution(&negative, false, String::from("0.25")) {
        Err(PredictorError::InvalidDistribution { index, sum }) => {
            assert_eq!(index, 10);
            assert_eq!(sum, "0.25");
        }
        _ => panic!("must be refused"),
    }
    match validate_distribution(&[false; 256], false, String::from("0.5")) {
        Err(PredictorError::InvalidDistribution { index, sum }) => {
            assert_eq!(index, 0);
            assert_eq!(sum, "0.5");
        }
        _ => panic!("must be refused"),
    }
}
