use gannai::common::{exceeds, positive, value_gt, value_le, value_lt};

const SAMPLES: [f64; 12] = [
    0.0, -0.0, 1.0, -1.0, 0.5, -0.5, 1e-300, -1e-300, 1e300, f64::INFINITY,
    f64::NEG_INFINITY, 3.25,
];

#[test]
fn test_value_le_matches_double_comparison() {
    for &a in SAMPLES.iter() {
        for &b in SAMPLES.iter() {
            assert_eq!(value_le(a.to_bits(), b.to_bits()), a <= b);
        }
        assert!(!value_le(a.to_bits(), f64::NAN.to_bits()));
        assert!(!value_le(f64::NAN.to_bits(), a.to_bits()));
    }
}

#[test]
fn test_value_lt_matches_double_comparison() {
    for &a in SAMPLES.iter() {
        for &b in SAMPLES.iter() {
            assert_eq!(value_lt(a.to_bits(), b.to_bits()), a < b);
            assert_eq!(value_gt(a.to_bits(), b.to_bits()), a > b);
        }
    }
}

#[test]
fn test_exceeds_matches_magnitude_comparison() {
    let thresholds: [f64; 4] = [0.0, 1e-8, 1e-3, 1.0];
    for &t in thresholds.iter() {
        for &a in SAMPLES.iter() {
            assert_eq!(exceeds(a.to_bits(), t.to_bits()), a.abs() > t);
        }
        assert!(!exceeds(f64::NAN.to_bits(), t.to_bits()));
    }
}

#[test]
fn test_positive_matches_double_comparison() {
    for &a in SAMPLES.iter() {
        assert_eq!(positive(a.to_bits()), a > 0.0);
    }
    assert!(!positive(f64::NAN.to_bits()));
}
