use cgroup_stats_cli::utils::float::{format_fixed2, is_positive_value, saturating_to_u64, F64Bits};

fn samples() -> Vec<f64> {
    let mut v = vec![
        0.0, -0.0, 0.005, 0.015, 0.025, 0.125, 0.375, 0.625, 1.005, 2.675, 0.53, 2.0, 0.1, 0.5,
        0.999, 0.995, 0.994999, 1e-300, 5e-324, -5e-324, 1e15, 1e16, 1e20, 1e22, 1e300,
        f64::MAX, f64::MIN_POSITIVE, -1.5, -0.001, 4503599627370495.5, 9007199254740993.0,
        18446744073709551615.0, 18446744073709549568.0, f64::NAN, -f64::NAN, f64::INFINITY,
        f64::NEG_INFINITY, 1258291.0, 348160.0, 2048.0, 0.4, 0.6,
    ];
    let mut seed: u64 = 0x1234_5678_9abc_def1;
    for _ in 0..20000 {
        seed ^= seed << 13;
        seed ^= seed >> 7;
        seed ^= seed << 17;
        v.push(f64::from_bits(seed));
        v.push((seed % 100000) as f64 / 1000.0);
        v.push((seed % 1000) as f64 / 8.0);
    }
    v
}

#[test]
fn fixed2_agrees_with_std_formatting() {
    for x in samples() {
        assert_eq!(format_fixed2(F64Bits { bits: x.to_bits() }), format!("{x:.2}"), "{:e}", x);
    }
}

#[test]
fn positivity_agrees_with_comparison_to_zero() {
    for x in samples() {
        assert_eq!(is_positive_value(F64Bits { bits: x.to_bits() }), x > 0.0, "{x:e}");
    }
}

#[test]
fn integer_conversion_agrees_with_as_cast() {
    for x in samples() {
        assert_eq!(saturating_to_u64(F64Bits { bits: x.to_bits() }), x as u64, "{x:e}");
    }
}

#[test]
fn equality_compares_as_doubles_do() {
    let samples = [
        0.0, -0.0, 1.0, -1.0, 0.5, 1e-310, f64::MAX, f64::MIN_POSITIVE, f64::NAN, -f64::NAN,
        f64::INFINITY, f64::NEG_INFINITY,
    ];
    for &x in &samples {
        for &y in &samples {
            let bx = F64Bits { bits: x.to_bits() };
            let by = F64Bits { bits: y.to_bits() };
            assert_eq!(bx == by, x == y, "{x:e} {y:e}");
        }
    }
    assert!(F64Bits { bits: 0.0f64.to_bits() } == F64Bits { bits: (-0.0f64).to_bits() });
    assert!(F64Bits { bits: f64::NAN.to_bits() } != F64Bits { bits: f64::NAN.to_bits() });
}
