//! The arithmetic against that of the machine, bit for bit.

use demiurge::binary64::Real;

fn r(x: f64) -> Real {
    Real::from_bits(x.to_bits())
}

fn same(got: Real, want: f64, what: &str) {
    if want.is_nan() {
        assert!(!got.is_finite() && f64::from_bits(got.to_bits()).is_nan(), "{what}");
    } else {
        assert_eq!(got.to_bits(), want.to_bits(), "{what}");
    }
}

fn samples() -> Vec<f64> {
    let mut v = vec![
        0.0, -0.0, 1.0, -1.0, 0.5, 0.1, 0.2, 0.3, 1e-300, -1e-300, 1e300, -1e300, 3.5, 1.0 / 3.0,
        f64::MAX, f64::MIN, f64::MIN_POSITIVE, f64::EPSILON, 5e-324, -5e-324, 2.2250738585072009e-308,
        9007199254740991.0, 9007199254740992.0, 9007199254740993.0, 0.999, 0.001, 1e-12, 16.0,
        f64::INFINITY, f64::NEG_INFINITY, f64::NAN,
    ];
    let mut state: u64 = 0x243F6A8885A308D3;
    for i in 0..60u64 {
        state = state.wrapping_mul(6364136223846793005).wrapping_add(1442695040888963407);
        v.push(f64::from_bits(state));
        // Values near one another, where rounding and cancellation show.
        v.push(1.0 + (state >> 12) as f64 * 2f64.powi(-52 - (i as i32 % 8)));
    }
    v
}

#[test]
fn sums_products_and_quotients_match_the_machine() {
    let v = samples();
    for &a in &v {
        for &b in &v {
            same(r(a).plus(r(b)), a + b, &format!("{a:e} + {b:e}"));
            same(r(a).minus(r(b)), a - b, &format!("{a:e} - {b:e}"));
            same(r(a).times(r(b)), a * b, &format!("{a:e} * {b:e}"));
            same(r(a).over(r(b)), a / b, &format!("{a:e} / {b:e}"));
        }
    }
}

#[test]
fn comparisons_match_the_machine() {
    let v = samples();
    for &a in &v {
        for &b in &v {
            assert_eq!(r(a).lt(r(b)), a < b, "{a:e} < {b:e}");
            assert_eq!(r(a).le(r(b)), a <= b, "{a:e} <= {b:e}");
            assert_eq!(r(a).total_rank() < r(b).total_rank(), a.total_cmp(&b).is_lt());
            if a != b {
                same(r(a).max_with(r(b)), a.max(b), "max");
                same(r(a).min_with(r(b)), a.min(b), "min");
            }
        }
    }
}

#[test]
fn conversions_match_the_machine() {
    for &a in &samples() {
        assert_eq!(r(a).to_u64(), a as u64, "{a:e}");
        assert_eq!(r(a).round_to_u64(), a.round() as u64, "{a:e}");
        assert_eq!(r(a).is_finite(), a.is_finite());
        same(r(a).abs_value(), a.abs(), "abs");
        same(r(a).negated(), -a, "neg");
    }
    let mut state: u64 = 88172645463325252;
    for i in 0..2000u64 {
        state ^= state << 13;
        state ^= state >> 7;
        state ^= state << 17;
        let n = state >> (i % 64);
        assert_eq!(Real::from_u64(n).to_bits(), (n as f64).to_bits(), "{n}");
        let x = n as f64 / 1024.0;
        assert_eq!(r(x).to_u64(), x as u64);
        assert_eq!(r(x).round_to_u64(), x.round() as u64);
    }
    for n in [0, 1, 2, u64::MAX, u64::MAX - 1, (1 << 53) + 1, (1 << 54) + 2, (1 << 54) + 6] {
        assert_eq!(Real::from_u64(n).to_bits(), (n as f64).to_bits(), "{n}");
    }
    for x in [0.5, 1.5, 2.5, 0.49999999999999994, 4503599627370495.5] {
        assert_eq!(r(x).round_to_u64(), x.round() as u64);
    }
}

#[test]
fn durations_match_the_machine() {
    for ns in [0u128, 1, 999, 1_000_000_000, 1_234_567_890, 50_000_000, u64::MAX as u128] {
        let d = std::time::Duration::from_nanos(ns as u64);
        assert_eq!(Real::seconds_from_nanos(ns).to_bits(), d.as_secs_f64().to_bits());
    }
    for secs in [0.0, 1e-9, 1.5e-9, 2.5e-9, 0.1, 0.000052, 12345.6789, 4294967295.25] {
        let d = std::time::Duration::from_secs_f64(secs);
        assert_eq!(r(secs).to_nanos(), d.as_nanos());
    }
}

#[test]
fn clamp_keeps_what_is_not_a_number() {
    assert_eq!(r(2.0).clamp_to(r(0.0), r(1.0)).to_bits(), 1.0f64.to_bits());
    assert_eq!(r(-2.0).clamp_to(r(0.0), r(1.0)).to_bits(), 0.0f64.to_bits());
    assert_eq!(r(0.25).clamp_to(r(0.0), r(1.0)).to_bits(), 0.25f64.to_bits());
    assert!(f64::from_bits(r(f64::NAN).clamp_to(r(0.0), r(1.0)).to_bits()).is_nan());
}
