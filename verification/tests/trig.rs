//! The fixed-point circular functions against the floating-point
//! reference, and their exact special values.

use cowor::trig::atan2_fx;
use cowor::trig::cos_fx;
use cowor::trig::sin_fx;
use cowor::trig::PI_FX;

const S: i64 = 10_000_000;

fn close(fixed: i64, real: f64, tol: f64) -> bool {
    (fixed as f64 / S as f64 - real).abs() <= tol
}

#[test]
fn sine_and_cosine_match_reference() {
    let mut h: i64 = -200_000_000;
    while h <= 200_000_000 {
        let real = h as f64 / S as f64;
        assert!(close(sin_fx(h), real.sin(), 1e-5), "sin at {h}");
        assert!(close(cos_fx(h), real.cos(), 1e-5), "cos at {h}");
        h += 1_234_567;
    }
}

#[test]
fn sine_and_cosine_special_values() {
    assert_eq!(sin_fx(0), 0);
    assert_eq!(cos_fx(0), S);
    assert!(close(sin_fx(PI_FX), 0.0, 1e-6));
    assert!(close(cos_fx(PI_FX), -1.0, 1e-6));
    assert!(close(sin_fx(PI_FX / 2), 1.0, 1e-6));
    // values never leave the unit range
    let mut h: i64 = -100 * S;
    while h <= 100 * S {
        assert!(sin_fx(h).abs() <= S);
        assert!(cos_fx(h).abs() <= S);
        h += 7_654_321;
    }
}

#[test]
fn atan2_matches_reference() {
    let samples: [i64; 9] = [
        -120 * S,
        -7 * S,
        -S,
        -1000,
        0,
        1000,
        S,
        7 * S,
        120 * S,
    ];
    for &a in &samples {
        for &b in &samples {
            if a == 0 && b == 0 {
                assert_eq!(atan2_fx(b, a), 0);
            } else {
                let real = (b as f64).atan2(a as f64);
                assert!(close(atan2_fx(b, a), real, 1e-5), "atan2({b}, {a})");
            }
        }
    }
}

#[test]
fn atan2_axes() {
    assert_eq!(atan2_fx(0, 5 * S), 0);
    assert_eq!(atan2_fx(0, -5 * S), PI_FX);
    let q = atan2_fx(5 * S, 0);
    assert!(close(q, std::f64::consts::FRAC_PI_2, 1e-6));
}
