//! The processor's single-precision arithmetic behaves as the laws ask, on the
//! numbers tried here.

use std::time::Duration;

fn numbers() -> Vec<f32> {
    let mut v = vec![
        0.0,
        f32::from_bits(1),
        f32::MIN_POSITIVE,
        1e-20,
        1e-6,
        0.05,
        0.3,
        0.965,
        1.0,
        1.5,
        3.0,
        1000.0,
        16777217.0,
        1e19,
        3e38,
        f32::INFINITY,
    ];
    v.extend(v.clone().iter().map(|x| -x));
    v.push(f32::NAN);
    v
}

fn alike(a: f32, b: f32) -> bool {
    (a.is_nan() && b.is_nan()) || a == b
}

fn mirrors(a: f32, b: f32) -> bool {
    alike(a, -b)
}

fn multiplies(a: f32, f: f32) -> bool {
    !a.is_nan() && f.is_finite() && (a.is_finite() || f != 0.0)
}

#[test]
fn fractions_make_nothing_larger() {
    for a in numbers() {
        for f in numbers() {
            if f >= 0.0 && f <= 1.0 && multiplies(a, f) {
                assert!((a * f).abs() <= a.abs());
            }
            if a >= 0.0 && a <= 1.0 && f >= 0.0 {
                let p = a.powf(f);
                assert!(p >= 0.0 && p <= 1.0);
            }
            if a >= 0.0 && f > 0.0 && f.is_finite() {
                assert!(a / f >= 0.0);
            }
        }
    }
}

#[test]
fn signs_multiply() {
    for a in numbers() {
        for b in numbers() {
            for r in [a * b, a / b] {
                assert!(r.is_nan() || !(a.is_nan() || b.is_nan()));
                if !r.is_nan() {
                    assert_eq!(
                        r.is_sign_negative(),
                        a.is_sign_negative() != b.is_sign_negative()
                    );
                }
            }
        }
    }
}

#[test]
fn order_is_kept() {
    for a in numbers() {
        for b in numbers() {
            for c in numbers() {
                if 0.0 <= a && a <= b && c >= 0.0 && multiplies(b, c) {
                    assert!(a * c >= 0.0 && a * c <= b * c);
                }
                if a >= 0.0 && a <= b && multiplies(c, a) && multiplies(c, b) {
                    assert!((c * a).abs() <= (c * b).abs());
                }
                if 0.0 <= a && a <= b && c > 0.0 && c.is_finite() {
                    assert!(a / c >= 0.0 && a / c <= b / c);
                }
                if a <= b && c.is_finite() {
                    assert!(c - b <= c - a);
                }
                if a.abs() <= b.abs() && !c.is_nan() {
                    assert!(a.hypot(c) >= 0.0 && a.hypot(c) <= b.hypot(c));
                    assert!(c.hypot(a) >= 0.0 && c.hypot(a) <= c.hypot(b));
                }
            }
        }
    }
    let mut before = 0.0;
    for n in [0, 1, 999, 1_000_000, 16_000_000, 999_999_999, 1_000_000_000, 1_000_000_001, u64::MAX]
    {
        let secs = Duration::from_nanos(n).as_secs_f32();
        assert!(secs >= before);
        before = secs;
    }
}

#[test]
fn signs_turn_results() {
    for a in numbers() {
        for b in numbers() {
            assert!(mirrors(-a + -b, a + b));
            assert!(mirrors(-a - -b, a - b));
            assert!(mirrors(a * -b, a * b) && mirrors(-a * b, a * b));
            assert!(mirrors(-a / b, a / b));
            assert!(alike((-a).powi(2), a.powi(2)));
            assert!(alike((-a).hypot(b), a.hypot(b)) && alike(a.hypot(-b), a.hypot(b)));
            assert!(alike(a + b, b + a) && alike(a.hypot(b), b.hypot(a)));
            let z = if b == 0.0 { -b } else { b };
            assert!(alike(a + z, a + b) && alike(a - z, a - b) && alike(z - a, b - a));
            assert!(alike(a * z, a * b) && alike(a.hypot(z), a.hypot(b)));
            assert!(alike(z.sqrt(), b.sqrt()) && alike(z.powi(2), b.powi(2)));
            if a != 0.0 {
                assert!(alike(z / a, b / a));
            }
        }
    }
    // The difference of a number and itself is the positive zero, mirrored or not.
    assert_eq!((3.0f32 - 3.0).to_bits(), 0);
    assert_eq!((-3.0f32 - -3.0).to_bits(), 0);
}
