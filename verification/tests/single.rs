use rwkv_router::widths::{from_double, narrow, widen};
use rwkv_router::Single;

fn s(x: f32) -> Single {
    Single::from_bits(x.to_bits())
}

fn same(got: Single, want: f32, what: &str) {
    if want.is_nan() {
        assert!(got.is_nan(), "{what}");
    } else {
        assert_eq!(got.bits, want.to_bits(), "{what}");
    }
}

fn cases() -> Vec<f32> {
    let mut xs = vec![
        0.0,
        -0.0,
        1.0,
        -1.0,
        0.1,
        -0.3,
        1.5,
        3.0,
        1e-45,
        -1e-45,
        f32::MIN_POSITIVE,
        f32::from_bits(0x007f_ffff),
        f32::MAX,
        f32::MIN,
        f32::INFINITY,
        f32::NEG_INFINITY,
        f32::NAN,
        1e30,
        -1e-30,
        16777216.0,
        16777217.0,
        0.33333334,
        std::f32::consts::PI,
    ];
    let mut x = 0x1234_5678u32;
    for _ in 0..60 {
        x = x.wrapping_mul(1664525).wrapping_add(1013904223);
        xs.push(f32::from_bits(x));
    }
    xs
}

#[test]
fn arithmetic_matches_the_hardware() {
    for a in cases() {
        same(s(a).root(), a.sqrt(), &format!("sqrt {a}"));
        same(s(a).neg(), -a, &format!("neg {a}"));
        assert_eq!(s(a).is_finite(), a.is_finite());
        for b in cases() {
            same(s(a).plus(s(b)), a + b, &format!("{a} + {b}"));
            same(s(a).minus(s(b)), a - b, &format!("{a} - {b}"));
            same(s(a).times(s(b)), a * b, &format!("{a} * {b}"));
            same(s(a).over(s(b)), a / b, &format!("{a} / {b}"));
            assert_eq!(s(a).less(s(b)), a < b, "{a} < {b}");
            assert_eq!(s(a).less_or_equal(s(b)), a <= b, "{a} <= {b}");
        }
    }
}

#[test]
fn counts_match_the_hardware() {
    for n in [0u64, 1, 7, 1000, 16777215, 16777217, 33554435, u32::MAX as u64, u64::MAX, 1 << 40] {
        same(Single::from_count(n), n as f32, &format!("{n}"));
    }
}

#[test]
fn half_precision_matches_the_half_crate() {
    for a in cases() {
        if a.is_nan() {
            continue;
        }
        let h = half::f16::from_f32(a);
        assert_eq!(narrow(s(a)), h.to_bits(), "{a}");
    }
    for bits in 0..=u16::MAX {
        let h = half::f16::from_bits(bits);
        if h.is_nan() {
            assert!(widen(bits).is_nan());
        } else {
            assert_eq!(widen(bits).bits, h.to_f32().to_bits());
            assert_eq!(narrow(widen(bits)), bits);
        }
    }
}

#[test]
fn double_precision_matches_the_hardware() {
    let mut xs: Vec<f64> = cases().into_iter().map(|x| x as f64 * 1.000000001).collect();
    xs.extend([0.1, 1e300, -1e300, 1e-46, 7e-46, 1e-320, f64::INFINITY, f64::NAN, 0.7]);
    let mut x = 0x1234_5678_9abc_def0u64;
    for _ in 0..200 {
        x = x.wrapping_mul(6364136223846793005).wrapping_add(1442695040888963407);
        xs.push(f64::from_bits(x));
    }
    for d in xs {
        same(from_double(d.to_bits()), d as f32, &format!("{d}"));
    }
}
