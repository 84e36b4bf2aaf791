//! The library's operations against the machine's.
use spectral::double::Double;
use spectral::rng::PathRng;
use spectral::scalar::Scalar;

fn s(x: f32) -> Scalar {
    Scalar::from_bits(x.to_bits())
}

fn same(found: Scalar, expected: f32) -> bool {
    if expected.is_nan() {
        found.is_nan()
    } else {
        found.to_bits() == expected.to_bits()
    }
}

/// Encodings at the edges of the format, and random ones.
fn samples() -> Vec<f32> {
    let mut out: Vec<f32> = vec![
        0.0,
        -0.0,
        1.0,
        -1.0,
        2.0,
        0.5,
        3.0,
        f32::MAX,
        f32::MIN,
        f32::MIN_POSITIVE,
        f32::EPSILON,
        f32::INFINITY,
        f32::NEG_INFINITY,
        f32::NAN,
        f32::from_bits(1),
        f32::from_bits(0x007f_ffff),
        f32::from_bits(0x0080_0001),
        f32::from_bits(0x8000_0001),
        16_777_216.0,
        16_777_215.0,
        1.0e-38,
        1.0e38,
        0.1,
        0.3,
    ];
    let mut rng = PathRng::new(3, 4);
    for _ in 0..400 {
        out.push(f32::from_bits(rng.next_u32()));
    }
    for _ in 0..400 {
        let bits = rng.next_u32();
        out.push(f32::from_bits(0x3f00_0000 + bits % 0x0200_0000));
    }
    out
}

#[test]
fn operations_agree_with_the_machine() {
    let all = samples();
    for &a in &all {
        assert!(same(s(a).sqrt(), a.sqrt()), "sqrt {a:e}");
        for &b in &all {
            assert!(same(s(a).plus(s(b)), a + b), "{a:e} + {b:e}");
            assert!(same(s(a).minus(s(b)), a - b), "{a:e} - {b:e}");
            assert!(same(s(a).times(s(b)), a * b), "{a:e} * {b:e}");
            assert!(same(s(a).over(s(b)), a / b), "{a:e} / {b:e}");
            assert_eq!(s(a).lt(s(b)), a < b, "{a:e} < {b:e}");
            assert_eq!(s(a).le(s(b)), a <= b, "{a:e} <= {b:e}");
        }
    }
}

fn d(x: f64) -> Double {
    Double { bits: x.to_bits() }
}

fn same_double(found: Double, expected: f64) -> bool {
    if expected.is_nan() {
        found.is_nan()
    } else {
        found.bits == expected.to_bits()
    }
}

fn doubles() -> Vec<f64> {
    let mut out: Vec<f64> = vec![
        0.0,
        -0.0,
        1.0,
        -1.0,
        2.0,
        0.5,
        3.0,
        1000.0,
        f64::MAX,
        f64::MIN,
        f64::MIN_POSITIVE,
        f64::EPSILON,
        f64::INFINITY,
        f64::NEG_INFINITY,
        f64::NAN,
        f64::from_bits(1),
        f64::from_bits(0x000f_ffff_ffff_ffff),
        f64::from_bits(0x0010_0000_0000_0001),
        9_007_199_254_740_992.0,
        9_007_199_254_740_991.0,
        1.0e-308,
        1.0e308,
        0.1,
        0.3,
        3.5e38,
        1.0e-46,
        7.1e-46,
    ];
    let mut rng = PathRng::new(5, 6);
    let mut word = || ((rng.next_u32() as u64) << 32) + rng.next_u32() as u64;
    for _ in 0..250 {
        out.push(f64::from_bits(word()));
    }
    for _ in 0..250 {
        out.push(f64::from_bits(0x3fe0_0000_0000_0000 + word() % 0x0040_0000_0000_0000));
    }
    for _ in 0..100 {
        out.push(f64::from_bits(0x3690_0000_0000_0000 + word() % 0x1170_0000_0000_0000));
    }
    out
}

#[test]
fn doubles_agree_with_the_machine() {
    let all = doubles();
    for &a in &all {
        assert!(same_double(d(a).sqrt(), a.sqrt()), "sqrt {a:e}");
        assert!(same(d(a).to_scalar(), a as f32), "narrow {a:e}");
        for &b in &all {
            assert!(same_double(d(a).plus(d(b)), a + b), "{a:e} + {b:e}");
            assert!(same_double(d(a).minus(d(b)), a - b), "{a:e} - {b:e}");
            assert!(same_double(d(a).times(d(b)), a * b), "{a:e} * {b:e}");
            assert!(same_double(d(a).over(d(b)), a / b), "{a:e} / {b:e}");
        }
    }
    for &x in &samples() {
        assert!(same_double(Double::from_scalar(s(x)), x as f64), "widen {x:e}");
        assert!(same(Double::from_scalar(s(x)).to_scalar(), x), "there and back {x:e}");
    }
}
