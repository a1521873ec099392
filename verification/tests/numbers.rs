//! Numbers held as bit patterns, against the machine's own.

use rlx_eda::convert;
use rlx_eda::decimal;
use rlx_eda::double::Real;
use rlx_eda::numfmt;
use rlx_eda::single::Single;

fn dbl(v: f64) -> Real {
    Real { bits: v.to_bits() }
}

fn single(v: f32) -> Single {
    Single { bits: v.to_bits() }
}

fn same(r: Real, v: f64) -> bool {
    if v.is_nan() {
        f64::from_bits(r.bits).is_nan()
    } else {
        r.bits == v.to_bits()
    }
}

fn same_single(r: Single, v: f32) -> bool {
    if v.is_nan() {
        f32::from_bits(r.bits).is_nan()
    } else {
        r.bits == v.to_bits()
    }
}

/// A fixed sequence of bit patterns.
fn patterns(n: usize) -> Vec<u64> {
    let mut x: u64 = 0x9e37_79b9_7f4a_7c15;
    let mut v = Vec::new();
    for _ in 0..n {
        x ^= x << 13;
        x ^= x >> 7;
        x ^= x << 17;
        v.push(x);
    }
    v
}

fn doubles() -> Vec<f64> {
    let mut v = vec![
        0.0, -0.0, 1.0, -1.0, 0.1, 1.8, 2.5, 1e-3, 1e300, -1e-300, 5e-324, f64::MAX, f64::MIN_POSITIVE,
        f64::INFINITY, f64::NEG_INFINITY, f64::NAN,
    ];
    for b in patterns(12) {
        v.push(f64::from_bits(b));
        v.push(f64::from_bits((b & 0x800f_ffff_ffff_ffff) | 0x3ff0_0000_0000_0000));
    }
    v
}

fn singles() -> Vec<f32> {
    let mut v = vec![
        0.0, -0.0, 1.0, -1.0, 0.1, 1.8, 2.5, 1e-3, 1e30, -1e-30, 1e-45, f32::MAX, f32::MIN_POSITIVE,
        f32::INFINITY, f32::NEG_INFINITY, f32::NAN,
    ];
    for b in patterns(12) {
        v.push(f32::from_bits(b as u32));
        v.push(f32::from_bits((b as u32 & 0x807f_ffff) | 0x3f80_0000));
    }
    v
}

#[test]
fn double_arithmetic_is_the_machines() {
    for &a in &doubles() {
        for &b in &doubles() {
            let (x, y) = (dbl(a), dbl(b));
            assert!(same(x.add(y), a + b), "{a:e} + {b:e}");
            assert!(same(x.sub(y), a - b), "{a:e} - {b:e}");
            assert!(same(x.mul(y), a * b), "{a:e} * {b:e}");
            assert!(same(x.div(y), a / b), "{a:e} / {b:e}");
            assert_eq!(x.lt(y), a < b);
            assert_eq!(x.le(y), a <= b);
        }
        assert!(same(dbl(a).sqrt(), a.sqrt()), "sqrt {a:e}");
        assert!(same(dbl(a).abs(), a.abs()));
        assert!(same(dbl(a).ceil(), a.ceil()), "ceil {a:e}");
    }
}

#[test]
fn single_arithmetic_is_the_machines() {
    for &a in &singles() {
        for &b in &singles() {
            let (x, y) = (single(a), single(b));
            assert!(same_single(x.add(y), a + b), "{a:e} + {b:e}");
            assert!(same_single(x.sub(y), a - b), "{a:e} - {b:e}");
            assert!(same_single(x.mul(y), a * b), "{a:e} * {b:e}");
            assert!(same_single(x.div(y), a / b), "{a:e} / {b:e}");
            assert_eq!(x.lt(y), a < b);
            assert_eq!(x.le(y), a <= b);
        }
        assert!(same_single(single(a).sqrt(), a.sqrt()), "sqrt {a:e}");
        assert!(same(convert::widen(single(a)), a as f64), "widen {a:e}");
        if a.is_finite() {
            assert_eq!(single(a).round_to_i64(), a.round() as i64, "round {a:e}");
        }
    }
    for &a in &doubles() {
        assert!(same_single(convert::narrow(dbl(a)), a as f32), "narrow {a:e}");
    }
}

#[test]
fn numerals_read_as_the_machine_reads_them() {
    for s in [
        "0", "-0", "1", "1.5", "-2.25e3", "1e-400", "1e400", "4.9406564584124654e-324", "0.1", "inf", "-inf",
        "NaN", "nan", "+3.5", ".5", "5.", "1e", "e5", "", "-", "abc", "1.2.3", "9007199254740993",
        "1.7976931348623159e308", "2.2250738585072011e-308",
    ] {
        let mine = decimal::parse_real(s);
        match s.parse::<f64>() {
            Ok(v) => assert!(same(mine.expect(s), v), "{s}"),
            Err(_) => assert!(mine.is_none(), "{s}"),
        }
    }
}

#[test]
fn numbers_print_as_the_machine_prints_them() {
    for &a in &doubles() {
        let r = dbl(a);
        assert_eq!(numfmt::to_fixed(r, 3, false), format!("{:.3}", a));
        assert_eq!(numfmt::to_fixed(r, 0, true), format!("{:+.0}", a));
        assert_eq!(numfmt::to_scientific(r, 4), format!("{:.4e}", a));
        assert_eq!(numfmt::to_scientific(r, 0), format!("{:.0e}", a));
        assert_eq!(numfmt::to_signed_scientific(r, 6), format!("{:+.6e}", a));
        assert_eq!(numfmt::to_shortest(r), format!("{}", a));
    }
    for &a in &singles() {
        assert_eq!(numfmt::to_scientific(convert::widen(single(a)), 9), format!("{:.9e}", a));
        assert_eq!(numfmt::to_fixed(convert::widen(single(a)), 1, false), format!("{:.1}", a));
    }
}
