//! Arithmetic against the machine's own.

use itv_relay::binary64::Binary64;

fn float(value: f64) -> Binary64 {
    Binary64 { bits: value.to_bits() }
}

fn same(ours: Binary64, theirs: f64) {
    let value = f64::from_bits(ours.bits);
    if theirs.is_nan() {
        assert!(value.is_nan());
    } else {
        assert_eq!(ours.bits, theirs.to_bits(), "{value} is not {theirs}");
    }
}

fn numbers() -> Vec<f64> {
    let mut all = vec![
        0.0,
        1.0,
        2.0,
        0.1,
        0.3,
        0.75,
        0.02,
        1.0 / 3.0,
        1e-5,
        1e5,
        741_000.0,
        1e300,
        1e-300,
        5e-324,
        1e-310,
        2.2250738585072014e-308,
        2.225073858507201e-308,
        f64::MAX,
        f64::EPSILON,
        1.0 + f64::EPSILON,
        9007199254740993.0,
        18446744073709551615.0,
        f64::INFINITY,
        f64::NAN,
    ];
    let mut seed: u64 = 0x9e37_79b9_7f4a_7c15;
    for _ in 0..120 {
        seed ^= seed << 13;
        seed ^= seed >> 7;
        seed ^= seed << 17;
        all.push(f64::from_bits(seed & 0x7fff_ffff_ffff_ffff));
        all.push((seed % 1_000_003) as f64 / 1024.0);
        all.push(seed as f64);
    }
    let negative: Vec<f64> = all.iter().map(|x| -x).collect();
    all.extend(negative);
    all
}

#[test]
fn sums_and_differences() {
    for &a in &numbers() {
        for &b in &numbers() {
            same(float(a).plus(float(b)), a + b);
            same(float(a).minus(float(b)), a - b);
        }
    }
}

#[test]
fn products() {
    for &a in &numbers() {
        for &b in &numbers() {
            same(float(a).times(float(b)), a * b);
        }
    }
}

#[test]
fn quotients() {
    for &a in &numbers() {
        for &b in &numbers() {
            same(float(a).over(float(b)), a / b);
        }
    }
}

#[test]
fn comparisons() {
    for &a in &numbers() {
        same(float(a).abs(), a.abs());
        same(float(a).negate(), -a);
        for &b in &numbers() {
            assert_eq!(float(a).lt(float(b)), a < b);
            assert_eq!(float(a).le(float(b)), a <= b);
            if a != b {
                same(float(a).max(float(b)), a.max(b));
            }
        }
        if !a.is_nan() {
            same(float(a).clamp(float(0.02), float(0.5)), a.clamp(0.02, 0.5));
        }
    }
}

#[test]
fn whole_numbers() {
    for &a in &numbers() {
        assert_eq!(float(a).to_u64(), a as u64);
        assert_eq!(float(a).to_i64(), a as i64);
    }
    let mut seed: u64 = 88172645463325252;
    for shift in 0..2000u32 {
        seed ^= seed << 13;
        seed ^= seed >> 7;
        seed ^= seed << 17;
        let v = seed >> (shift % 64);
        same(Binary64::from_u64(v), v as f64);
        same(Binary64::from_i64(v as i64), v as i64 as f64);
        same(Binary64::from_i64((v as i64).wrapping_neg()), (v as i64).wrapping_neg() as f64);
    }
    same(Binary64::from_u64(u64::MAX), u64::MAX as f64);
    same(Binary64::from_i64(i64::MIN), i64::MIN as f64);
}

#[test]
fn fractions_are_the_literals() {
    same(Binary64::ratio(2, 100), 0.02);
    same(Binary64::ratio(5, 1000), 0.005);
    same(Binary64::ratio(85, 100), 0.85);
    same(Binary64::ratio(3, 10), 0.3);
    same(Binary64::ratio(75, 100), 0.75);
    same(Binary64::ratio(1, 100), 0.01);
    same(Binary64::ratio(5, 100), 0.05);
    same(Binary64::ratio(20, 100), 0.20);
    same(Binary64::ratio(10, 100), 0.10);
    same(Binary64::ratio(1, 10), 0.1);
}

#[test]
fn times() {
    for &a in &numbers() {
        let ours = float(a).to_nanos();
        let theirs = std::time::Duration::try_from_secs_f64(a).ok();
        assert_eq!(ours, theirs.map(|d| d.as_nanos()), "{a}");
    }
    for nanos in [0u128, 1, 999_999_999, 1_000_000_000, 1_500_000_001, 86_400_123_456_789] {
        let duration = std::time::Duration::from_nanos(nanos as u64);
        same(Binary64::from_nanos(nanos), duration.as_secs_f64());
    }
}
