use live_trader::double::Double;

fn d(x: f64) -> Double {
    Double { bits: x.to_bits() }
}

fn f(x: Double) -> f64 {
    f64::from_bits(x.bits)
}

fn agrees(got: Double, want: f64) -> bool {
    if want.is_nan() {
        f(got).is_nan()
    } else {
        got.bits == want.to_bits()
    }
}

fn samples() -> Vec<f64> {
    let mut out = vec![
        0.0,
        -0.0,
        1.0,
        -1.0,
        0.1,
        0.5,
        1.5,
        2.5,
        -2.5,
        3.0,
        100.0,
        4430.25,
        1e-9,
        1e6,
        1e15,
        4503599627370495.5,
        9007199254740991.0,
        9007199254740993.0,
        1e22,
        1e300,
        -1e300,
        1e-300,
        5e-324,
        2.2250738585072014e-308,
        2.225073858507201e-308,
        1.7976931348623157e308,
        f64::INFINITY,
        f64::NEG_INFINITY,
        f64::NAN,
    ];
    let mut s: u64 = 88172645463325252;
    for i in 0..60 {
        s ^= s << 13;
        s ^= s >> 7;
        s ^= s << 17;
        if i % 3 == 0 {
            out.push(f64::from_bits(s));
        } else {
            out.push(((s >> 20) as f64) / 65536.0 - 100000.0);
        }
    }
    out
}

#[test]
fn sums_and_differences_round_to_nearest() {
    for &a in &samples() {
        for &b in &samples() {
            assert!(agrees(d(a).plus(d(b)), a + b), "{a} + {b}");
            assert!(agrees(d(a).minus(d(b)), a - b), "{a} - {b}");
        }
    }
    assert_eq!(d(0.1).plus(d(0.2)).bits, 0.30000000000000004f64.to_bits());
}

#[test]
fn products_and_quotients_round_to_nearest() {
    for &a in &samples() {
        for &b in &samples() {
            assert!(agrees(d(a).times(d(b)), a * b), "{a} * {b}");
            assert!(agrees(d(a).over(d(b)), a / b), "{a} / {b}");
        }
    }
    assert_eq!(d(1.0).over(d(3.0)).bits, 0.3333333333333333f64.to_bits());
}

#[test]
fn comparisons_follow_the_numbers() {
    for &a in &samples() {
        for &b in &samples() {
            assert_eq!(d(a).lt(d(b)), a < b, "{a} < {b}");
            assert_eq!(d(a).le(d(b)), a <= b, "{a} <= {b}");
            assert_eq!(d(a).equals(d(b)), a == b, "{a} == {b}");
            if a != b || a.is_sign_negative() == b.is_sign_negative() {
                assert!(agrees(d(a).max(d(b)), a.max(b)), "max {a} {b}");
                assert!(agrees(d(a).min(d(b)), a.min(b)), "min {a} {b}");
            }
        }
    }
}

#[test]
fn rounding_and_whole_numbers() {
    for &a in &samples() {
        assert!(agrees(d(a).round(), a.round()), "round {a}");
        assert_eq!(d(a).to_i64(), a as i64, "cut {a}");
        assert!(agrees(d(a).abs(), a.abs()));
        assert!(agrees(d(a).negate(), -a));
        assert_eq!(d(a).is_nan(), a.is_nan());
        assert!(agrees(d(a).clamp(d(0.0005), d(0.005)), a.clamp(0.0005, 0.005)));
    }
    for n in [0u64, 1, 2, 3, 1 << 53, (1 << 53) + 1, u64::MAX, 1_000_000_007] {
        assert!(agrees(Double::from_u64(n), n as f64), "{n}");
        assert!(agrees(Double::from_u128(n as u128 * 1000), (n as u128 * 1000) as f64));
    }
    for n in [i64::MIN, -1, 0, 1, i64::MAX, -9007199254740993] {
        assert!(agrees(Double::from_i64(n), n as f64), "{n}");
    }
    assert_eq!(f(Double::from_ratio(55, 1000)), 0.055);
    assert_eq!(f(Double::from_ratio(2, 100)), 0.02);
    assert_eq!(f(Double::from_ratio(1, 1_000_000_000)), 1e-9);
}

#[test]
fn steps_are_those_of_printing_and_reading_back() {
    for &a in &samples() {
        let want: f64 = format!("{:.4}", a).parse().unwrap_or(a);
        assert!(agrees(d(a).round_to_steps(10_000), want), "{a}");
    }
    assert_eq!(f(d(0.00005).round_to_steps(10_000)), 0.0001);
    assert_eq!(f(d(1.00005).round_to_steps(10_000)), 1.0001);
    assert_eq!(f(d(0.03125).round_to_steps(10_000)), 0.0312);
}

#[test]
fn order_is_kept_by_rounding() {
    // two fractions and the doubles nearest to them
    assert!(Double::from_ratio(5, 10_000).le(Double::from_ratio(5, 1_000)));
    assert!(Double::from_ratio(1, 3).lt(Double::from_ratio(1, 2)));
}
