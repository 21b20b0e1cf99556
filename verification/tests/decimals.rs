use live_trader::double::Double;
use live_trader::text;
use live_trader::words;

fn d(x: f64) -> Double {
    Double { bits: x.to_bits() }
}

#[test]
fn numbers_are_read_as_written() {
    let texts = [
        "0", "-0", "+0", "1", "-1", "0.1", ".5", "5.", "+5.25", "4430.25", "1e3", "1E3", "1e+3",
        "1e-3", "2.5e-3", "123456789012345678901234567890", "0.000000000000000000000000000001",
        "9007199254740993", "9007199254740992.5", "1e308", "1.7976931348623157e308",
        "1.7976931348623159e308", "1e309", "-1e400", "1e-400", "5e-324", "2e-324", "2.5e-324",
        "3e-324", "1e999999999999999999999999999999", "1e-999999999999999999999999999999",
        "0e999999999999999999999999999999", "2.2250738585072011e-308", "2.2250738585072014e-308",
        "0.30000000000000004", "179769313486231580793e289", "inf", "-inf", "Infinity", "+INF",
        "1725314400000", "00012.50",
        "100000000000000000000000000000000000000000000000000000000000000000000000000000000000001",
        "0.1000000000000000055511151231257827021181583404541015625",
        "0.1000000000000000055511151231257827021181583404541015624",
    ];
    for t in texts {
        let want: f64 = t.parse().unwrap();
        let got = Double::parse(t);
        assert_eq!(got.map(|x| x.bits), Some(want.to_bits()), "{t}");
    }
    assert!(Double::parse("nan").unwrap().is_nan());
    assert!(Double::parse("NaN").unwrap().is_nan());
}

#[test]
fn other_texts_are_no_numbers() {
    let texts = [
        "", " ", "+", "-", ".", "e5", ".e5", "1e", "1e+", "1.2.3", "abc", "1 ", " 1", "1,5", "--1",
        "infinit", "0x10", "1_000", "١",
    ];
    for t in texts {
        assert!(t.parse::<f64>().is_err(), "{t}");
        assert_eq!(Double::parse(t), None, "{t}");
    }
}

#[test]
fn numbers_are_written_with_fixed_digits() {
    let values = [
        0.0, -0.0, 1.0, -1.5, 0.125, 0.375, 2.5, 3.5, 0.005, 0.015, 1234567.891, 1e21, 1e-7,
        99.995, 0.999, 9.5, -0.004, 5e-324, 1.7976931348623157e308, f64::INFINITY,
        f64::NEG_INFINITY, f64::NAN, 4430.255, 0.0312499999,
    ];
    for v in values {
        for p in [0usize, 1, 2, 3, 6, 8, 20] {
            assert_eq!(d(v).fixed(p), format!("{:.*}", p, v), "{v} {p}");
        }
    }
    assert_eq!(d(0.125).fixed(2), "0.12");
    assert_eq!(d(0.375).fixed(2), "0.38");
    assert_eq!(d(-0.004).fixed(2), "-0.00");
}

#[test]
fn powers_of_ten() {
    for n in 0..23u32 {
        assert_eq!(Double::ten_to(n).bits, 10f64.powi(n as i32).to_bits());
    }
    assert_eq!(f64::from_bits(Double::ten_to(400).bits), f64::INFINITY);
}

#[test]
fn whole_numbers_are_read() {
    for t in ["0", "-0", "+7", "-42", "9223372036854775807", "-9223372036854775808", "007"] {
        assert_eq!(words::parse_i64(t), t.parse::<i64>().ok(), "{t}");
    }
    for t in ["", "+", "-", "9223372036854775808", "-9223372036854775809", "1.5", "x", "1 "] {
        assert_eq!(words::parse_i64(t), None, "{t}");
    }
    assert_eq!(words::parse_count("65535", 65535), Some(65535));
    assert_eq!(words::parse_count("65536", 65535), None);
    assert_eq!(words::parse_count("+80", 65535), Some(80));
    assert_eq!(words::parse_count("-0", 65535), None);
    assert_eq!(words::parse_count("", 65535), None);
}

#[test]
fn texts_are_taken_apart() {
    assert_eq!(words::split("a,b,,c", ','), vec!["a", "b", "", "c"]);
    assert_eq!(words::split("", ','), vec![""]);
    assert_eq!(words::split("a,", ','), vec!["a", ""]);
    assert_eq!(words::trim(" \t x y\u{a0}\n"), "x y");
    assert_eq!(words::trim("   "), "");
    assert_eq!(words::trim_end("http://x//", '/'), "http://x");
    assert!(words::contains("Upgrade, keep-alive", "keep-alive"));
    assert!(!words::contains("close", "keep-alive"));
    assert!(words::contains("x", ""));
    assert_eq!(words::to_ascii_small("YeS Ä"), "yes Ä");
    for n in 0..0x3100u32 {
        if let Some(c) = char::from_u32(n) {
            assert_eq!(words::space(c), c.is_whitespace(), "{n}");
        }
    }
}

#[test]
fn decimal_digits() {
    let mut s = String::new();
    text::push_decimal(&mut s, 18446744073709551615);
    text::push_signed(&mut s, i64::MIN);
    text::push_zero_padded(&mut s, 7, 2);
    text::push_zero_padded(&mut s, -7, 4);
    assert_eq!(s, "18446744073709551615-922337203685477580807-007");
    assert_eq!(text::text_of(&text::wide_decimal_chars(1u128 << 100)), format!("{}", 1u128 << 100));
}
