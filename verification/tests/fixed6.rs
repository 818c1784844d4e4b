use refetch_core::fixed6::{checked_pow10, parse_fixed6, Fixed6};

fn fixed(text: &str) -> Fixed6 {
    parse_fixed6(text).unwrap()
}

#[test]
fn fixed6_accepts_exact_six_decimal_values_and_exponents() {
    assert_eq!(fixed("0.000001").raw(), 1);
    assert_eq!(fixed("1e-6").raw(), 1);
    assert_eq!(fixed("-1e-6").raw(), -1);
    assert_eq!(fixed("1.234567").raw(), 1_234_567);
    assert_eq!(fixed("123e-2").raw(), 1_230_000);
}

#[test]
fn fixed6_rejects_values_beyond_six_decimal_places() {
    for json in ["0.0000001", "1e-7", "-1e-7"] {
        let error = parse_fixed6(json).unwrap_err();
        assert!(error.contains("more than six decimals"), "{json}: {error}");
    }
}

#[test]
fn fixed6_smallest_value_round_trips() {
    let value = fixed("0.000001");
    let text = value.to_string();
    assert_eq!(fixed(&text), value, "written as {text}");
}

#[test]
fn fixed6_parse_errors() {
    assert_eq!(parse_fixed6("1e").unwrap_err(), "invalid decimal exponent");
    assert_eq!(parse_fixed6("1e+").unwrap_err(), "invalid decimal exponent");
    assert_eq!(parse_fixed6("1e99999999999").unwrap_err(), "invalid decimal exponent");
    assert_eq!(parse_fixed6("").unwrap_err(), "invalid decimal");
    assert_eq!(parse_fixed6("-").unwrap_err(), "invalid decimal");
    assert_eq!(parse_fixed6(".").unwrap_err(), "invalid decimal");
    assert_eq!(parse_fixed6("1.2.3").unwrap_err(), "invalid decimal");
    assert_eq!(parse_fixed6("1x").unwrap_err(), "invalid decimal");
    assert_eq!(parse_fixed6("9223372036854.775808").unwrap_err(), "fixed6 overflow");
    assert_eq!(parse_fixed6("1e40").unwrap_err(), "fixed6 overflow");
    assert_eq!(parse_fixed6("1e13").unwrap_err(), "fixed6 overflow");
    assert_eq!(parse_fixed6("1.5e-6").unwrap_err(), "more than six decimals");
    assert_eq!(
        parse_fixed6("123456789012345678901234567890123456789012").unwrap_err(),
        "fixed6 overflow"
    );
}

#[test]
fn fixed6_parse_edge_values() {
    assert_eq!(fixed("0").raw(), 0);
    assert_eq!(fixed("-0").raw(), 0);
    assert_eq!(fixed("0e999999").raw(), 0);
    assert_eq!(fixed("000.000").raw(), 0);
    assert_eq!(fixed("5.").raw(), 5_000_000);
    assert_eq!(fixed(".5").raw(), 500_000);
    assert_eq!(fixed("1E+2").raw(), 100_000_000);
    assert_eq!(fixed("-9223372036854.775808").raw(), i64::MIN);
    assert_eq!(fixed("9223372036854.775807").raw(), i64::MAX);
    assert_eq!(fixed("10000000e-7").raw(), 1_000_000);
    assert_eq!(fixed("2.50000000").raw(), 2_500_000);
}

#[test]
fn fixed6_text_is_shortest() {
    assert_eq!(Fixed6::zero().to_string(), "0");
    assert_eq!(fixed("1").to_string(), "1");
    assert_eq!(fixed("-2.5").to_string(), "-2.5");
    assert_eq!(fixed("0.000001").to_string(), "0.000001");
    assert_eq!(fixed("-0.12").to_string(), "-0.12");
    assert_eq!(fixed("123.456789").to_string(), "123.456789");
    assert_eq!(fixed("9223372036854.775807").to_string(), "9223372036854.775807");
}

#[test]
fn fixed6_text_reads_back() {
    for text in ["0", "1", "-1", "0.5", "-0.000001", "12.34", "9223372036854.775807", "-9223372036854.775807"] {
        let value = fixed(text);
        assert_eq!(fixed(&value.to_string()), value, "{text}");
    }
}

#[test]
fn fixed6_multiplication_rounds_half_away_from_zero() {
    let half = fixed("0.5");
    assert_eq!(fixed("0.000001").checked_mul(half).unwrap().raw(), 1);
    assert_eq!(fixed("-0.000001").checked_mul(half).unwrap().raw(), -1);
    assert_eq!(fixed("0.000001").checked_mul(fixed("0.4")).unwrap().raw(), 0);
    assert_eq!(fixed("1.5").checked_mul(fixed("-2")).unwrap().raw(), -3_000_000);
    assert_eq!(fixed("0.333333").checked_mul(fixed("3")).unwrap().raw(), 999_999);
    assert_eq!(fixed("0.000003").checked_mul(fixed("0.5")).unwrap().raw(), 2);
    assert!(fixed("9223372036854").checked_mul(fixed("2")).is_none());
    assert!(fixed("-9223372036854.775808").checked_mul(fixed("-1")).is_none());
    assert_eq!(
        fixed("-9223372036854.775808").checked_mul(fixed("1")).unwrap().raw(),
        i64::MIN
    );
}

#[test]
fn fixed6_addition_and_zero() {
    assert_eq!(fixed("1.5").checked_add(fixed("-0.5")).unwrap().raw(), 1_000_000);
    assert!(fixed("9223372036854.775807").checked_add(fixed("0.000001")).is_none());
    assert!(Fixed6::zero().is_zero());
    assert!(!fixed("0.000001").is_zero());
}

#[test]
fn powers_of_ten_stop_at_overflow() {
    assert_eq!(checked_pow10(0), Some(1));
    assert_eq!(checked_pow10(6), Some(1_000_000));
    assert_eq!(checked_pow10(38), Some(10i128.pow(38)));
    assert_eq!(checked_pow10(39), None);
    assert_eq!(checked_pow10(4_000_000_000), None);
}

#[test]
fn fixed6_far_negative_exponents_are_too_precise() {
    for text in ["1e-2147483648", "5e-2147483000", "0.1e-2147483648"] {
        assert_eq!(parse_fixed6(text).unwrap_err(), "more than six decimals", "{text}");
    }
    assert_eq!(fixed("0e-2147483648").raw(), 0);
    assert_eq!(fixed("1000000e-6").raw(), 1_000_000);
}

#[test]
fn fixed6_text_is_canonical() {
    for text in ["0", "-0.5", "10", "-10", "0.000010", "3.140000"] {
        let out = fixed(text).to_string();
        assert_ne!(out, "-0");
        assert_eq!(out.starts_with('-'), fixed(text).raw() < 0);
        if out.contains('.') {
            assert!(!out.ends_with('0'), "{out}");
        }
    }
}
