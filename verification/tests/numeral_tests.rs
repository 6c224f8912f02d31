use toymc::fixed::{parse_fixed, Fixed};
use toymc::numerals::{parse_u64, u64_to_string};

#[test]
fn u64_formatting_exact_values() {
    assert_eq!(u64_to_string(0), "0".to_owned());
    assert_eq!(u64_to_string(7), "7".to_owned());
    assert_eq!(u64_to_string(10), "10".to_owned());
    assert_eq!(u64_to_string(90210), "90210".to_owned());
    assert_eq!(u64_to_string(u64::MAX), "18446744073709551615".to_owned());
}

#[test]
fn u64_parse_accepts_exactly_canonical_numerals() {
    assert_eq!(parse_u64("0"), Some(0));
    assert_eq!(parse_u64("90210"), Some(90210));
    assert_eq!(parse_u64("18446744073709551615"), Some(u64::MAX));
    assert_eq!(parse_u64(""), None);
    assert_eq!(parse_u64("007"), None);
    assert_eq!(parse_u64("-1"), None);
    assert_eq!(parse_u64("1 2"), None);
    assert_eq!(parse_u64("12a"), None);
    // one past the largest representable value
    assert_eq!(parse_u64("18446744073709551616"), None);
    assert_eq!(parse_u64("99999999999999999999999"), None);
}

#[test]
fn u64_round_trip() {
    for n in [0u64, 1, 9, 10, 99, 100, 123456789, u64::MAX - 1, u64::MAX] {
        assert_eq!(parse_u64(&u64_to_string(n)), Some(n));
    }
}

#[test]
fn fixed_formatting_exact_values() {
    assert_eq!(Fixed { scaled: 0, decimals: 0 }.to_text(), "0".to_owned());
    assert_eq!(Fixed { scaled: 0, decimals: 2 }.to_text(), "0.00".to_owned());
    assert_eq!(Fixed { scaled: 5, decimals: 2 }.to_text(), "0.05".to_owned());
    assert_eq!(Fixed { scaled: 456, decimals: 2 }.to_text(), "4.56".to_owned());
    assert_eq!(Fixed { scaled: 450, decimals: 2 }.to_text(), "4.50".to_owned());
    assert_eq!(Fixed { scaled: -456, decimals: 2 }.to_text(), "-4.56".to_owned());
    assert_eq!(Fixed { scaled: 123, decimals: 0 }.to_text(), "123".to_owned());
    assert_eq!(
        Fixed { scaled: i64::MIN, decimals: 0 }.to_text(),
        "-9223372036854775808".to_owned(),
    );
    assert_eq!(
        Fixed { scaled: i64::MAX, decimals: 18 }.to_text(),
        "9.223372036854775807".to_owned(),
    );
}

#[test]
fn fixed_round_trip() {
    let cases = [
        Fixed { scaled: 0, decimals: 0 },
        Fixed { scaled: 0, decimals: 3 },
        Fixed { scaled: 5, decimals: 2 },
        Fixed { scaled: -5, decimals: 2 },
        Fixed { scaled: 450, decimals: 1 },
        Fixed { scaled: i64::MIN, decimals: 0 },
        Fixed { scaled: i64::MIN, decimals: 18 },
        Fixed { scaled: i64::MAX, decimals: 18 },
    ];
    for f in cases {
        assert_eq!(parse_fixed(&f.to_text()), Some(f));
    }
}

#[test]
fn fixed_parse_rejects_non_canonical_text() {
    assert_eq!(parse_fixed(""), None);
    assert_eq!(parse_fixed("-"), None);
    assert_eq!(parse_fixed("-0"), None);
    assert_eq!(parse_fixed("-0.00"), None);
    assert_eq!(parse_fixed("+4"), None);
    assert_eq!(parse_fixed("4."), None);
    assert_eq!(parse_fixed(".5"), None);
    assert_eq!(parse_fixed("00.5"), None);
    assert_eq!(parse_fixed("4..5"), None);
    assert_eq!(parse_fixed("4.5.6"), None);
    assert_eq!(parse_fixed("4a"), None);
    // more fractional digits than the precision cap admits
    assert_eq!(parse_fixed("0.0000000000000000000"), None);
    // one past the largest representable magnitude
    assert_eq!(parse_fixed("9223372036854775808"), None);
    assert_eq!(parse_fixed("-9223372036854775809"), None);
}

#[test]
fn fixed_parse_accepts_extremes() {
    assert_eq!(
        parse_fixed("-9223372036854775808"),
        Some(Fixed { scaled: i64::MIN, decimals: 0 }),
    );
    assert_eq!(
        parse_fixed("9223372036854775807"),
        Some(Fixed { scaled: i64::MAX, decimals: 0 }),
    );
    assert_eq!(parse_fixed("0.05"), Some(Fixed { scaled: 5, decimals: 2 }));
}
