use aicheck::amount::{parse_amount, render_amount, FRACTION_DIGITS, UNIT};

#[test]
fn whole_numbers_are_scaled_to_billionths() {
    assert_eq!(parse_amount("10"), Some(10_000_000_000));
    assert_eq!(parse_amount("0"), Some(0));
    assert_eq!(parse_amount("007"), Some(7_000_000_000));
    assert_eq!(parse_amount("1"), Some(UNIT));
}

#[test]
fn fractions_keep_nine_digits() {
    assert_eq!(FRACTION_DIGITS, 9);
    assert_eq!(parse_amount("0.5"), Some(500_000_000));
    assert_eq!(parse_amount("13.25"), Some(13_250_000_000));
    assert_eq!(parse_amount("110.00"), Some(110_000_000_000));
    assert_eq!(parse_amount("0.000000001"), Some(1));
    assert_eq!(parse_amount("0.123456789"), Some(123_456_789));
}

#[test]
fn digits_past_the_ninth_are_dropped() {
    assert_eq!(parse_amount("0.0000000019"), Some(1));
    assert_eq!(parse_amount("0.0000000009"), Some(1));
    assert_eq!(parse_amount("0.0000000010"), Some(1));
    assert_eq!(parse_amount("0.0000000000"), Some(0));
    assert_eq!(parse_amount("2.9999999999"), Some(2_999_999_999));
}

#[test]
fn a_point_may_stand_at_either_end() {
    assert_eq!(parse_amount(".5"), Some(500_000_000));
    assert_eq!(parse_amount("7."), Some(7_000_000_000));
    assert_eq!(parse_amount("+3"), Some(3_000_000_000));
    assert_eq!(parse_amount("+.25"), Some(250_000_000));
}

#[test]
fn what_is_no_amount_is_refused() {
    assert_eq!(parse_amount(""), None);
    assert_eq!(parse_amount("."), None);
    assert_eq!(parse_amount("+"), None);
    assert_eq!(parse_amount("+."), None);
    assert_eq!(parse_amount("abc"), None);
    assert_eq!(parse_amount("-5"), None);
    assert_eq!(parse_amount("-0"), None);
    assert_eq!(parse_amount("1.2.3"), None);
    assert_eq!(parse_amount(" 1"), None);
    assert_eq!(parse_amount("1 "), None);
    assert_eq!(parse_amount("12a"), None);
    assert_eq!(parse_amount("1.5x"), None);
    assert_eq!(parse_amount("++1"), None);
    assert_eq!(parse_amount("inf"), None);
    assert_eq!(parse_amount("NaN"), None);
    assert_eq!(parse_amount("\u{663}"), None);
}

#[test]
fn amounts_fill_sixty_four_bits_and_no_more() {
    assert_eq!(parse_amount("18446744073.709551614"), Some(u64::MAX - 1));
    assert_eq!(parse_amount("18446744073.709551615"), Some(u64::MAX));
    assert_eq!(parse_amount("18446744073.709551616"), Some(u64::MAX));
    assert_eq!(parse_amount("18446744074"), Some(u64::MAX));
    assert_eq!(parse_amount("99999999999999999999999999999999"), Some(u64::MAX));
    assert_eq!(parse_amount("99999999999999999999999999999999.5"), Some(u64::MAX));
    assert_eq!(parse_amount("00000000000000000000000000000001"), Some(UNIT));
}

#[test]
fn what_is_more_than_nothing_is_never_held_as_nothing() {
    assert_eq!(parse_amount("0.00000000000000000000000000000000000001"), Some(1));
    assert_eq!(parse_amount(".0000000001"), Some(1));
    assert_eq!(parse_amount("+0.00000000099"), Some(1));
    assert_eq!(parse_amount("0.000000001999"), Some(1));
    assert_eq!(parse_amount("0.000000002"), Some(2));
    assert_eq!(parse_amount("0"), Some(0));
    assert_eq!(parse_amount("0.0"), Some(0));
    assert_eq!(parse_amount("000.000000000000000000000"), Some(0));
    assert_eq!(parse_amount("0."), Some(0));
    assert_eq!(parse_amount(".0"), Some(0));
}

#[test]
fn amounts_are_written_without_needless_zeros() {
    assert_eq!(render_amount(0), "0");
    assert_eq!(render_amount(10_000_000_000), "10");
    assert_eq!(render_amount(500_000_000), "0.5");
    assert_eq!(render_amount(13_250_000_000), "13.25");
    assert_eq!(render_amount(1), "0.000000001");
    assert_eq!(render_amount(1_000_000_010), "1.00000001");
    assert_eq!(render_amount(123_456_789_123_456_789), "123456789.123456789");
    assert_eq!(render_amount(u128::MAX), "340282366920938463463374607431.768211455");
}

#[test]
fn an_amount_written_reads_back() {
    for v in [0u64, 1, 9, 10, 999_999_999, 1_000_000_000, 13_250_000_000, u64::MAX] {
        assert_eq!(parse_amount(&render_amount(v as u128)), Some(v));
    }
}

#[test]
fn numbers_are_pushed_digit_by_digit() {
    let mut out = vec!['#'];
    aicheck::amount::push_number(&mut out, 0);
    aicheck::amount::push_number(&mut out, 90210);
    assert_eq!(out, vec!['#', '0', '9', '0', '2', '1', '0']);
    let mut out = Vec::new();
    aicheck::amount::push_amount(&mut out, 1_500_000_000);
    aicheck::amount::push_amount(&mut out, 2);
    assert_eq!(out.iter().collect::<String>(), "1.50.000000002");
}

#[test]
fn an_exponent_moves_the_point() {
    assert_eq!(parse_amount("1e3"), Some(1_000_000_000_000));
    assert_eq!(parse_amount("1E3"), Some(1_000_000_000_000));
    assert_eq!(parse_amount("1e+3"), Some(1_000_000_000_000));
    assert_eq!(parse_amount("1e0"), Some(UNIT));
    assert_eq!(parse_amount("1e-0"), Some(UNIT));
    assert_eq!(parse_amount("25e-1"), Some(2_500_000_000));
    assert_eq!(parse_amount("2.5e1"), Some(25_000_000_000));
    assert_eq!(parse_amount(".75E+1"), Some(7_500_000_000));
    assert_eq!(parse_amount("1.e2"), Some(100_000_000_000));
    assert_eq!(parse_amount("+1.5e-3"), Some(1_500_000));
    assert_eq!(parse_amount("123456789e-9"), Some(123_456_789));
    assert_eq!(parse_amount("123456789e-18"), Some(1));
    assert_eq!(parse_amount("1e-9"), Some(1));
    assert_eq!(parse_amount("19e-10"), Some(1));
    assert_eq!(parse_amount("21e-10"), Some(2));
    assert_eq!(parse_amount("1e-10"), Some(1));
    assert_eq!(parse_amount("1e-400"), Some(1));
    assert_eq!(parse_amount("0e5"), Some(0));
    assert_eq!(parse_amount("0.000e-5"), Some(0));
    assert_eq!(parse_amount("0e99999999999999999999999999999999999999999"), Some(0));
    assert_eq!(parse_amount("0.00001e5"), Some(UNIT));
    assert_eq!(parse_amount("1.8446744073709551615e10"), Some(u64::MAX));
    assert_eq!(parse_amount("1.8446744073709551614e10"), Some(u64::MAX - 1));
    assert_eq!(parse_amount("1e10"), Some(10_000_000_000_000_000_000));
    assert_eq!(parse_amount("1e11"), Some(u64::MAX));
    assert_eq!(parse_amount("1e308"), Some(u64::MAX));
    assert_eq!(parse_amount("1e99999999999999999999999999999999999999999"), Some(u64::MAX));
    assert_eq!(parse_amount("1e-99999999999999999999999999999999999999999"), Some(1));
    assert_eq!(parse_amount("0.0000000000000000000000000000001e31"), Some(UNIT));
}

#[test]
fn a_broken_exponent_is_no_amount() {
    for text in ["e5", "1e", "1e+", "1e-", "1e5.0", "1e5e5", "1ee5", "1e 5", "1e+-5", "E", ".e5", "1e5x", "1x5", "-1e5"] {
        assert_eq!(parse_amount(text), None, "{:?}", text);
    }
}

#[test]
fn what_is_above_nothing_agrees_with_floating_point() {
    for text in [
        "0", "0.0", "1", "10.00", "0.000001", "13.9876", "+5", ".5", "5.", "1e3", "1E-3", "2.5e+2", "0e0", "",
        ".", "abc", "1e", "e1", "1.2.3", " 1", "1 ", "+", "0.0000000000000001", "99999999999999999999999",
        "-5", "-0", "-1e3",
    ] {
        let float = text.parse::<f64>().unwrap_or_default() > 0.0;
        let held = parse_amount(text).unwrap_or(0) > 0;
        assert_eq!(held, float, "{:?}", text);
    }
}
