use evm_bench::time::Duration;
use evm_bench::timing::{parse, read_word, split_words, ParseError};

fn micros(values: &[u64]) -> Vec<Duration> {
    values.iter().map(|v| Duration::from_micros(*v)).collect()
}

fn word(text: &str) -> Option<u64> {
    read_word(&text.chars().collect())
}

#[test]
fn parse_rounds_to_the_nearest_microsecond() {
    assert_eq!(parse("100.4 100.6 99.5"), Ok(micros(&[100, 101, 100])));
}

#[test]
fn parse_reads_one_number_per_line() {
    assert_eq!(parse("12.5\n7\n0.25\n"), Ok(micros(&[13, 7, 0])));
}

#[test]
fn parse_rejects_a_word_that_is_no_number() {
    assert_eq!(
        parse("100 abc 200"),
        Err(ParseError { position: 1, word: "abc".to_string() })
    );
}

#[test]
fn parse_names_the_first_bad_word() {
    assert_eq!(
        parse("1 2 x3 4 y5"),
        Err(ParseError { position: 2, word: "x3".to_string() })
    );
}

#[test]
fn parse_of_no_words_is_empty() {
    assert_eq!(parse(""), Ok(vec![]));
    assert_eq!(parse(" \t\r\n "), Ok(vec![]));
}

#[test]
fn parse_splits_at_any_whitespace() {
    assert_eq!(parse("1\t2\u{00A0}3\u{2003}4\u{3000}5\u{0085}6"), Ok(micros(&[1, 2, 3, 4, 5, 6])));
}

#[test]
fn split_words_keeps_the_order_of_the_words() {
    let text: Vec<char> = "  ab  c\nd ".chars().collect();
    let words: Vec<String> = split_words(&text).iter().map(|w| w.iter().collect()).collect();
    assert_eq!(words, vec!["ab", "c", "d"]);
}

#[test]
fn a_half_is_rounded_up() {
    assert_eq!(word("0.5"), Some(1));
    assert_eq!(word("0.49999999999999999999"), Some(0));
    assert_eq!(word("2.5"), Some(3));
    assert_eq!(word("99.5"), Some(100));
    assert_eq!(word("1.4999"), Some(1));
}

#[test]
fn the_point_may_stand_first_or_last() {
    assert_eq!(word(".5"), Some(1));
    assert_eq!(word(".4"), Some(0));
    assert_eq!(word("5."), Some(5));
    assert_eq!(word("."), None);
}

#[test]
fn an_exponent_moves_the_point() {
    assert_eq!(word("1e3"), Some(1000));
    assert_eq!(word("1E3"), Some(1000));
    assert_eq!(word("1.5e+2"), Some(150));
    assert_eq!(word("25e-1"), Some(3));
    assert_eq!(word("1.5e-1"), Some(0));
    assert_eq!(word("123456e-3"), Some(123));
    assert_eq!(word("0.0001e4"), Some(1));
    assert_eq!(word("1.e2"), Some(100));
    assert_eq!(word("1e"), None);
    assert_eq!(word("1e+"), None);
    assert_eq!(word("e5"), None);
    assert_eq!(word(".e5"), None);
    assert_eq!(word("1e5x"), None);
}

#[test]
fn a_long_exponent_is_no_trouble() {
    assert_eq!(word("1e99999999999999999999999999999999999999999999"), Some(u64::MAX));
    assert_eq!(word("0e99999999999999999999999999999999999999999999"), Some(0));
    assert_eq!(word("1e-99999999999999999999999999999999999999999999"), Some(0));
    assert_eq!(word("0.000e0000000000000000000000000000000000000003"), Some(0));
    assert_eq!(word("7e0000000000000000000000000000000000000000002"), Some(700));
}

#[test]
fn large_numbers_are_cut_off() {
    assert_eq!(word("18446744073709551615"), Some(u64::MAX));
    assert_eq!(word("18446744073709551614"), Some(u64::MAX - 1));
    assert_eq!(word("18446744073709551614.5"), Some(u64::MAX));
    assert_eq!(word("18446744073709551616"), Some(u64::MAX));
    assert_eq!(word("1e20"), Some(u64::MAX));
    assert_eq!(word("1e19"), Some(10_000_000_000_000_000_000));
}

#[test]
fn numbers_below_zero_are_no_durations() {
    assert_eq!(word("-5"), None);
    assert_eq!(word("-0.6"), None);
    assert_eq!(word("-0.4"), None);
    assert_eq!(word("-1e30"), None);
    assert_eq!(word("-1e-30"), None);
    assert_eq!(word("-.001"), None);
    assert_eq!(word("-000.0100"), None);
    assert_eq!(
        parse("10 -5 20"),
        Err(ParseError { position: 1, word: "-5".to_string() })
    );
}

#[test]
fn zero_may_have_either_sign() {
    assert_eq!(word("-0"), Some(0));
    assert_eq!(word("-0.0"), Some(0));
    assert_eq!(word("-.0"), Some(0));
    assert_eq!(word("-0e5"), Some(0));
    assert_eq!(word("+0"), Some(0));
    assert_eq!(word("+5"), Some(5));
    assert_eq!(word("+"), None);
    assert_eq!(word("-"), None);
    assert_eq!(word("--5"), None);
    assert_eq!(word("+-5"), None);
}

#[test]
fn values_that_are_no_finite_numbers_are_no_durations() {
    for text in [
        "nan", "NaN", "-nan", "+nan", "inf", "-inf", "+inf", "Inf", "infinity", "+Infinity",
        "INFINITY", "-infinity", "infinit", "nane",
    ] {
        assert_eq!(word(text), None, "{}", text);
    }
    assert_eq!(
        parse("1 inf 2"),
        Err(ParseError { position: 1, word: "inf".to_string() })
    );
}

#[test]
fn other_notations_are_no_numbers() {
    assert_eq!(word(""), None);
    assert_eq!(word("0x10"), None);
    assert_eq!(word("1_000"), None);
    assert_eq!(word("1,5"), None);
    assert_eq!(word("1.2.3"), None);
    assert_eq!(word("١٢٣"), None);
}

#[test]
fn parse_agrees_with_the_standard_library_on_durations() {
    let words = [
        "0", "1", "0.4", "0.5", "0.6", "1.5", "2.5", "3.25", "100.4", "100.6", "99.5", "1234.5678",
        "1e3", "2.5e2", "7.", ".7", "+3.5", "-0", "-0.0", "000123.000", "4503599627370495.5",
        "1e400", "1e-400", "abc", "1.2.3", "", "e", "1e", ".",
    ];
    for text in words {
        let expected = text.parse::<f64>().ok().map(|value| value.round() as u64);
        assert_eq!(word(text), expected, "{}", text);
    }
}

#[test]
fn what_the_standard_library_reads_as_less_than_zero_or_not_finite_is_refused() {
    for text in ["-3.5", "-1", "-0.001", "-1e-400", "inf", "-inf", "nan", "-nan", "infinity"] {
        let value = text.parse::<f64>().unwrap();
        assert!(value.is_nan() || value.is_infinite() || value <= 0.0, "{}", text);
        assert_eq!(word(text), None, "{}", text);
    }
}
