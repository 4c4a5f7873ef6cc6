use genann_rs::decimal::{decimal_string, parse_numeral, push_decimal, NumeralError};
use genann_rs::tokens::word_ranges;

fn parse(s: &str) -> Result<usize, NumeralError> {
    parse_numeral(s.as_bytes(), 0, s.len())
}

#[test]
fn decimal_numerals_print_like_format() {
    for n in [0usize, 7, 10, 99, 100, 12345, 1 << 40, usize::MAX] {
        assert_eq!(decimal_string(n), format!("{}", n));
    }
    let mut s = String::from("x=");
    push_decimal(&mut s, 305);
    assert_eq!(s, "x=305");
}

#[test]
fn numerals_parse_like_the_standard_parser() {
    assert_eq!(parse("0"), Ok(0));
    assert_eq!(parse("42"), Ok(42));
    assert_eq!(parse("+42"), Ok(42));
    assert_eq!(parse("0042"), Ok(42));
    assert_eq!(parse(""), Err(NumeralError::Empty));
    assert_eq!(parse("+"), Err(NumeralError::InvalidDigit));
    assert_eq!(parse("-"), Err(NumeralError::InvalidDigit));
    assert_eq!(parse("-1"), Err(NumeralError::InvalidDigit));
    assert_eq!(parse("4 2"), Err(NumeralError::InvalidDigit));
    assert_eq!(parse("++1"), Err(NumeralError::InvalidDigit));
    let max = format!("{}", usize::MAX);
    assert_eq!(parse(&max), Ok(usize::MAX));
    let over = format!("{}0", usize::MAX);
    assert_eq!(parse(&over), Err(NumeralError::Overflow));
    assert_eq!(parse(&format!("{}x", over)), Err(NumeralError::Overflow));
    for s in ["0", "1", "+5", "-5", "12a", "a12", "99999999999999999999999", "+", "", "00"] {
        assert_eq!(parse(s).ok(), s.parse::<usize>().ok(), "{:?}", s);
    }
    // Part of a buffer.
    assert_eq!(parse_numeral(b"ab123cd", 2, 5), Ok(123));
}

fn words_of(s: &str) -> Vec<&str> {
    word_ranges(s).into_iter().map(|(a, b)| &s[a..b]).collect()
}

#[test]
fn words_split_like_split_whitespace() {
    assert_eq!(word_ranges("  a bc\t d\n"), vec![(2, 3), (4, 6), (8, 9)]);
    assert_eq!(word_ranges(""), vec![]);
    assert_eq!(word_ranges(" \n\t "), vec![]);
    let samples = [
        "2 1 2 1\n",
        "1.0 2.0",
        "a\u{00A0}b\u{3000}c",
        "x\u{200B}y",
        "\u{2028}p\u{2029}q\u{205F}r\u{202F}s\u{1680}t\u{0085}u",
        "α β\u{2000}γ\u{200A}δ",
        "\u{000B}\u{000C}\r tail",
        "é\u{00A0}",
    ];
    for s in samples {
        assert_eq!(words_of(s), s.split_whitespace().collect::<Vec<_>>(), "{:?}", s);
    }
}
