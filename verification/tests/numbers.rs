use calculator::chars::{
    char_digit_value, char_is_digit, char_is_space, digit_to_char, to_chars, to_text,
};
use calculator::number::{format_number, is_numeric, parse_number};
use calculator::token::{char_is_symbol, word_end, Operator};

#[test]
fn white_space_is_what_the_standard_library_calls_so() {
    for code in 0..=0x10FFFFu32 {
        if let Some(c) = char::from_u32(code) {
            assert_eq!(char_is_space(c), c.is_whitespace(), "U+{:04X}", code);
        }
    }
}

#[test]
fn digits_are_the_ten_ascii_digits() {
    for code in 0..=0x10FFFFu32 {
        if let Some(c) = char::from_u32(code) {
            assert_eq!(char_is_digit(c), c.is_ascii_digit(), "U+{:04X}", code);
        }
    }
    for d in 0..=9u8 {
        let c = digit_to_char(d);
        assert_eq!(c, char::from_digit(d as u32, 10).unwrap());
        assert_eq!(char_digit_value(c), d);
    }
}

#[test]
fn text_and_characters_convert_both_ways() {
    let texts = ["", "1 + 2", "\u{e9}t\u{e9} \u{1f600}", "non-numeric"];
    for text in texts.iter() {
        let chars = to_chars(text);
        assert_eq!(chars, text.chars().collect::<Vec<char>>());
        assert_eq!(to_text(&chars), *text);
    }
}

#[test]
fn numbers_are_written_in_decimal() {
    assert_eq!(format_number(0), "0");
    assert_eq!(format_number(7), "7");
    assert_eq!(format_number(10), "10");
    assert_eq!(format_number(-1), "-1");
    assert_eq!(format_number(1000000), "1000000");
    assert_eq!(format_number(i32::MAX), "2147483647");
    assert_eq!(format_number(i32::MIN), "-2147483648");
    let mut v: i32 = -2000000000;
    while v < 2000000000 {
        assert_eq!(format_number(v), v.to_string());
        v += 9999991;
    }
}

#[test]
fn words_that_write_a_number() {
    assert!(is_numeric("0"));
    assert!(is_numeric("42"));
    assert!(is_numeric("-42"));
    assert!(is_numeric("+42"));
    assert!(is_numeric("007"));
    assert!(is_numeric("-0"));
    assert!(is_numeric("2147483647"));
    assert!(is_numeric("-2147483648"));
    assert!(is_numeric("+2147483647"));
    assert!(is_numeric("00000000000000000000000002147483647"));
}

#[test]
fn words_that_write_no_number() {
    assert!(!is_numeric(""));
    assert!(!is_numeric("+"));
    assert!(!is_numeric("-"));
    assert!(!is_numeric("*"));
    assert!(!is_numeric("a"));
    assert!(!is_numeric("1a"));
    assert!(!is_numeric("a1"));
    assert!(!is_numeric("1 "));
    assert!(!is_numeric("--1"));
    assert!(!is_numeric("1-"));
    assert!(!is_numeric("1.0"));
    assert!(!is_numeric("2147483648"));
    assert!(!is_numeric("-2147483649"));
    assert!(!is_numeric("+2147483648"));
    assert!(!is_numeric("99999999999999999999999999999"));
    assert!(!is_numeric("\u{661}"));
}

#[test]
fn reading_agrees_with_the_standard_library() {
    let words = [
        "0", "-0", "+0", "12", "-12", "+12", "2147483647", "2147483648", "-2147483648",
        "-2147483649", "4294967296", "18446744073709551616", "", "+", "-", "+-1", "1+", "x", "0x10",
        "1e3", " 1", "000", "-000123",
    ];
    for word in words.iter() {
        let chars: Vec<char> = word.chars().collect();
        assert_eq!(parse_number(&chars, 0, chars.len()), word.parse::<i32>().ok(), "{:?}", word);
        assert_eq!(is_numeric(word), word.parse::<i32>().is_ok(), "{:?}", word);
    }
}

#[test]
fn a_part_of_the_characters_is_read() {
    let chars: Vec<char> = "12+345".chars().collect();
    assert_eq!(parse_number(&chars, 0, 2), Some(12));
    assert_eq!(parse_number(&chars, 3, 6), Some(345));
    assert_eq!(parse_number(&chars, 2, 6), Some(345));
    assert_eq!(parse_number(&chars, 2, 3), None);
    assert_eq!(parse_number(&chars, 0, 6), None);
    assert_eq!(parse_number(&chars, 4, 4), None);
}

#[test]
fn written_numbers_are_read_back() {
    let values = [0, 1, -1, 9, 10, -10, 123456789, i32::MAX, i32::MIN, i32::MIN + 1];
    for &v in values.iter() {
        let text = format_number(v);
        let chars = to_chars(&text);
        assert_eq!(parse_number(&chars, 0, chars.len()), Some(v));
    }
}

#[test]
fn operators_and_their_symbols() {
    let all = [
        (Operator::Add, '+', 1u8),
        (Operator::Sub, '-', 1u8),
        (Operator::Mul, '*', 2u8),
        (Operator::Div, '/', 2u8),
    ];
    for &(op, symbol, level) in all.iter() {
        assert_eq!(op.to_char(), symbol);
        assert_eq!(Operator::from_char(symbol), Some(op));
        assert_eq!(op.binding(), level);
        assert!(char_is_symbol(symbol));
    }
    assert_eq!(Operator::from_char('('), None);
    assert_eq!(Operator::from_char('x'), None);
    assert!(char_is_symbol('('));
    assert!(char_is_symbol(')'));
    assert!(!char_is_symbol('1'));
    assert!(!char_is_symbol(' '));
    assert!(!char_is_symbol('%'));
}

#[test]
fn operand_ends_at_a_symbol_or_at_white_space() {
    let chars: Vec<char> = "12+3a b)".chars().collect();
    assert_eq!(word_end(&chars, 0), 2);
    assert_eq!(word_end(&chars, 2), 2);
    assert_eq!(word_end(&chars, 3), 5);
    assert_eq!(word_end(&chars, 6), 7);
    assert_eq!(word_end(&chars, 8), 8);
}
