use calculator::converter::{convert_infix_to_postfix, postfix_chars};
use calculator::errors::CalcError;

fn postfix(expr: &str) -> String {
    convert_infix_to_postfix(expr).unwrap()
}

#[test]
fn operands_come_before_their_operator() {
    assert_eq!(postfix("1 + 2"), "1 2 +");
    assert_eq!(postfix("1 - 2"), "1 2 -");
    assert_eq!(postfix("2 * 3"), "2 3 *");
    assert_eq!(postfix("2 / 2"), "2 2 /");
}

#[test]
fn tighter_operators_are_emitted_first() {
    assert_eq!(postfix("2 + 3 * 4"), "2 3 4 * +");
    assert_eq!(postfix("2 * 3 + 4"), "2 3 * 4 +");
    assert_eq!(postfix("1 + 2 * 3 - 4 / 5"), "1 2 3 * + 4 5 / -");
}

#[test]
fn equal_operators_are_emitted_from_the_left() {
    assert_eq!(postfix("10 - 3 - 2"), "10 3 - 2 -");
    assert_eq!(postfix("8 / 4 * 2"), "8 4 / 2 *");
    assert_eq!(postfix("1 + 2 - 3 + 4"), "1 2 + 3 - 4 +");
}

#[test]
fn parentheses_group_and_disappear() {
    assert_eq!(postfix("(2 + 3) * 4"), "2 3 + 4 *");
    assert_eq!(postfix("25 + (3 * 6) / (2 + 1)"), "25 3 6 * 2 1 + / +");
    assert_eq!(postfix("((1))"), "1");
    assert_eq!(postfix("()"), "");
}

#[test]
fn operands_are_kept_as_written() {
    assert_eq!(postfix("007 + a1"), "007 a1 +");
    assert_eq!(postfix("x"), "x");
    assert_eq!(postfix("3.5*\u{e9}t\u{e9}"), "3.5 \u{e9}t\u{e9} *");
    assert_eq!(postfix("12(34)56"), "12 34 56");
}

#[test]
fn white_space_only_separates() {
    assert_eq!(postfix(""), "");
    assert_eq!(postfix(" \t\n"), "");
    assert_eq!(postfix("1+2"), "1 2 +");
    assert_eq!(postfix("  1   +\t2\n"), "1 2 +");
    assert_eq!(postfix("1\u{2003}2"), "1 2");
}

#[test]
fn any_arrangement_of_operators_is_converted() {
    assert_eq!(postfix("+"), "+");
    assert_eq!(postfix("1 +"), "1 +");
    assert_eq!(postfix("+ 1"), "1 +");
    assert_eq!(postfix("-1 + 2"), "1 - 2 +");
    assert_eq!(postfix("1 * * 2"), "1 * 2 *");
    assert_eq!(postfix("1 2 3"), "1 2 3");
}

#[test]
fn closing_parenthesis_without_opening_one_fails() {
    assert_eq!(convert_infix_to_postfix("1 + 2)"), Err(CalcError::MismatchedParentheses));
    assert_eq!(convert_infix_to_postfix(")"), Err(CalcError::MismatchedParentheses));
    assert_eq!(convert_infix_to_postfix("(1))"), Err(CalcError::MismatchedParentheses));
    assert_eq!(convert_infix_to_postfix(")("), Err(CalcError::MismatchedParentheses));
}

#[test]
fn opening_parenthesis_without_closing_one_fails() {
    assert_eq!(convert_infix_to_postfix("(1 + 2"), Err(CalcError::MismatchedParentheses));
    assert_eq!(convert_infix_to_postfix("("), Err(CalcError::MismatchedParentheses));
    assert_eq!(convert_infix_to_postfix("((1)"), Err(CalcError::MismatchedParentheses));
    assert_eq!(convert_infix_to_postfix("1 * (2 + (3 - 4)"), Err(CalcError::MismatchedParentheses));
}

#[test]
fn conversion_of_characters_agrees_with_conversion_of_text() {
    let exprs = ["25 + (3 * 6) / (2 + 1)", "a+b*c", "(1", "", "1 2"];
    for expr in exprs.iter() {
        let chars: Vec<char> = expr.chars().collect();
        let from_chars = postfix_chars(&chars).map(|out| out.into_iter().collect::<String>());
        assert_eq!(from_chars, convert_infix_to_postfix(expr));
    }
}

#[test]
fn every_operator_is_emitted_once() {
    let expr = "1 + 2 * (3 - 4) / 5 + (6 * 7 - 8)";
    let out = postfix(expr);
    for symbol in ['+', '-', '*', '/'] {
        let written = expr.chars().filter(|c| *c == symbol).count();
        let emitted = out.chars().filter(|c| *c == symbol).count();
        assert_eq!(written, emitted);
    }
    assert!(!out.contains('('));
    assert!(!out.contains(')'));
    let operands: Vec<&str> =
        out.split(' ').filter(|word| word.parse::<i32>().is_ok()).collect();
    assert_eq!(operands, vec!["1", "2", "3", "4", "5", "6", "7", "8"]);
}
