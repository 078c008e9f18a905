use calculator::errors::{
    CalcError, DIVISION_BY_ZERO_ERROR, MALFORMED_EXPRESSION_ERROR, MISMATCHED_PARENTHESES_ERROR,
    NON_NUMERIC_ERROR, NUMERIC_OVERFLOW_ERROR,
};
use calculator::math_input::{evaluate_expression, DataView, MathInputImpl};

fn create_input() -> MathInputImpl {
    MathInputImpl::new(DataView { output: String::new() })
}

fn shown_for(expr: &str) -> String {
    let mut input = create_input();
    input.calculate(expr);
    input.data_view().output.clone()
}

fn is_number_text(text: &str) -> bool {
    text.parse::<i32>().is_ok()
}

#[test]
fn sum_two_numbers() {
    let mut input = create_input();

    input.calculate("1 + 2");

    assert_eq!("3", input.data_view().output);
}

#[test]
fn minus_two_numbers() {
    let mut input = create_input();

    input.calculate("1 - 2");

    assert_eq!("-1", input.data_view().output);
}

#[test]
fn multiply_two_numbers() {
    let mut input = create_input();

    input.calculate("2 * 3");

    assert_eq!("6", input.data_view().output);
}

#[test]
fn divide_two_numbers() {
    let mut input = create_input();

    input.calculate("2 / 2");

    assert_eq!("1", input.data_view().output);
}

#[test]
fn output_contains_error_message_when_expression_contains_non_numeric_chars() {
    let mut input = create_input();

    input.calculate("a + 2");

    assert!(input.data_view().output.contains(NON_NUMERIC_ERROR));
}

#[test]
fn new_engine_shows_what_it_was_given() {
    let input = MathInputImpl::new(DataView { output: String::from("ready") });
    assert_eq!("ready", input.output());
    assert_eq!("ready", input.data_view().output);
}

#[test]
fn binary_expressions_have_the_value_of_their_operator() {
    let values: [i32; 9] = [0, 1, 2, 3, 7, 10, 99, 46340, 46341];
    for &a in values.iter() {
        for &b in values.iter() {
            assert_eq!(shown_for(&format!("{} + {}", a, b)), (a + b).to_string());
            assert_eq!(shown_for(&format!("{} - {}", a, b)), (a - b).to_string());
            match a.checked_mul(b) {
                Some(product) => {
                    assert_eq!(shown_for(&format!("{} * {}", a, b)), product.to_string())
                }
                None => assert_eq!(shown_for(&format!("{} * {}", a, b)), NUMERIC_OVERFLOW_ERROR),
            }
            if b != 0 {
                assert_eq!(shown_for(&format!("{} / {}", a, b)), (a / b).to_string());
            } else {
                assert_eq!(shown_for(&format!("{} / {}", a, b)), DIVISION_BY_ZERO_ERROR);
            }
        }
    }
}

#[test]
fn largest_operands_are_read() {
    assert_eq!(shown_for("2147483647 - 0"), "2147483647");
    assert_eq!(shown_for("0 - 2147483647"), "-2147483647");
    assert_eq!(shown_for("0 - 2147483647 - 1"), "-2147483648");
    assert_eq!(shown_for("2147483647 / 2147483647"), "1");
    assert_eq!(shown_for("7 / 2"), "3");
    assert_eq!(shown_for("(0 - 7) / 2"), "-3");
    assert_eq!(shown_for("7 / (0 - 2)"), "-3");
    assert_eq!(shown_for("(0 - 7) / (0 - 2)"), "3");
}

#[test]
fn multiplication_binds_tighter_than_addition() {
    assert_eq!(shown_for("2 + 3 * 4"), "14");
    assert_eq!(evaluate_expression("2 + 3 * 4"), Ok(14));
    assert_eq!(shown_for("2 * 3 + 4"), "10");
    assert_eq!(shown_for("8 - 6 / 2"), "5");
}

#[test]
fn parentheses_override_precedence() {
    assert_eq!(shown_for("(2 + 3) * 4"), "20");
    assert_eq!(evaluate_expression("(2 + 3) * 4"), Ok(20));
    assert_eq!(shown_for("2 * (3 + 4)"), "14");
    assert_eq!(shown_for("((7))"), "7");
}

#[test]
fn equal_precedence_applies_from_the_left() {
    assert_eq!(shown_for("10 - 3 - 2"), "5");
    assert_ne!(shown_for("10 - 3 - 2"), "9");
    assert_eq!(shown_for("100 / 10 / 5"), "2");
    assert_eq!(shown_for("100 / 10 * 5"), "50");
    assert_eq!(shown_for("10 - 3 + 2"), "9");
}

#[test]
fn nested_parentheses() {
    assert_eq!(shown_for("25 + (3 * 6) / (2 + 1)"), "31");
    assert_eq!(shown_for("((1 + 2) * (3 + 4)) - (5 * (6 - 4))"), "11");
}

#[test]
fn spaces_are_optional() {
    assert_eq!(shown_for("1+2"), "3");
    assert_eq!(shown_for("  25+( 3*6 )/(2+1)  "), "31");
    assert_eq!(shown_for("\t4\n*\u{a0}5\u{3000}"), "20");
}

#[test]
fn non_numeric_token_is_reported() {
    let shown = shown_for("a + 2");
    assert_eq!(shown, NON_NUMERIC_ERROR);
    assert_eq!(shown, "non-numeric value in expression");
    assert!(!is_number_text(&shown));
    assert_eq!(evaluate_expression("a + 2"), Err(CalcError::UnrecognizedToken));
    assert_eq!(evaluate_expression("2 + 1x"), Err(CalcError::UnrecognizedToken));
    assert_eq!(evaluate_expression("2 + 3.5"), Err(CalcError::UnrecognizedToken));
    assert_eq!(evaluate_expression("2 % 3"), Err(CalcError::UnrecognizedToken));
}

#[test]
fn operand_too_large_for_32_bits_is_not_a_number() {
    assert_eq!(evaluate_expression("2147483648 - 1"), Err(CalcError::UnrecognizedToken));
    assert_eq!(evaluate_expression("99999999999999999999999 + 1"), Err(CalcError::UnrecognizedToken));
    assert_eq!(evaluate_expression("0000000000000000000000012 + 1"), Ok(13));
}

#[test]
fn division_by_zero_is_reported() {
    let shown = shown_for("5 / 0");
    assert_eq!(shown, DIVISION_BY_ZERO_ERROR);
    assert!(!is_number_text(&shown));
    assert_eq!(evaluate_expression("5 / 0"), Err(CalcError::DivisionByZero));
    assert_eq!(evaluate_expression("5 / (3 - 3)"), Err(CalcError::DivisionByZero));
    assert_eq!(evaluate_expression("0 / 0"), Err(CalcError::DivisionByZero));
}

#[test]
fn unmatched_parenthesis_is_reported() {
    let shown = shown_for("(1 + 2");
    assert_eq!(shown, MISMATCHED_PARENTHESES_ERROR);
    assert!(!is_number_text(&shown));
    assert_eq!(evaluate_expression("(1 + 2"), Err(CalcError::MismatchedParentheses));
    assert_eq!(evaluate_expression("1 + 2)"), Err(CalcError::MismatchedParentheses));
    assert_eq!(evaluate_expression(")1 + 2("), Err(CalcError::MismatchedParentheses));
    assert_eq!(evaluate_expression("((1 + 2)"), Err(CalcError::MismatchedParentheses));
    assert_eq!(evaluate_expression("(a + 2"), Err(CalcError::MismatchedParentheses));
}

#[test]
fn overflow_is_reported() {
    assert_eq!(shown_for("2147483647 + 1"), NUMERIC_OVERFLOW_ERROR);
    assert_eq!(evaluate_expression("2147483647 + 1"), Err(CalcError::NumericOverflow));
    assert_eq!(evaluate_expression("0 - 2147483647 - 2"), Err(CalcError::NumericOverflow));
    assert_eq!(evaluate_expression("65536 * 32768"), Err(CalcError::NumericOverflow));
    assert_eq!(evaluate_expression("65536 * 32767"), Ok(2147418112));
    assert_eq!(
        evaluate_expression("(0 - 2147483647 - 1) / (0 - 1)"),
        Err(CalcError::NumericOverflow)
    );
}

#[test]
fn malformed_expression_is_reported() {
    assert_eq!(shown_for("1 +"), MALFORMED_EXPRESSION_ERROR);
    assert_eq!(evaluate_expression("1 +"), Err(CalcError::MalformedExpression));
    assert_eq!(evaluate_expression("+ 1"), Err(CalcError::MalformedExpression));
    assert_eq!(evaluate_expression("1 2"), Err(CalcError::MalformedExpression));
    assert_eq!(evaluate_expression(""), Err(CalcError::MalformedExpression));
    assert_eq!(evaluate_expression("   "), Err(CalcError::MalformedExpression));
    assert_eq!(evaluate_expression("()"), Err(CalcError::MalformedExpression));
    assert_eq!(evaluate_expression("-1 + 2"), Err(CalcError::MalformedExpression));
    assert_eq!(evaluate_expression("1 * * 2"), Err(CalcError::MalformedExpression));
}

#[test]
fn first_failure_from_the_left_is_reported() {
    assert_eq!(evaluate_expression("1 / 0 + a"), Err(CalcError::DivisionByZero));
    assert_eq!(evaluate_expression("a + 1 / 0"), Err(CalcError::UnrecognizedToken));
    assert_eq!(evaluate_expression("(1 / 0) * (2147483647 + 1)"), Err(CalcError::DivisionByZero));
    assert_eq!(evaluate_expression("(2147483647 + 1) * (1 / 0)"), Err(CalcError::NumericOverflow));
}

#[test]
fn same_expression_twice_shows_the_same() {
    let mut input = create_input();
    input.calculate("25 + (3 * 6) / (2 + 1)");
    let first = input.data_view().output.clone();
    input.calculate("25 + (3 * 6) / (2 + 1)");
    assert_eq!(first, input.data_view().output);
    assert_eq!("31", input.data_view().output);

    input.calculate("5 / 0");
    let failed = input.data_view().output.clone();
    input.calculate("5 / 0");
    assert_eq!(failed, input.data_view().output);
}

#[test]
fn earlier_calculations_leave_no_trace() {
    let mut input = create_input();
    input.calculate("1 + 2");
    assert_eq!("3", input.output());
    input.calculate("4 + 5");
    assert_eq!("9", input.output());
    input.calculate("a + 2");
    assert_eq!(NON_NUMERIC_ERROR, input.output());
    input.calculate("4 + 5");
    assert_eq!("9", input.output());
    assert_eq!(shown_for("4 + 5"), input.output());
}

#[test]
fn every_error_has_its_own_text() {
    let errors = [
        CalcError::MismatchedParentheses,
        CalcError::UnrecognizedToken,
        CalcError::DivisionByZero,
        CalcError::MalformedExpression,
        CalcError::NumericOverflow,
    ];
    let texts = [
        MISMATCHED_PARENTHESES_ERROR,
        NON_NUMERIC_ERROR,
        DIVISION_BY_ZERO_ERROR,
        MALFORMED_EXPRESSION_ERROR,
        NUMERIC_OVERFLOW_ERROR,
    ];
    for i in 0..errors.len() {
        assert_eq!(errors[i].message(), texts[i]);
        assert!(!is_number_text(texts[i]));
        assert!(texts[i].chars().next().unwrap().is_ascii_lowercase());
        for j in 0..errors.len() {
            if i != j {
                assert_ne!(texts[i], texts[j]);
            }
        }
    }
}

fn next_random(seed: &mut u64) -> u64 {
    *seed = seed.wrapping_mul(6364136223846793005).wrapping_add(1442695040888963407);
    *seed >> 33
}

fn apply_checked(symbol: char, first: i32, second: i32) -> Result<i32, CalcError> {
    let value = match symbol {
        '+' => first.checked_add(second),
        '-' => first.checked_sub(second),
        '*' => first.checked_mul(second),
        _ => {
            if second == 0 {
                return Err(CalcError::DivisionByZero);
            }
            first.checked_div(second)
        }
    };
    value.ok_or(CalcError::NumericOverflow)
}

fn random_expression(seed: &mut u64, depth: u32) -> (String, Result<i32, CalcError>, u8) {
    if depth == 0 || next_random(seed) % 4 == 0 {
        let n = (next_random(seed) % 60000) as i32;
        return (n.to_string(), Ok(n), 3);
    }
    let (symbol, level) = match next_random(seed) % 4 {
        0 => ('+', 1u8),
        1 => ('-', 1u8),
        2 => ('*', 2u8),
        _ => ('/', 2u8),
    };
    let (left_text, left_value, left_level) = random_expression(seed, depth - 1);
    let (right_text, right_value, right_level) = random_expression(seed, depth - 1);
    let left_text = if left_level < level || next_random(seed) % 5 == 0 {
        format!("({})", left_text)
    } else {
        left_text
    };
    let right_text = if right_level <= level || next_random(seed) % 5 == 0 {
        format!("( {} )", right_text)
    } else {
        right_text
    };
    let value = match (left_value, right_value) {
        (Err(e), _) => Err(e),
        (Ok(_), Err(e)) => Err(e),
        (Ok(first), Ok(second)) => apply_checked(symbol, first, second),
    };
    let text = if next_random(seed) % 2 == 0 {
        format!("{} {} {}", left_text, symbol, right_text)
    } else {
        format!("{}{}{}", left_text, symbol, right_text)
    };
    (text, value, level)
}

#[test]
fn expressions_have_the_value_of_their_tree() {
    let mut seed: u64 = 20;
    let mut values = 0;
    let mut failures = 0;
    for round in 0..3000 {
        let (text, value, _) = random_expression(&mut seed, 1 + round % 5);
        assert_eq!(evaluate_expression(&text), value, "{}", text);
        let shown = match value {
            Ok(v) => {
                values += 1;
                v.to_string()
            }
            Err(e) => {
                failures += 1;
                String::from(e.message())
            }
        };
        assert_eq!(shown_for(&text), shown, "{}", text);
    }
    assert!(values > 100);
    assert!(failures > 100);
}
