//! What holds of every calculation.

use vstd::prelude::*;
use crate::chars::is_digit;
use crate::converter::{postfix_text, render};
use crate::errors::{lemma_error_text_starts_with_letter, CalcError};
use crate::evaluator::apply;
use crate::expression::{
    lemma_evaluate_postfix_expr, lemma_infix_plain, lemma_to_postfix_expr, Expr,
};
use crate::math_input::{display, outcome, shown_after};
use crate::number::{decimal, int_text, lemma_decimal_value, number_of};
use crate::text::{is_word, lemma_lex_render};
use crate::token::{is_word_char, lex, Operator, Token};

verus! {

/// A text whose tokens are those of a well-formed expression has the value
/// of that expression: operators apply to the operands that precedence,
/// association from the left and parentheses give them.
pub proof fn lemma_outcome_of_expr(text: Seq<char>, e: Expr)
    requires
        e.well_formed(),
        lex(text) == e.infix(),
    ensures
        postfix_text(text) == Ok::<Seq<char>, CalcError>(render(e.postfix())),
        outcome(text) == e.value(),
{
    lemma_to_postfix_expr(e);
    lemma_evaluate_postfix_expr(e);
}

/// Every well-formed expression can be written: its tokens with single
/// spaces between them have the value of the expression.
pub proof fn lemma_outcome_of_written_expr(e: Expr)
    requires
        e.well_formed(),
    ensures
        lex(render(e.infix())) == e.infix(),
        outcome(render(e.infix())) == e.value(),
{
    lemma_infix_plain(e);
    lemma_lex_render(e.infix());
    lemma_outcome_of_expr(render(e.infix()), e);
}

/// The decimal digits of a number are a word.
pub proof fn lemma_decimal_is_word(n: nat)
    ensures
        is_word(decimal(n)),
{
    lemma_decimal_value(n);
    assert forall|k: int| 0 <= k < decimal(n).len() implies is_word_char(
        #[trigger] decimal(n)[k],
    ) by {
        assert(is_digit(decimal(n)[k]));
    }
}

/// Two numbers with an operator between them, one space on each side of
/// it, have as outcome what the operator makes of them. For numbers from
/// zero to the largest 32-bit one that is their sum or product if it fits
/// in 32 bits, their difference, and their quotient rounded toward zero
/// unless the divisor is zero.
pub proof fn lemma_binary_outcome(a: nat, b: nat, op: Operator)
    requires
        a <= i32::MAX,
        b <= i32::MAX,
    ensures
        outcome(decimal(a) + seq![' ', op.symbol(), ' '] + decimal(b)) == apply(
            op,
            a as int,
            b as int,
        ),
        op == Operator::Add && a + b <= i32::MAX ==> apply(op, a as int, b as int) == Ok::<
            int,
            CalcError,
        >((a + b) as int),
        op == Operator::Sub ==> apply(op, a as int, b as int) == Ok::<int, CalcError>(a - b),
        op == Operator::Mul && a * b <= i32::MAX ==> apply(op, a as int, b as int) == Ok::<
            int,
            CalcError,
        >((a * b) as int),
        op == Operator::Div && b != 0 ==> apply(op, a as int, b as int) == Ok::<int, CalcError>(
            a as int / b as int,
        ),
{
    let left = Expr::Operand(decimal(a));
    let right = Expr::Operand(decimal(b));
    let e = Expr::Binary(op, Box::new(left), Box::new(right));
    let text = decimal(a) + seq![' ', op.symbol(), ' '] + decimal(b);
    lemma_decimal_is_word(a);
    lemma_decimal_is_word(b);
    lemma_decimal_value(a);
    lemma_decimal_value(b);
    assert(is_digit(decimal(a)[0]) && is_digit(decimal(b)[0]));
    assert(number_of(decimal(a)) == Some(a as int));
    assert(number_of(decimal(b)) == Some(b as int));
    assert(left.well_formed() && right.well_formed());
    assert(left.value() == Ok::<int, CalcError>(a as int));
    assert(right.value() == Ok::<int, CalcError>(b as int));
    assert(left.infix() == seq![Token::Operand(decimal(a))]);
    assert(right.infix() == seq![Token::Operand(decimal(b))]);
    let tokens = e.infix();
    assert(tokens == seq![
        Token::Operand(decimal(a)),
        Token::Operator(op),
        Token::Operand(decimal(b)),
    ]);
    let two = tokens.drop_last();
    assert(two.drop_last() == seq![Token::Operand(decimal(a))]);
    assert(render(two.drop_last()) == decimal(a));
    assert(render(two) == decimal(a) + seq![' '] + seq![op.symbol()]);
    assert(render(tokens) == text);
    lemma_outcome_of_written_expr(e);
    assert(e.value() == apply(op, a as int, b as int));
    if op == Operator::Mul {
        assert(a * b >= 0) by (nonlinear_arith)
            requires
                a >= 0,
                b >= 0,
        ;
    }
    if op == Operator::Div && b != 0 {
        assert(0 <= a as int / b as int <= a) by (nonlinear_arith)
            requires
                a >= 0,
                b > 0,
        ;
    }
}

/// What is shown after a calculation does not depend on what was shown
/// before it.
pub proof fn lemma_shown_forgets(before: Seq<char>, other: Seq<char>, expr: Seq<char>)
    ensures
        shown_after(before, expr) == shown_after(other, expr),
{
}

/// Calculating the same expression a second time shows the same again.
pub proof fn lemma_shown_twice(before: Seq<char>, expr: Seq<char>)
    ensures
        shown_after(shown_after(before, expr), expr) == shown_after(before, expr),
{
}

/// A calculation shows what its own expression shows, whatever was
/// calculated before it.
pub proof fn lemma_shown_in_turn(before: Seq<char>, first: Seq<char>, second: Seq<char>)
    ensures
        shown_after(shown_after(before, first), second) == display(outcome(second)),
{
}

/// The text of a number is never the text of an error: it begins with a
/// digit or with `-`, and the text of an error begins with a letter.
pub proof fn lemma_number_is_no_error(v: int, e: CalcError)
    ensures
        int_text(v) != e.text(),
        display(Ok(v)) != display(Err(e)),
{
    lemma_error_text_starts_with_letter(e);
    if v < 0 {
        assert(int_text(v)[0] == '-');
    } else {
        lemma_decimal_value(v as nat);
        assert(is_digit(decimal(v as nat)[0]));
    }
}

} // verus!
