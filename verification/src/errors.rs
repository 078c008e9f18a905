//! The ways in which an expression can fail, and the text shown for each.

use vstd::prelude::*;

verus! {

/// Shown when a token is neither an integer nor an operator.
pub const NON_NUMERIC_ERROR: &'static str = "non-numeric value in expression";

/// Shown when a parenthesis has no partner.
pub const MISMATCHED_PARENTHESES_ERROR: &'static str = "mismatched parentheses in expression";

/// Shown when the divisor of a division is zero.
pub const DIVISION_BY_ZERO_ERROR: &'static str = "division by zero";

/// Shown when operators and operands do not add up to one value.
pub const MALFORMED_EXPRESSION_ERROR: &'static str = "malformed expression";

/// Shown when a result does not fit in 32 bits.
pub const NUMERIC_OVERFLOW_ERROR: &'static str = "numeric overflow";

/// Why an expression has no value.
#[derive(Clone, Copy, Debug, PartialEq, Eq, Structural)]
pub enum CalcError {
    /// A `)` without an earlier `(`, or a `(` that is never closed.
    MismatchedParentheses,
    /// A token that is neither a 32-bit integer nor one of `+ - * /`.
    UnrecognizedToken,
    /// A division whose divisor is zero.
    DivisionByZero,
    /// An operator with fewer than two operands, or an expression that
    /// leaves no value or more than one.
    MalformedExpression,
    /// A result outside the range of a 32-bit signed integer.
    NumericOverflow,
}

impl CalcError {
    /// The text shown for this error.
    pub open spec fn text(self) -> Seq<char> {
        match self {
            CalcError::MismatchedParentheses => MISMATCHED_PARENTHESES_ERROR@,
            CalcError::UnrecognizedToken => NON_NUMERIC_ERROR@,
            CalcError::DivisionByZero => DIVISION_BY_ZERO_ERROR@,
            CalcError::MalformedExpression => MALFORMED_EXPRESSION_ERROR@,
            CalcError::NumericOverflow => NUMERIC_OVERFLOW_ERROR@,
        }
    }

    /// The text shown for this error.
    pub fn message(&self) -> (msg: &'static str)
        ensures
            msg@ == self.text(),
    {
        match self {
            CalcError::MismatchedParentheses => MISMATCHED_PARENTHESES_ERROR,
            CalcError::UnrecognizedToken => NON_NUMERIC_ERROR,
            CalcError::DivisionByZero => DIVISION_BY_ZERO_ERROR,
            CalcError::MalformedExpression => MALFORMED_EXPRESSION_ERROR,
            CalcError::NumericOverflow => NUMERIC_OVERFLOW_ERROR,
        }
    }
}

/// Every error text starts with a lower-case letter, so none is the text
/// of a number.
pub proof fn lemma_error_text_starts_with_letter(e: CalcError)
    ensures
        e.text().len() > 0,
        'a' <= e.text()[0] <= 'z',
{
    reveal_strlit("non-numeric value in expression");
    reveal_strlit("mismatched parentheses in expression");
    reveal_strlit("division by zero");
    reveal_strlit("malformed expression");
    reveal_strlit("numeric overflow");
}

} // verus!
