//! The calculator's engine: it evaluates an expression and keeps what is
//! to be shown for it.

use vstd::prelude::*;
use crate::converter::{convert_infix_to_postfix, postfix_text};
use crate::errors::CalcError;
use crate::evaluator::{evaluate, evaluate_postfix, lemma_eval_words_failure, split_words};
use crate::number::{format_number, int_text};
use crate::token::{lex, parentheses_match};

verus! {

/// The value of the infix expression `expr`: that of its postfix form. An
/// expression without a postfix form fails as the conversion does.
pub open spec fn outcome(expr: Seq<char>) -> Result<int, CalcError> {
    match postfix_text(expr) {
        Ok(postfix) => evaluate(postfix),
        Err(e) => Err(e),
    }
}

/// What is shown for a result: the number in decimal, or the text of the
/// error.
pub open spec fn display(result: Result<int, CalcError>) -> Seq<char> {
    match result {
        Ok(v) => int_text(v),
        Err(e) => e.text(),
    }
}

/// What is shown once `expr` has been calculated, where `before` was shown
/// until then: what is shown for the outcome of `expr`.
pub open spec fn shown_after(before: Seq<char>, expr: Seq<char>) -> Seq<char> {
    display(outcome(expr))
}

/// Evaluates the infix expression `expr`: integers, the operators
/// `+ - * /` and parentheses. `*` and `/` bind tighter than `+` and `-`,
/// and operators of equal precedence apply from left to right.
pub fn evaluate_expression(expr: &str) -> (r: Result<i32, CalcError>)
    ensures
        match r {
            Ok(v) => outcome(expr@) == Ok::<int, CalcError>(v as int),
            Err(e) => outcome(expr@) == Err::<int, CalcError>(e),
        },
        r == Err::<i32, CalcError>(CalcError::MismatchedParentheses) <==> !parentheses_match(
            lex(expr@),
            0,
        ),
{
    proof {
        if let Ok(postfix) = postfix_text(expr@) {
            lemma_eval_words_failure(split_words(postfix), Seq::empty());
        }
    }
    match convert_infix_to_postfix(expr) {
        Ok(postfix) => evaluate_postfix(postfix.as_str()),
        Err(e) => Err(e),
    }
}

/// What the calculator shows.
pub struct DataView {
    /// The result of the last calculation, or the text of its error.
    pub output: String,
}

/// The engine. It owns what it shows; every calculation overwrites it.
pub struct MathInputImpl {
    data_view: DataView,
}

impl MathInputImpl {
    /// The text that the engine shows.
    pub closed spec fn shown(&self) -> Seq<char> {
        self.data_view.output@
    }

    /// An engine that shows what `data_view` holds.
    pub fn new(data_view: DataView) -> (engine: MathInputImpl)
        ensures
            engine.shown() == data_view.output@,
    {
        MathInputImpl { data_view }
    }

    /// Evaluates `expr` and shows its value in decimal, or the text of the
    /// error if it has none. What was shown before plays no part.
    pub fn calculate(&mut self, expr: &str)
        ensures
            final(self).shown() == shown_after(old(self).shown(), expr@),
    {
        match evaluate_expression(expr) {
            Ok(v) => self.update_output_num(v),
            Err(e) => self.update_output_str_with_error(e.message()),
        }
    }

    /// What the engine shows.
    pub fn data_view(&self) -> (view: &DataView)
        ensures
            view.output@ == self.shown(),
    {
        &self.data_view
    }

    /// The text that the engine shows.
    pub fn output(&self) -> (text: &str)
        ensures
            text@ == self.shown(),
    {
        self.data_view.output.as_str()
    }

    /// Shows the number `new_value`.
    fn update_output_num(&mut self, new_value: i32)
        ensures
            final(self).shown() == int_text(new_value as int),
    {
        self.data_view.output = format_number(new_value);
    }

    /// Shows the error text `error_msg`.
    fn update_output_str_with_error(&mut self, error_msg: &str)
        ensures
            final(self).shown() == error_msg@,
    {
        self.data_view.output = String::from_str(error_msg);
    }
}

} // verus!
