//! An integer calculator: infix expressions are rewritten in postfix order
//! and evaluated on an operand stack.

pub mod chars;
pub mod converter;
pub mod errors;
pub mod evaluator;
pub mod expression;
pub mod laws;
pub mod math_input;
pub mod number;
pub mod text;
pub mod token;
pub mod ui;
