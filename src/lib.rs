//! An arithmetic expression calculator: a tokenizer, an infix-to-postfix
//! converter (shunting-yard) and a postfix evaluator.
//!
//! Numbers written with a fractional part travel as the IEEE-754 bit pattern
//! of the double they denote; the arithmetic on doubles is left to the caller,
//! which folds the expression tree that the evaluator builds.

pub mod token;
pub mod parser;
pub mod converter;
pub mod evaluator;
pub mod laws;
