//! A calculator built on a 64-bit two's-complement arithmetic engine made of
//! single-bit logic gates, with a tokenizer and a precedence-climbing parser.
//!
//! Text flows one way: `lexer::lex` turns it into tokens, `parser::parse`
//! turns the tokens into an `Expression`, and `Expression::eval` computes a
//! `Number`, which `Number::to_int` turns back into a native integer.

pub mod bit;
pub mod circuits;
pub mod laws;
pub mod lexer;
pub mod model;
pub mod number;
pub mod operations;
pub mod parser;
pub mod syntax;

pub use bit::Bit;
pub use lexer::{lex, LexErr, Symbol, Token};
pub use number::{ArithmeticError, DecodeError, Number};
pub use parser::{parse, Machine, ParseErr, Stack};
pub use syntax::{EvalError, Expression, Operator, SyntaxError};
