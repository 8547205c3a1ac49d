//! A line calculator: a tokenizer, a precedence-climbing parser that collects
//! diagnostics, and an evaluator with integer-to-decimal promotion.
pub mod expression;
pub mod lexer;
pub mod parser;
pub mod pipeline;

pub use expression::{EvalError, Evaluated, Expression, Number, Operator};
pub use lexer::{tokenize, Lexer, Token, TokenKind};
pub use parser::Parser;
pub use pipeline::{parse_and_evaluate, Failure};
