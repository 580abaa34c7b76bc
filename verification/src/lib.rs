//! Front end of a small expression language: a lexer that turns source text
//! into span-tagged tokens, and a precedence-climbing parser that turns the
//! tokens into an expression tree.

pub mod lexer;
pub mod parser;
pub mod token;
