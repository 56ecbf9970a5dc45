//! A minimal scripting-language front end: a lexer, an expression/function
//! parser with delimiter-based error recovery, and a tree-walking evaluator.
//!
//! The pipeline is `lex` (source text to spanned tokens), `parse` (tokens to a
//! table of named functions whose bodies are spanned expression trees), and
//! `eval_expr` (an expression tree plus a function table and a binding stack
//! to a runtime value or a span-tagged evaluation error).
use vstd::prelude::*;

pub mod interpreter;
pub mod lexer;
pub mod nodes;
pub mod parsers;
pub mod semantic_tokens;
pub mod span;
pub mod tokens;

use crate::span::Span;

verus! {

/// A diagnostic produced by the lexer, the parser, or the evaluator: the span
/// of the offending source text and a human-readable message.
#[derive(Clone, Debug, PartialEq)]
pub struct Error {
    pub span: Span,
    pub msg: String,
}

} // verus!
