//! A calculator language: a lexer, a precedence-climbing parser, and a code
//! generator that lowers one expression to a stack program for a numeric
//! backend, with variables that keep their storage slot for a session.
use vstd::prelude::*;

pub mod codegen;
pub mod expression;
pub mod lexer;
pub mod parser;
pub mod token;

verus! {

} // verus!
