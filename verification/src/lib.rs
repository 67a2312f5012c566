//! A small scripting-language front end: a lexer, a recursive-descent
//! statement parser, a string interner and a bytecode evaluator for
//! constant-loading instructions.
use vstd::prelude::*;

pub mod text;
pub mod token;
pub mod lexer;
pub mod agent;
pub mod ast;
pub mod parser;
pub mod interpreter;
pub mod positions;
pub mod statement_laws;

verus! {

} // verus!
