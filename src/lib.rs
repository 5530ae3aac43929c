//! A lexer, parser and schema rule engine for a compact data-literal language:
//! parenthesized objects, bracketed lists, strings, numbers, the keywords
//! `True`, `False` and `None`, and `#` line comments.
use vstd::prelude::*;

pub mod lexer;
pub mod value;
pub mod parser;
pub mod rule;

verus! {

} // verus!
