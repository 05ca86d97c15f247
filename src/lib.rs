//! A small expression language: a tokenizer, a binding-power parser that
//! builds prefix trees, and an evaluator over typed expression trees.
use vstd::prelude::*;

pub mod expression;
pub mod lexer;
pub mod parser;

verus! {

} // verus!
