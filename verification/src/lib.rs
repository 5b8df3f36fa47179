//! A verified front end for a small C-like expression language: a tokenizer
//! and an operator-precedence (Pratt) parser that turns source text into an
//! abstract syntax tree, together with the canonical rendering of that tree.

pub mod ast;
pub mod digits;
pub mod laws;
pub mod lexer;
pub mod object;
pub mod parser;
pub mod roundtrip;
pub mod token;
