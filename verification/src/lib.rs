//! The front end of a small imperative language: a tokenizer that turns
//! source text into positioned tokens, and a parser that turns tokens into a
//! syntax tree.

pub mod ast;
pub mod climbing;
pub mod compiler_settings;
pub mod grammar;
pub mod grammar_laws;
pub mod lexer;
pub mod lexer_laws;
pub mod parser;
