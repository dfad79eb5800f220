//! A small expression-oriented scripting language: a textual grammar is
//! parsed into an abstract syntax tree which a tree-walking interpreter
//! then evaluates against a mutable name environment.

pub mod ast;
pub mod eval;
pub mod parse;
