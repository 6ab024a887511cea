//! Expression-grammar parser and string-literal decoder for a PromQL-like
//! query language, with every parse stated against a model of the grammar.

pub mod ast;
pub mod error;
pub mod expr;
pub mod literal;
pub mod scan;
