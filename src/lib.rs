//! Transient is an experimental, domain-specific language implementation.
//!
//! The project contains a lexical scanner, or lexer, to tokenize input along
//! with a parser to assemble an abstract syntax tree (AST).
pub mod lexer;
pub mod parser;
