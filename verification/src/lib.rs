//! Scanning, parsing and scoped variable storage for the Lox language,
//! verified with Verus.

pub mod lexer;
pub mod syntax;
pub mod parser;
pub mod value;
pub mod environment;
