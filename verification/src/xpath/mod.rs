//! XPath 1.0 building blocks: the lexer, the parser, the axes and node tests, and
//! the string functions that compute on characters
//!
//! The evaluator computes with floating-point numbers and lives outside the
//! verified library; these are the parts it is built on.

pub mod axes;
pub mod compiler;
pub mod eval;
pub mod lexer;
pub mod parser;
pub mod strings;
