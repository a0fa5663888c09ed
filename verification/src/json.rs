//! JSON text: its tokens, and the check that they form an object.
pub mod lexer;
pub mod parser;
pub mod token;
