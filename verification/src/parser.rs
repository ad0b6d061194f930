//! From text to tokens, from tokens to morphology, from morphology to a
//! dependency tree.

pub mod lexer;
pub mod morphology;
pub mod syntax;
pub mod token;
pub mod tokenizer;

pub use lexer::Lexer;
