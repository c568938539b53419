//! CSS tokenization: the input is split into tokens following the
//! tokenization states of CSS Syntax Level 3.
pub mod chars;
pub mod spec;
pub mod text;
pub mod token;
pub mod preprocess;
pub mod laws;
pub mod shapes;
pub mod lexer;

pub use lexer::{tokenize, TokenizeResult};
pub use token::Token;
