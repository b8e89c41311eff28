pub mod span;
pub mod token;
pub mod error;
pub mod lexer;
pub mod preprocessor;
pub mod laws;
