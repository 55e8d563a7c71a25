pub mod token;
pub mod lexer;
pub mod ast;
pub mod environment;
pub mod evaluation;
pub mod error;
pub mod literal;
pub mod parser;
