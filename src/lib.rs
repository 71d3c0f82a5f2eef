pub mod lexer;
pub mod parser;
pub mod reader;
pub mod spans;
pub mod syntax;
