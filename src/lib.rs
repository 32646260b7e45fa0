pub mod ast;
pub mod effects;
pub mod lexer;
pub mod parser;
pub mod typer;
