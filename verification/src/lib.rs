pub mod ast;
pub mod compiler;
pub mod decimal;
pub mod interpreter;
pub mod lexer;
pub mod meaning;
pub mod parser;
pub mod scopes;
pub mod strings;
pub mod token;
pub mod typeck;
pub mod vm;
