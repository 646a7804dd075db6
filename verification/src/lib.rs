pub mod token;
pub mod ast;
pub mod text;
pub mod lexer;
pub mod object;
pub mod environment;
pub mod builtins;
pub mod evaluator;
pub mod parser;
pub mod repl;
pub mod runner;
