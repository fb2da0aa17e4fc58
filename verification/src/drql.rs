//! Parsers, interpreters, and other utilities for the Discord Role Query
//! Language (DRQL).

pub mod ast;
pub mod interpreter;
pub mod laws;
pub mod lexer;
pub mod parser;
pub mod scanner;
