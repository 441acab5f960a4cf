//! A Lox front end: a scanner from source text to tokens and a
//! recursive-descent parser from tokens to expression trees.

pub mod token;
pub mod ast;
pub mod error;
pub mod scanner;
pub mod parser;
pub mod cli;
