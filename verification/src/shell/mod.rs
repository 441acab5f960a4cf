//! The front end of a small shell: tokens, the parser of pipelines, word
//! expansion against the shell's variables, and the builtin commands' logic.

pub mod ast;
pub mod token;
pub mod error;
pub mod parser;
pub mod runtime;
pub mod expander;
pub mod builtin;
pub mod exec;
