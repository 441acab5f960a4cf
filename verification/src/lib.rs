//! Verified building blocks of a collection of small systems programs:
//! a Lox scanner and parser, a RESP frame parser with a key-value command
//! layer, a page-based B+tree, a shell front end and several text tools.

pub mod text;
pub mod rlox;
pub mod resp;
pub mod btree;
pub mod storage;
pub mod shell;
pub mod tools;
pub mod editor;
pub mod laws;
