//! A Redis-compatible protocol layer: RESP frames, the frame parser, the
//! command layer and the in-memory key-value store it acts on.

pub mod frame;
pub mod parser;
pub mod db;
pub mod command;
pub mod encode;
pub mod session;
