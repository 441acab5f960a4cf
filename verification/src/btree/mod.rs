//! A copy-on-write B+tree over fixed-size pages.

pub mod keys;
pub mod node;
pub mod insert;
pub mod delete;
pub mod split;
pub mod search;
pub mod tree;
pub mod readback;
pub mod valid;
pub mod shrink;
