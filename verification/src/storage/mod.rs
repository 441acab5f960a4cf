//! The storage under the B+tree: a cache of the file's pages.

pub mod cache;
