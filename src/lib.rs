//! Reads a ZIM encyclopedia archive, extracts the link graph between its
//! articles, and answers weighted path queries over that graph.

pub mod bytes;
pub mod zim;
pub mod interner;
pub mod page;
pub mod graph;
pub mod search;
pub mod persist;

