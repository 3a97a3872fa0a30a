#![allow(non_snake_case)]
//! An in-memory ordered key-value index built on a fixed-fanout B-tree.
//!
//! Nodes hold up to `2 * M - 1` keys; an insertion that overflows a node
//! splits it and promotes the median key, recursively up to the root.

pub mod btree;
pub mod server;
