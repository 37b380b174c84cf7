//! The routing tree and request dispatch.

pub mod cors;
pub mod dispatch;
pub mod merge;
pub mod node;
pub mod pattern;
pub mod table;
pub mod trie;
