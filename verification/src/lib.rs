//! A radix trie (compressed prefix tree) mapping string keys to values.
//!
//! Common key prefixes share storage: each edge of the tree carries a
//! non-empty string label, and sibling labels under one node never share a
//! non-empty common prefix. `Trie::insert` splits edges as needed and
//! `Trie::get` walks the unique matching edge at each step.

pub mod laws;
pub mod trie;
