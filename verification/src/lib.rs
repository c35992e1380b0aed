//! A verified trie (prefix tree) over sequences of characters.
//!
//! The [`trie::Trie`] type supports word insertion, exact word lookup,
//! prefix queries, and enumeration of all inserted words with a given
//! prefix, in ascending lexicographic order.

pub mod order;
pub mod text;
pub mod trie;
