//! Fuzzy spelling correction.
//!
//! A corpus of correctly spelled words is stored in a prefix trie together
//! with each word's occurrence frequency.  A bounded-edit-distance search
//! walks the trie and returns, for a query word, the corpus word within the
//! edit budget that takes the fewest edits, frequency breaking ties.

pub mod freq;
pub mod laws;
pub mod render;
pub mod search;
pub mod strutil;
pub mod text;
pub mod trie;
