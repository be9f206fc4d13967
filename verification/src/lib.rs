//! Construction of compact, collision-free lookup structures for a fixed
//! corpus of keyed byte strings: a CHD-style perfect-hash table built by
//! bucketed displacement search, and a byte trie that deduplicates shared
//! substrings so an embedded buffer stores only maximal unique strings.

mod rng;

pub mod phf;
pub mod trie;
