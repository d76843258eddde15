//! Enumeration of all quintets of five-letter words that together use 25
//! distinct letters.
//!
//! A vocabulary of candidate lines is filtered down to words of exactly five
//! distinct ASCII bytes.  Two words are *compatible* when they share no
//! letter; the compatibility graph records, for every word, the compatible
//! words of larger index.  A pruned four-level intersection search enumerates
//! every 5-clique of that graph exactly once, and the solutions are sorted
//! and rendered one per line.

pub mod graph;
pub mod intersect;
pub mod order;
pub mod pipeline;
pub mod search;
pub mod search_props;
pub mod solutions;
pub mod words;
