//! A substring-search dictionary index.
//!
//! The library builds, once, a generalized suffix tree over a vocabulary of
//! words, so that a query string can be looked up as a substring occurring
//! anywhere inside a word.  On top of the index it offers ranked,
//! length-bounded completion suggestions (scored by Levenshtein distance)
//! and exact-word definition lookup.

pub mod substring;
pub mod tree;
pub mod score;
pub mod definitions;
pub mod complete;
