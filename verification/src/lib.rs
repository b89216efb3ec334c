//! A trigram language model over interned words.
//!
//! The library keeps a store of words and of observed word triples with
//! occurrence counts, and generates plausible word sequences by
//! frequency-weighted random traversal of those triples.  `markov_words`
//! holds the store and the completion engine; `store` holds the trigram
//! rows and the row-level selection logic; `migration` brings a store's
//! schema up to date.

pub mod markov_words;
pub mod migration;
pub mod store;
