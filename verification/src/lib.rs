//! A solver for cryptogram-style word puzzles: a phrase whose letters were
//! replaced under an unknown substitution is matched against a closed
//! vocabulary, and every assignment of vocabulary words to cipher words that
//! is consistent with a single substitution mapping is enumerated.

pub mod app;
pub mod cipher_text;
pub mod cypher;
pub mod decipher;
pub mod index;
pub mod matches;
pub mod pattern;
pub mod vocabulary;
pub mod vocabulary_index;
