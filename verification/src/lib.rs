//! Fuzzy-matching core of a dictionary lookup service.
//!
//! The library computes Levenshtein edit distances between words and selects
//! bounded, deterministically ordered suggestion candidates from a vocabulary
//! of dictionary entries. All transport, routing and dataset loading live
//! outside the library; callers hand it plain strings and a read-only
//! vocabulary snapshot.

pub mod distance;
pub mod order;
pub mod suggest;
pub mod vocab;

pub use distance::edit_distance;
pub use suggest::suggest_words;
pub use vocab::Record;
pub use vocab::Vocabulary;
