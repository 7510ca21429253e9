//! Keyword extraction by TF-IDF over the tagged words of a segmentation engine.
//!
//! Weights and scores are carried as unsigned 64-bit codes, whose order is
//! the order of the numbers they stand for. The library makes the codes,
//! compares them, and hands them to the scoring and parsing functions of its
//! caller; the arithmetic on the numbers is the caller's.
pub mod code;
pub mod config;
pub mod engine;
pub mod format;
pub mod rank;
pub mod store;
pub mod text;
pub mod tfidf;
