//! A compact binary codec for JSON-shaped documents: tag bytes with inline
//! small values, varint overflow, and a front-coded sorted string dictionary.
pub mod bytes;
pub mod decoding;
pub mod encoding;
pub mod error;
pub mod format;
pub mod laws;
pub mod sorted_collection;
pub mod value;
pub mod varint;
