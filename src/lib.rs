//! A deterministic SHA-256 fingerprint of a directory tree: every entry is
//! absorbed in walk order (pre-order, entries of each directory sorted by
//! name) as a kind marker, its tagged path segments and, for a file, its bytes.

pub mod digest;
pub mod encoding;
pub mod error;
pub mod hasher;
pub mod laws;
