//! An in-memory approximate-nearest-neighbour service core built on
//! locality-sensitive hashing with sign random projections.
//!
//! Embedding vectors are carried as their IEEE-754 bit patterns (`u32` words),
//! so every rule of the service — index maintenance, bucket lookup, candidate
//! deduplication, fingerprinting, self-exclusion — is stated and proved over
//! plain integer sequences. The floating-point work (computing the sign of a
//! projection, decoding JSON floats) is the caller's capability: it hands the
//! index per-table signatures as plain `u64` values.

pub mod codec;
pub mod errors;
pub mod fingerprint;
pub mod index;
pub mod ingest;
pub mod models;
pub mod pipeline;
