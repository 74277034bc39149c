//! A binary Merkle-Patricia trie with 251-bit keys and path compression.
//!
//! The trie maps fixed-width keys to 256-bit values, commits to its contents
//! with a deterministic structural hash, persists nodes in a content-addressed
//! store, and emits inclusion proofs that an independent verifier can check
//! against the root commitment alone.

pub mod codec;
pub mod errors;
pub mod facade;
pub mod felt;
pub mod node;
pub mod merkle_proof;
pub mod reply;
pub mod storage;
pub mod store;
pub mod trie;
