//! Verifiable Compliance Affidavit (VCA) protocol library.
//!
//! - [`address`]: 20-byte account addresses and their numeric order
//! - [`hashing`]: Keccak-256 of byte strings and node pairs
//! - [`keys`]: secp256k1 ECDSA keys and signatures
//! - [`tree_model`]: the mathematical model of the sorted Merkle tree
//! - [`merkle`]: sorted Merkle tree with non-membership proofs
//! - [`registry`]: in-memory watchlist registry
//! - [`vcr`]: Verifiable Compliance Records (generation and verification)
//! - [`message`]: the signed bytes of a compliance message
//! - [`json`]: compact JSON text of strings, numbers and lists
//! - [`sorting`]: sorting addresses with duplicates dropped
//! - [`util`]: copies of vectors and slices
//! - [`encoding`]: calldata encoding and gas estimation
//! - [`prelude`]: convenience re-exports

pub mod address;
pub mod encoding;
pub mod hashing;
pub mod json;
pub mod json_unique;
pub mod keys;
pub mod merkle;
pub mod message;
pub mod message_unique;
pub mod prelude;
pub mod registry;
pub mod sorting;
pub mod tree_model;
pub mod util;
pub mod vcr;
