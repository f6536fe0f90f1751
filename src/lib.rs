//! Verification core of an Ethereum light client: a Merkle mountain range
//! over beacon headers, advanced batch by batch, and proofs that a
//! transaction and its receipt belong to a header of that range.
pub mod constants;
pub mod error;
pub mod hashing;
pub mod header;
pub mod mmr;
pub mod packed;
pub mod ssz;
pub mod table;
pub mod trie;
pub mod types;
