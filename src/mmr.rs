//! The Merkle mountain range over header digests: where a leaf stands,
//! how large the range is, and whether a proof shows leaves under a root.
//! The positional functions and the proof check are ckb_mmr's.
use vstd::prelude::*;

use crate::hashing::{hashes_view, sha256_pair, Hash32};

verus! {

/// The largest leaf index that the positional functions accept.
pub const MAX_LEAF_INDEX: u64 = 0x7fff_ffff_ffff_fffe;

/// The number of one bits of `n`.
pub open spec fn popcount(n: nat) -> nat
    decreases n,
{
    if n == 0 {
        0
    } else {
        n % 2 + popcount(n / 2)
    }
}

/// The number of trailing zero bits of a positive `n`.
pub open spec fn trailing_zeros(n: nat) -> nat
    decreases n,
{
    if n == 0 || n % 2 == 1 {
        0
    } else {
        1 + trailing_zeros(n / 2)
    }
}

/// The node count of a range whose last leaf has index `index`.
pub open spec fn mmr_size_spec(index: nat) -> int {
    2 * (index + 1) - popcount(index + 1)
}

/// The node position of the leaf of index `index`.
pub open spec fn leaf_pos_spec(index: nat) -> int {
    mmr_size_spec(index) - trailing_zeros(index + 1) - 1
}

/// Whether a proof of `proof` items shows `leaves` (position, digest)
/// under `root` in a range of `mmr_size` nodes: `None` where the proof is
/// malformed.
pub uninterp spec fn mmr_proof_outcome(
    mmr_size: u64,
    proof: Seq<Seq<u8>>,
    root: Seq<u8>,
    leaves: Seq<(u64, Seq<u8>)>,
) -> Option<bool>;

/// The views of (position, digest) pairs.
pub open spec fn leaves_view(s: Seq<(u64, Hash32)>) -> Seq<(u64, Seq<u8>)> {
    s.map_values(|p: (u64, Hash32)| (p.0, p.1@))
}

/// Relies on ckb_mmr's `leaf_index_to_pos`: the size of the range up to
/// the leaf, less the trailing zeros of `index + 1`, less one.
#[verifier::external_body]
pub(crate) fn leaf_index_to_pos(index: u64) -> (r: u64)
    requires
        index <= MAX_LEAF_INDEX,
    ensures
        r == leaf_pos_spec(index as nat),
{
    ckb_merkle_mountain_range::leaf_index_to_pos(index)
}

/// Relies on ckb_mmr's `leaf_index_to_mmr_size`: twice the leaf count less
/// the number of its one bits.
#[verifier::external_body]
pub(crate) fn leaf_index_to_mmr_size(index: u64) -> (r: u64)
    requires
        index <= MAX_LEAF_INDEX,
    ensures
        r == mmr_size_spec(index as nat),
{
    ckb_merkle_mountain_range::leaf_index_to_mmr_size(index)
}

/// ckb_mmr's error type, which the node merge returns and the proof check
/// reports.
#[verifier::external_type_specification]
#[verifier::external_body]
pub struct ExMmrError(ckb_merkle_mountain_range::Error);

/// Nodes of the range are SHA-256 of the concatenated children.
pub struct MergeDigest;

impl ckb_merkle_mountain_range::Merge for MergeDigest {
    type Item = Hash32;

    fn merge(left: &Hash32, right: &Hash32) -> (r: ckb_merkle_mountain_range::Result<Hash32>) {
        Ok(sha256_pair(left, right))
    }
}

/// Relies on ckb_mmr's `MerkleProof::verify` with [`MergeDigest`]: whether
/// the proof shows the leaves under `root`, or `None` where the proof is
/// malformed.
#[verifier::external_body]
pub(crate) fn verify_mmr_proof(
    mmr_size: u64,
    proof: &Vec<Hash32>,
    root: &Hash32,
    leaves: Vec<(u64, Hash32)>,
) -> (r: Option<bool>)
    ensures
        r == mmr_proof_outcome(mmr_size, hashes_view(proof@), root@, leaves_view(leaves@)),
{
    ckb_merkle_mountain_range::MerkleProof::<Hash32, MergeDigest>::new(mmr_size, proof.to_vec())
        .verify(*root, leaves)
        .ok()
}

} // verus!
