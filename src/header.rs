//! Beacon block headers, the empty placeholder header, and the values
//! derived from a header: its SSZ root and its leaf digest in the range.
use vstd::prelude::*;

use crate::hashing::{
    extend_bytes, extend_le, is_zero_hash, le_bytes, merkle_root, merkle_root_of, sha256,
    sha256_of, zeros, Hash32,
};

verus! {

/// A beacon block header.
#[derive(Clone, Copy, Debug, PartialEq, Eq)]
pub struct Header {
    pub slot: u64,
    pub proposer_index: u64,
    pub parent_root: Hash32,
    pub state_root: Hash32,
    pub body_root: Hash32,
}

/// A finality update; for now it carries the finalized header alone.
#[derive(Clone, Copy, Debug, PartialEq, Eq)]
pub struct FinalityUpdate {
    pub finalized_header: Header,
}

/// A header together with its SSZ root and its leaf digest.
#[derive(Clone, Copy, Debug, PartialEq, Eq)]
pub struct HeaderWithCache {
    pub inner: Header,
    pub root: Hash32,
    pub digest: Hash32,
}

impl Header {
    /// The header stands for a skipped slot: every field is zero.
    pub open spec fn is_empty_spec(self) -> bool {
        &&& self.slot == 0
        &&& self.proposer_index == 0
        &&& self.parent_root@ == zeros(32)
        &&& self.state_root@ == zeros(32)
        &&& self.body_root@ == zeros(32)
    }

    /// The header whose fields are all zero.
    pub fn empty() -> (r: Header)
        ensures
            r.is_empty_spec(),
    {
        let r = Header {
            slot: 0,
            proposer_index: 0,
            parent_root: [0u8; 32],
            state_root: [0u8; 32],
            body_root: [0u8; 32],
        };
        assert(r.parent_root@ =~= zeros(32));
        r
    }

    pub fn is_empty(&self) -> (r: bool)
        ensures
            r == self.is_empty_spec(),
    {
        self.slot == 0 && self.proposer_index == 0 && is_zero_hash(&self.parent_root)
            && is_zero_hash(&self.state_root) && is_zero_hash(&self.body_root)
    }

    /// Computes the SSZ root and the leaf digest of the header.
    pub fn calc_cache(&self) -> (r: HeaderWithCache)
        ensures
            r.inner == *self,
            r.root@ == header_root(*self),
            r.digest@ == header_digest(*self),
    {
        let root = header_tree_root(self);
        let mut data: Vec<u8> = Vec::new();
        extend_bytes(&mut data, &root);
        extend_le(&mut data, self.slot, 8);
        extend_le(&mut data, self.proposer_index, 8);
        assert(data@ =~= header_root(*self) + le_bytes(self.slot as nat, 8) + le_bytes(
            self.proposer_index as nat,
            8,
        ));
        let digest = sha256(data.as_slice());
        HeaderWithCache { inner: *self, root, digest }
    }
}

/// The SSZ chunks of a header: one 32-byte chunk per field, integers
/// little-endian and zero-padded.
pub open spec fn header_chunks(h: Header) -> Seq<u8> {
    le_bytes(h.slot as nat, 32) + le_bytes(h.proposer_index as nat, 32) + h.parent_root@
        + h.state_root@ + h.body_root@
}

/// The SSZ tree-hash root of a header.
pub open spec fn header_root(h: Header) -> Seq<u8> {
    merkle_root_of(header_chunks(h))
}

/// The leaf digest of a header: SHA-256 of its root, its slot and its
/// proposer index, the integers as 8 little-endian bytes.
pub open spec fn header_digest(h: Header) -> Seq<u8> {
    sha256_of(header_root(h) + le_bytes(h.slot as nat, 8) + le_bytes(h.proposer_index as nat, 8))
}

/// Computes the SSZ tree-hash root of a header.
pub fn header_tree_root(h: &Header) -> (r: Hash32)
    ensures
        r@ == header_root(*h),
{
    let mut chunks: Vec<u8> = Vec::new();
    extend_le(&mut chunks, h.slot, 32);
    extend_le(&mut chunks, h.proposer_index, 32);
    extend_bytes(&mut chunks, &h.parent_root);
    extend_bytes(&mut chunks, &h.state_root);
    extend_bytes(&mut chunks, &h.body_root);
    assert(chunks@ =~= header_chunks(*h));
    merkle_root(chunks.as_slice())
}

} // verus!
