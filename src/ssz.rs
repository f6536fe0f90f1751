//! SSZ merkle proofs: a leaf under a root at a generalized index.
use vstd::prelude::*;

use crate::constants::MAX_BYTES_PER_TRANSACTION;
use crate::hashing::{hash_eq, hashes_view, sha256_of, sha256_pair, Hash32};

verus! {

/// The tree-hash root of a transaction as an SSZ list of at most
/// `MAX_BYTES_PER_TRANSACTION` bytes.
pub uninterp spec fn transaction_list_root(tx: Seq<u8>) -> Seq<u8>;

/// `index` has exactly `depth + 1` binary digits: the proof of a node at
/// generalized index `index` has `depth` items.
pub open spec fn depth_is(index: nat, depth: nat) -> bool
    decreases depth,
{
    if depth == 0 {
        index == 1
    } else {
        index >= 2 && depth_is(index / 2, (depth - 1) as nat)
    }
}

/// The root reached from `node` at generalized index `index` by hashing
/// in the proof items, lowest first: a node with an even index is a left
/// child.
pub open spec fn ssz_climb(node: Seq<u8>, proof: Seq<Seq<u8>>, index: nat) -> Seq<u8>
    decreases proof.len(),
{
    if proof.len() == 0 {
        node
    } else {
        let next = if index % 2 == 0 {
            sha256_of(node + proof[0])
        } else {
            sha256_of(proof[0] + node)
        };
        ssz_climb(next, proof.drop_first(), index / 2)
    }
}

/// The proof shows `leaf` at generalized index `index` under `root`.
pub open spec fn ssz_proof_valid(root: Seq<u8>, leaf: Seq<u8>, proof: Seq<Seq<u8>>, index: nat) -> bool {
    depth_is(index, proof.len()) && ssz_climb(leaf, proof, index) == root
}

/// Whether `proof` shows `leaf` at generalized index `index` under `root`.
pub fn verify_merkle_proof(root: &Hash32, leaf: &Hash32, proof: &Vec<Hash32>, index: u64) -> (r: bool)
    ensures
        r == ssz_proof_valid(root@, leaf@, hashes_view(proof@), index as nat),
{
    let ghost p = hashes_view(proof@);
    let mut cur: Hash32 = *leaf;
    let mut idx: u64 = index;
    let mut i: usize = 0;
    assert(p.subrange(0, p.len() as int) =~= p);
    while i < proof.len()
        invariant
            i <= proof@.len(),
            p == hashes_view(proof@),
            depth_is(index as nat, p.len()) == depth_is(idx as nat, (p.len() - i) as nat),
            ssz_climb(leaf@, p, index as nat) == ssz_climb(cur@, p.subrange(i as int, p.len() as int), idx as nat),
        decreases proof@.len() - i,
    {
        if idx < 2 {
            return false;
        }
        let ghost rest = p.subrange(i as int, p.len() as int);
        assert(rest[0] == proof@[i as int]@);
        assert(rest.drop_first() =~= p.subrange(i + 1, p.len() as int));
        let sibling = proof[i];
        if idx % 2 == 0 {
            cur = sha256_pair(&cur, &sibling);
        } else {
            cur = sha256_pair(&sibling, &cur);
        }
        idx = idx / 2;
        i += 1;
    }
    assert(p.subrange(i as int, p.len() as int) =~= Seq::<Seq<u8>>::empty());
    idx == 1 && hash_eq(&cur, root)
}

/// Relies on ssz_types' `VariableList::new`, which refuses a list longer
/// than its bound, and on tree_hash's `TreeHash::tree_hash_root` of the
/// list: the list root, or `None` where the transaction is too long. Callers
/// keep to the bound, so that no longer transaction is ever copied.
#[verifier::external_body]
pub(crate) fn transaction_root(tx: &[u8]) -> (r: Option<Hash32>)
    requires
        tx@.len() <= MAX_BYTES_PER_TRANSACTION,
    ensures
        r.is_none() <==> tx@.len() > MAX_BYTES_PER_TRANSACTION,
        r matches Some(h) ==> h@ == transaction_list_root(tx@),
{
    match ssz_types::VariableList::<u8, ssz_types::typenum::U1073741824>::new(tx.to_vec()) {
        Ok(list) => Some(tree_hash::TreeHash::tree_hash_root(&list).0),
        Err(_) => None,
    }
}

} // verus!
