use std::sync::Arc;

use ckb_merkle_mountain_range::util::MemStore;
use ckb_merkle_mountain_range::{leaf_index_to_pos, MMR};
use eth_light_client_verification::constants::{
    RECEIPTS_ROOT_IN_BLOCK_BODY, TRANSACTION_IN_BLOCK_BODY,
};
use eth_light_client_verification::error::TxVerificationError;
use eth_light_client_verification::header::{header_tree_root, FinalityUpdate, Header};
use eth_light_client_verification::mmr::MergeDigest;
use eth_light_client_verification::types::{
    Client, ProofUpdate, TransactionPayload, TransactionProof,
};
use eth_trie::{EthTrie, MemoryDB, Trie};
use sha2::{Digest, Sha256};
use ssz_types::typenum::U1073741824;
use ssz_types::VariableList;
use tree_hash::TreeHash;

type Hash = [u8; 32];

fn fill(tag: u64, k: u64) -> Hash {
    let mut h = [0u8; 32];
    h[..8].copy_from_slice(&tag.to_le_bytes());
    h[8..16].copy_from_slice(&k.to_le_bytes());
    h[30] = 0x5a;
    h
}

fn hash_pair(a: &Hash, b: &Hash) -> Hash {
    let mut hasher = Sha256::new();
    hasher.update(a);
    hasher.update(b);
    hasher.finalize().into()
}

/// Climbs from `node` at generalized index `index` to the ancestor `stop`,
/// with made-up siblings; gives that ancestor and the siblings.
fn climb_to(mut node: Hash, mut index: u64, stop: u64, tag: u64) -> (Hash, Vec<Hash>) {
    let mut siblings = Vec::new();
    while index > stop {
        let sibling = fill(tag, index ^ 1);
        node = if index % 2 == 0 {
            hash_pair(&node, &sibling)
        } else {
            hash_pair(&sibling, &node)
        };
        siblings.push(sibling);
        index /= 2;
    }
    assert_eq!(index, stop);
    (node, siblings)
}

struct Block {
    body_root: Hash,
    transaction_ssz_proof: Vec<Hash>,
    receipts_root_ssz_proof: Vec<Hash>,
    receipts_root: Hash,
    receipt_mpt_proof: Vec<Vec<u8>>,
    transaction: Vec<u8>,
    receipt: Vec<u8>,
}

fn receipt_bytes(k: u64) -> Vec<u8> {
    let mut r = vec![0x02, 0xf9, 0x01];
    r.extend((0..40 + k).map(|b| (b * 7 + k) as u8));
    r
}

/// A block body holding `transaction` as transaction `index`, and a
/// receipts trie of `receipts_count` receipts.
fn block_with(index: u64, transaction: Vec<u8>, receipts_count: u64) -> Block {
    let mut trie = EthTrie::new(Arc::new(MemoryDB::new(true)));
    for k in 0..receipts_count {
        trie.insert(&rlp::encode(&k), &receipt_bytes(k)).unwrap();
    }
    let receipts_root: Hash = trie.root_hash().unwrap().0;
    let receipt_mpt_proof = trie.get_proof(&rlp::encode(&index)).unwrap();

    let list = VariableList::<u8, U1073741824>::new(transaction.clone()).unwrap();
    let leaf: Hash = list.tree_hash_root().0;
    let (payload_right, tx_siblings) = climb_to(leaf, TRANSACTION_IN_BLOCK_BODY + index, 51, 3);
    let (payload_left, receipt_siblings) = climb_to(receipts_root, RECEIPTS_ROOT_IN_BLOCK_BODY, 50, 4);
    let payload_root = hash_pair(&payload_left, &payload_right);
    let (body_root, top_siblings) = climb_to(payload_root, 25, 1, 5);

    let mut transaction_ssz_proof = tx_siblings;
    transaction_ssz_proof.push(payload_left);
    transaction_ssz_proof.extend(top_siblings.iter().copied());
    let mut receipts_root_ssz_proof = receipt_siblings;
    receipts_root_ssz_proof.push(payload_right);
    receipts_root_ssz_proof.extend(top_siblings.iter().copied());

    Block {
        body_root,
        transaction_ssz_proof,
        receipts_root_ssz_proof,
        receipts_root,
        receipt_mpt_proof,
        transaction,
        receipt: receipt_bytes(index),
    }
}

struct Fixture {
    client: Client,
    proof: TransactionProof,
    payload: TransactionPayload,
}

/// A client over `count` slots, the block of the header at `at` holding
/// the transaction `index` of `receipts_count`.
fn fixture(count: usize, at: usize, index: u64, receipts_count: u64, tx_len: usize) -> Fixture {
    let first_slot: u64 = 7_000_000;
    let transaction: Vec<u8> = (0..tx_len).map(|b| (b % 251) as u8).collect();
    let block = block_with(index, transaction, receipts_count);
    let mut parent = fill(8, 8);
    let mut headers = Vec::new();
    for k in 0..count {
        let h = Header {
            slot: first_slot + k as u64,
            proposer_index: 77 + k as u64,
            parent_root: parent,
            state_root: fill(6, k as u64),
            body_root: if k == at { block.body_root } else { fill(7, k as u64) },
        };
        parent = header_tree_root(&h);
        headers.push(h);
    }
    let store = MemStore::default();
    let mut mmr = MMR::<Hash, MergeDigest, _>::new(0, &store);
    let mut positions = Vec::new();
    for (k, h) in headers.iter().enumerate() {
        mmr.push(h.calc_cache().digest).unwrap();
        positions.push(leaf_index_to_pos(k as u64));
    }
    let root = mmr.get_root().unwrap();
    let pu = ProofUpdate {
        new_headers_mmr_root: root,
        new_headers_mmr_proof: mmr.gen_proof(positions).unwrap().proof_items().to_vec(),
        updates: headers
            .iter()
            .map(|h| FinalityUpdate { finalized_header: *h })
            .collect(),
    };
    let client = Client::new_from_packed_proof_update(&pu).unwrap();
    let header_mmr_proof = mmr
        .gen_proof(vec![leaf_index_to_pos(at as u64)])
        .unwrap()
        .proof_items()
        .to_vec();
    let proof = TransactionProof {
        header: headers[at],
        transaction_index: index,
        receipts_root: block.receipts_root,
        header_mmr_proof,
        transaction_ssz_proof: block.transaction_ssz_proof,
        receipt_mpt_proof: block.receipt_mpt_proof,
        receipts_root_ssz_proof: block.receipts_root_ssz_proof,
    };
    let payload = TransactionPayload {
        transaction: block.transaction,
        receipt: block.receipt,
    };
    Fixture {
        client,
        proof,
        payload,
    }
}

fn test_transaction_verification(case_id: usize) {
    let (count, at, index, receipts_count, tx_len) = match case_id {
        1 => (16, 3, 0, 1, 100),
        2 => (33, 32, 5, 9, 310),
        3 => (7, 0, 129, 200, 1),
        4 => (64, 40, 17, 40, 0),
        _ => (100, 99, 1, 3, 4096),
    };
    let f = fixture(count, at, index, receipts_count, tx_len);
    let packed_proof = f.proof.pack();
    let packed_payload = f.payload.pack();
    let proof = TransactionProof::unpack(&packed_proof).unwrap();
    let payload = TransactionPayload::unpack(&packed_payload).unwrap();
    assert_eq!(proof, f.proof);
    assert_eq!(payload, f.payload);
    let result = f.client.verify_packed_transaction_proof(&proof);
    assert!(result.is_ok(), "failed to verify packed proof for case {}", case_id);
    let result = proof.verify_packed_payload(&payload);
    assert!(result.is_ok(), "failed to verify packed payload for case {}", case_id);
}

#[test]
fn test_transaction_verification_case_1() {
    test_transaction_verification(1);
}

#[test]
fn test_transaction_verification_case_2() {
    test_transaction_verification(2);
}

#[test]
fn test_transaction_verification_case_3() {
    test_transaction_verification(3);
}

#[test]
fn test_transaction_verification_case_4() {
    test_transaction_verification(4);
}

#[test]
fn test_transaction_verification_case_5() {
    test_transaction_verification(5);
}

#[test]
fn transaction_proof_out_of_range_slot_is_unsynchronized() {
    let mut f = fixture(16, 3, 0, 1, 100);
    f.proof.header.slot = f.client.maximal_slot + 1;
    assert_eq!(
        f.client.verify_packed_transaction_proof(&f.proof),
        Err(TxVerificationError::Unsynchronized)
    );
    f.proof.header.slot = f.client.minimal_slot - 1;
    assert_eq!(
        f.client.verify_packed_transaction_proof(&f.proof),
        Err(TxVerificationError::Unsynchronized)
    );
}

#[test]
fn transaction_proof_tampered_header_fails_mmr() {
    let mut f = fixture(16, 3, 0, 1, 100);
    f.proof.header.proposer_index += 1;
    assert_eq!(
        f.client.verify_packed_transaction_proof(&f.proof),
        Err(TxVerificationError::HeaderMmrProof)
    );
}

#[test]
fn transaction_proof_tampered_client_root_fails_mmr() {
    let mut f = fixture(16, 3, 0, 1, 100);
    f.client.headers_mmr_root[0] ^= 1;
    assert_eq!(
        f.client.verify_packed_transaction_proof(&f.proof),
        Err(TxVerificationError::HeaderMmrProof)
    );
}

#[test]
fn tampered_transaction_fails_ssz() {
    let mut f = fixture(16, 3, 2, 4, 100);
    f.payload.transaction[10] ^= 0x40;
    assert_eq!(
        f.proof.verify_packed_payload(&f.payload),
        Err(TxVerificationError::TransactionSszProof)
    );
}

#[test]
fn transaction_index_mismatch_fails_ssz() {
    let mut f = fixture(16, 3, 2, 4, 100);
    f.proof.transaction_index = 3;
    assert_eq!(
        f.proof.verify_transaction(&f.payload.transaction),
        Err(TxVerificationError::TransactionSszProof)
    );
}

#[test]
fn tampered_receipt_fails_mpt() {
    let mut f = fixture(16, 3, 2, 4, 100);
    f.payload.receipt[5] ^= 0x01;
    assert_eq!(
        f.proof.verify_packed_payload(&f.payload),
        Err(TxVerificationError::ReceiptMptProof)
    );
}

#[test]
fn tampered_receipts_root_proof_fails_ssz() {
    let mut f = fixture(16, 3, 2, 4, 100);
    f.proof.receipts_root_ssz_proof[1][0] ^= 0x01;
    assert_eq!(
        f.proof.verify_receipt(&f.payload.receipt),
        Err(TxVerificationError::ReceiptsRootSszProof)
    );
}

#[test]
fn receipt_of_large_index_verifies() {
    let f = fixture(4, 1, 300, 301, 8);
    assert_eq!(f.proof.verify_receipt(&f.payload.receipt), Ok(()));
}

#[test]
fn transaction_proof_unpack_rejects_truncated_bytes() {
    let f = fixture(8, 2, 1, 2, 10);
    let packed = f.proof.pack();
    assert_eq!(TransactionProof::unpack(&packed[..packed.len() - 1]), None);
    let mut bad = packed.clone();
    bad[0] ^= 1;
    assert_eq!(TransactionProof::unpack(&bad), None);
}

fn keccak(data: &[u8]) -> Hash {
    let mut hasher = sha3::Keccak256::new();
    hasher.update(data);
    hasher.finalize().into()
}

#[test]
fn malformed_trie_node_fails_mpt_without_fault() {
    let mut f = fixture(4, 1, 0, 1, 8);
    let nodes: Vec<Vec<u8>> = vec![
        vec![0xc2, 0x45, 0x01],
        vec![0xc2, 0x80, 0x01],
        {
            let mut n = vec![0xa0];
            n.extend([7u8; 32]);
            n.push(0);
            n
        },
    ];
    for node in nodes {
        f.proof.receipts_root = keccak(&node);
        f.proof.receipt_mpt_proof = vec![node];
        assert_eq!(
            f.proof.verify_receipt(&f.payload.receipt),
            Err(TxVerificationError::ReceiptMptProof)
        );
    }
}

#[test]
fn oversized_transaction_is_other() {
    let f = fixture(4, 1, 0, 1, 8);
    let tx = vec![0u8; (1 << 30) + 1];
    assert_eq!(
        f.proof.verify_transaction(&tx),
        Err(TxVerificationError::Other)
    );
}
