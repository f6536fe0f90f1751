use ckb_merkle_mountain_range::util::MemStore;
use ckb_merkle_mountain_range::{leaf_index_to_pos, MMR};
use eth_light_client_verification::error::ProofUpdateError;
use eth_light_client_verification::header::{header_tree_root, FinalityUpdate, Header};
use eth_light_client_verification::mmr::MergeDigest;
use eth_light_client_verification::types::{Client, ProofUpdate};

const CASE_2_EMPTY_HEADER_INDEX: usize = 47;
const FIRST_SLOT: u64 = 6_209_536;

type Hash = [u8; 32];

fn filler(tag: u64, k: u64) -> Hash {
    let mut h = [0u8; 32];
    h[..8].copy_from_slice(&tag.to_le_bytes());
    h[8..16].copy_from_slice(&k.to_le_bytes());
    h[31] = 0xa5;
    h
}

/// Headers of consecutive slots; the given indices are skipped slots.
fn chain(count: usize, empty: &[usize]) -> Vec<Header> {
    let mut parent = filler(9, 9);
    let mut headers = Vec::new();
    for k in 0..count {
        if empty.contains(&k) {
            headers.push(Header::empty());
            continue;
        }
        let h = Header {
            slot: FIRST_SLOT + k as u64,
            proposer_index: 1000 + k as u64,
            parent_root: parent,
            state_root: filler(1, k as u64),
            body_root: filler(2, k as u64),
        };
        parent = header_tree_root(&h);
        headers.push(h);
    }
    headers
}

fn case_headers(case_id: usize) -> Vec<Header> {
    if case_id == 1 {
        chain(64, &[])
    } else {
        chain(96, &[CASE_2_EMPTY_HEADER_INDEX, 70, 71, 72])
    }
}

fn last_valid_root(headers: &[Header]) -> Option<Hash> {
    headers.iter().rev().find(|h| !h.is_empty()).map(header_tree_root)
}

fn proof_update_of(root: Hash, proof: Vec<Hash>, headers: &[Header]) -> ProofUpdate {
    ProofUpdate {
        new_headers_mmr_root: root,
        new_headers_mmr_proof: proof,
        updates: headers
            .iter()
            .map(|h| FinalityUpdate { finalized_header: *h })
            .collect(),
    }
}

/// Builds a batch for `headers` alone, with its range root and proof.
fn new_batch(headers: &[Header]) -> (ProofUpdate, Hash) {
    let store = MemStore::default();
    let mut mmr = MMR::<Hash, MergeDigest, _>::new(0, &store);
    let mut positions = Vec::new();
    for (k, h) in headers.iter().enumerate() {
        mmr.push(h.calc_cache().digest).unwrap();
        positions.push(leaf_index_to_pos(k as u64));
    }
    let root = mmr.get_root().unwrap();
    let proof = mmr.gen_proof(positions).unwrap().proof_items().to_vec();
    (proof_update_of(root, proof, headers), root)
}

#[derive(Default)]
struct NewClientParameter {
    case_id: usize,
    skipped_count_opt: Option<usize>,
    total_count_opt: Option<usize>,
}

fn new_client(param: NewClientParameter) {
    let mut headers = case_headers(param.case_id);
    if let Some(total_count) = param.total_count_opt {
        headers.truncate(total_count);
    }
    let headers = headers
        .split_off(param.skipped_count_opt.unwrap_or(0));
    let (pu, root) = new_batch(&headers);
    let minimal_slot = headers[0].slot;
    let expected = Client {
        minimal_slot,
        maximal_slot: minimal_slot + headers.len() as u64 - 1,
        tip_valid_header_root: last_valid_root(&headers).unwrap(),
        headers_mmr_root: root,
    };
    let packed_proof_update = pu.pack();
    let decoded = ProofUpdate::unpack(&packed_proof_update).unwrap();
    assert_eq!(decoded, pu);
    let result = Client::new_from_packed_proof_update(&decoded);
    assert!(result.is_ok(), "failed to create client from proof update");
    let actual_packed_client = result.unwrap().pack();
    assert_eq!(actual_packed_client, expected.pack());
}

#[test]
fn new_client_case_1_no_empty() {
    new_client(NewClientParameter {
        case_id: 1,
        ..Default::default()
    });
}

#[test]
#[should_panic(expected = "failed to create client from proof update")]
fn new_client_case_2_empty_at_the_start_of_updates() {
    new_client(NewClientParameter {
        case_id: 2,
        skipped_count_opt: Some(CASE_2_EMPTY_HEADER_INDEX),
        ..Default::default()
    });
}

#[test]
fn new_client_case_2_empty_at_the_middle_of_updates() {
    new_client(NewClientParameter {
        case_id: 2,
        ..Default::default()
    });
}

#[test]
fn new_client_case_2_empty_at_the_end_of_updates() {
    new_client(NewClientParameter {
        case_id: 2,
        total_count_opt: Some(CASE_2_EMPTY_HEADER_INDEX + 1),
        ..Default::default()
    });
}

#[derive(Default)]
struct ProofUpdateParameter {
    case_id: usize,
    total_count_opt: Option<usize>,
    split_at_opt: Option<usize>,
}

/// A client over the first part and a batch that extends it by the second.
fn split_batch(param: &ProofUpdateParameter) -> (Client, ProofUpdate, Vec<Header>) {
    let mut headers = case_headers(param.case_id);
    if let Some(total_count) = param.total_count_opt {
        headers.truncate(total_count);
    }
    let split_at = param.split_at_opt.unwrap_or(headers.len() / 2);
    let part2 = headers.split_off(split_at);
    let part1 = headers;

    let store = MemStore::default();
    let mut mmr = MMR::<Hash, MergeDigest, _>::new(0, &store);
    for h in &part1 {
        mmr.push(h.calc_cache().digest).unwrap();
    }
    let client = Client {
        minimal_slot: part1[0].slot,
        maximal_slot: part1[0].slot + part1.len() as u64 - 1,
        tip_valid_header_root: last_valid_root(&part1).unwrap(),
        headers_mmr_root: mmr.get_root().unwrap(),
    };
    let mut positions = Vec::new();
    for (k, h) in part2.iter().enumerate() {
        positions.push(leaf_index_to_pos((part1.len() + k) as u64));
        mmr.push(h.calc_cache().digest).unwrap();
    }
    let root = mmr.get_root().unwrap();
    let proof = mmr.gen_proof(positions).unwrap().proof_items().to_vec();
    (client, proof_update_of(root, proof, &part2), part2)
}

fn proof_update(param: ProofUpdateParameter) {
    let (client, pu, part2) = split_batch(&param);
    let pu = ProofUpdate::unpack(&pu.pack()).unwrap();
    let result = client.try_apply_packed_proof_update(&pu);
    assert!(result.is_ok(), "failed to update the proof in client");
    let updated = result.unwrap();
    assert_eq!(updated.minimal_slot, client.minimal_slot);
    assert_eq!(updated.maximal_slot, client.maximal_slot + part2.len() as u64);
    assert_eq!(updated.headers_mmr_root, pu.new_headers_mmr_root);
    let tip = last_valid_root(&part2).unwrap_or(client.tip_valid_header_root);
    assert_eq!(updated.tip_valid_header_root, tip);
}

#[test]
fn proof_update_case_1_no_empty() {
    proof_update(ProofUpdateParameter {
        case_id: 1,
        ..Default::default()
    });
}

#[test]
fn proof_update_case_2_empty_client() {
    proof_update(ProofUpdateParameter {
        case_id: 2,
        split_at_opt: Some(CASE_2_EMPTY_HEADER_INDEX + 1),
        ..Default::default()
    });
}

#[test]
fn proof_update_case_2_empty_at_the_start_of_updates() {
    proof_update(ProofUpdateParameter {
        case_id: 2,
        split_at_opt: Some(CASE_2_EMPTY_HEADER_INDEX),
        ..Default::default()
    });
}

#[test]
fn proof_update_case_2_empty_at_the_middle_of_updates() {
    proof_update(ProofUpdateParameter {
        case_id: 2,
        ..Default::default()
    });
}

#[test]
fn proof_update_case_2_empty_at_the_end_of_updates() {
    proof_update(ProofUpdateParameter {
        case_id: 2,
        total_count_opt: Some(CASE_2_EMPTY_HEADER_INDEX + 1),
        ..Default::default()
    });
}

#[test]
fn new_client_refuses_empty_batch() {
    let pu = proof_update_of([0u8; 32], Vec::new(), &[]);
    assert_eq!(
        Client::new_from_packed_proof_update(&pu),
        Err(ProofUpdateError::EmptyUpdates)
    );
}

#[test]
fn new_client_refuses_leading_empty_header() {
    let headers = case_headers(2).split_off(CASE_2_EMPTY_HEADER_INDEX);
    let (pu, _) = new_batch(&headers);
    assert_eq!(
        Client::new_from_packed_proof_update(&pu),
        Err(ProofUpdateError::NoAnchorHeader)
    );
}

#[test]
fn new_client_refuses_slot_gap() {
    let mut headers = case_headers(1);
    headers.truncate(8);
    headers[5].slot += 1;
    let (pu, _) = new_batch(&headers);
    assert_eq!(
        Client::new_from_packed_proof_update(&pu),
        Err(ProofUpdateError::UncontinuousSlot)
    );
}

#[test]
fn new_client_refuses_wrong_parent() {
    let mut headers = case_headers(1);
    headers.truncate(8);
    headers[5].parent_root[0] ^= 1;
    let (pu, _) = new_batch(&headers);
    assert_eq!(
        Client::new_from_packed_proof_update(&pu),
        Err(ProofUpdateError::UnmatchedParentRoot)
    );
}

#[test]
fn new_client_refuses_tampered_root() {
    let headers = case_headers(1);
    let (mut pu, _) = new_batch(&headers);
    pu.new_headers_mmr_root[7] ^= 0x10;
    assert_eq!(
        Client::new_from_packed_proof_update(&pu),
        Err(ProofUpdateError::HeadersMmrProof)
    );
}

#[test]
fn apply_refuses_tampered_proof_item() {
    let (client, mut pu, _) = split_batch(&ProofUpdateParameter {
        case_id: 1,
        ..Default::default()
    });
    assert!(!pu.new_headers_mmr_proof.is_empty());
    pu.new_headers_mmr_proof[0][3] ^= 0x01;
    assert_eq!(
        client.try_apply_packed_proof_update(&pu),
        Err(ProofUpdateError::HeadersMmrProof)
    );
}

#[test]
fn new_client_refuses_tampered_header_field() {
    let headers = case_headers(1);
    let (mut pu, _) = new_batch(&headers);
    let last = pu.updates.len() - 1;
    pu.updates[last].finalized_header.state_root[0] ^= 0x80;
    assert_eq!(
        Client::new_from_packed_proof_update(&pu),
        Err(ProofUpdateError::HeadersMmrProof)
    );
}

#[test]
fn new_client_single_header() {
    let headers = case_headers(1);
    let (pu, root) = new_batch(&headers[..1]);
    let client = Client::new_from_packed_proof_update(&pu).unwrap();
    assert_eq!(client.minimal_slot, FIRST_SLOT);
    assert_eq!(client.maximal_slot, FIRST_SLOT);
    assert_eq!(client.headers_mmr_root, root);
    assert_eq!(client.tip_valid_header_root, header_tree_root(&headers[0]));
}

#[test]
fn new_client_is_deterministic() {
    let headers = case_headers(2);
    let (pu, _) = new_batch(&headers);
    assert_eq!(
        Client::new_from_packed_proof_update(&pu),
        Client::new_from_packed_proof_update(&pu.clone())
    );
}

#[test]
fn apply_refuses_first_header_slot() {
    let (client, mut pu, _) = split_batch(&ProofUpdateParameter {
        case_id: 1,
        ..Default::default()
    });
    pu.updates[0].finalized_header.slot += 1;
    assert_eq!(
        client.try_apply_packed_proof_update(&pu),
        Err(ProofUpdateError::FirstHeaderSlot)
    );
}

#[test]
fn apply_refuses_first_header_parent() {
    let (mut client, pu, _) = split_batch(&ProofUpdateParameter {
        case_id: 1,
        ..Default::default()
    });
    client.tip_valid_header_root[4] ^= 2;
    assert_eq!(
        client.try_apply_packed_proof_update(&pu),
        Err(ProofUpdateError::FirstHeaderParentRoot)
    );
}

#[test]
fn apply_refuses_empty_batch() {
    let (client, mut pu, _) = split_batch(&ProofUpdateParameter {
        case_id: 1,
        ..Default::default()
    });
    pu.updates.clear();
    assert_eq!(
        client.try_apply_packed_proof_update(&pu),
        Err(ProofUpdateError::EmptyUpdates)
    );
}

#[test]
fn apply_all_empty_batch_keeps_tip() {
    let (client, pu, part2) = split_batch(&ProofUpdateParameter {
        case_id: 2,
        total_count_opt: Some(73),
        split_at_opt: Some(70),
    });
    assert!(part2.iter().all(|h| h.is_empty()));
    let updated = client.try_apply_packed_proof_update(&pu).unwrap();
    assert_eq!(updated.tip_valid_header_root, client.tip_valid_header_root);
    assert_eq!(updated.maximal_slot, client.maximal_slot + 3);
}

#[test]
fn apply_refuses_stale_client_root() {
    let (mut client, pu, _) = split_batch(&ProofUpdateParameter {
        case_id: 1,
        ..Default::default()
    });
    client.maximal_slot -= 1;
    assert_eq!(
        client.try_apply_packed_proof_update(&pu),
        Err(ProofUpdateError::FirstHeaderSlot)
    );
}

#[test]
fn proof_update_pack_layout() {
    let headers = case_headers(1);
    let (pu, _) = new_batch(&headers[..2]);
    let bytes = pu.pack();
    let total = bytes.len() as u32;
    assert_eq!(&bytes[..4], &total.to_le_bytes());
    assert_eq!(&bytes[4..8], &16u32.to_le_bytes());
    assert_eq!(&bytes[16..48], &pu.new_headers_mmr_root);
    assert_eq!(ProofUpdate::unpack(&bytes[..bytes.len() - 1]), None);
}

fn header_at(slot: u64, parent_root: Hash) -> Header {
    Header {
        slot,
        proposer_index: 7,
        parent_root,
        state_root: filler(3, slot),
        body_root: filler(4, slot),
    }
}

#[test]
fn new_client_wrong_parent_at_last_slot_is_unmatched_parent() {
    let first = header_at(u64::MAX - 1, filler(5, 5));
    let second = header_at(u64::MAX, filler(6, 6));
    let pu = proof_update_of([0u8; 32], Vec::new(), &[first, second]);
    assert_eq!(
        Client::new_from_packed_proof_update(&pu),
        Err(ProofUpdateError::UnmatchedParentRoot)
    );
}

#[test]
fn apply_first_header_wrong_parent_at_last_slot() {
    let prev = header_at(u64::MAX - 1, filler(5, 5));
    let client = Client {
        minimal_slot: u64::MAX - 10,
        maximal_slot: u64::MAX - 1,
        tip_valid_header_root: header_tree_root(&prev),
        headers_mmr_root: [1u8; 32],
    };
    let first = header_at(u64::MAX, filler(6, 6));
    let pu = proof_update_of([0u8; 32], Vec::new(), &[first, Header::empty()]);
    assert_eq!(
        client.try_apply_packed_proof_update(&pu),
        Err(ProofUpdateError::FirstHeaderParentRoot)
    );
}

#[test]
fn apply_second_header_wrong_parent_at_last_slot() {
    let prev = header_at(u64::MAX - 2, filler(5, 5));
    let client = Client {
        minimal_slot: 0,
        maximal_slot: u64::MAX - 2,
        tip_valid_header_root: header_tree_root(&prev),
        headers_mmr_root: [1u8; 32],
    };
    let first = header_at(u64::MAX - 1, header_tree_root(&prev));
    let second = header_at(u64::MAX, filler(6, 6));
    let pu = proof_update_of([0u8; 32], Vec::new(), &[first, second, Header::empty()]);
    assert_eq!(
        client.try_apply_packed_proof_update(&pu),
        Err(ProofUpdateError::UnmatchedParentRoot)
    );
}

#[test]
fn apply_past_last_slot_is_uncontinuous() {
    let prev = header_at(u64::MAX - 1, filler(5, 5));
    let client = Client {
        minimal_slot: u64::MAX - 10,
        maximal_slot: u64::MAX - 1,
        tip_valid_header_root: header_tree_root(&prev),
        headers_mmr_root: [1u8; 32],
    };
    let first = header_at(u64::MAX, header_tree_root(&prev));
    let pu = proof_update_of([0u8; 32], Vec::new(), &[first, Header::empty()]);
    assert_eq!(
        client.try_apply_packed_proof_update(&pu),
        Err(ProofUpdateError::UncontinuousSlot)
    );
}

#[test]
fn apply_too_large_range_is_other_after_chain_checks() {
    let prev = header_at(u64::MAX - 1, filler(5, 5));
    let client = Client {
        minimal_slot: 0,
        maximal_slot: u64::MAX - 1,
        tip_valid_header_root: header_tree_root(&prev),
        headers_mmr_root: [1u8; 32],
    };
    let bad = header_at(u64::MAX, filler(6, 6));
    let pu = proof_update_of([0u8; 32], Vec::new(), &[bad]);
    assert_eq!(
        client.try_apply_packed_proof_update(&pu),
        Err(ProofUpdateError::FirstHeaderParentRoot)
    );
    let good = header_at(u64::MAX, header_tree_root(&prev));
    let pu = proof_update_of([0u8; 32], Vec::new(), &[good]);
    assert_eq!(
        client.try_apply_packed_proof_update(&pu),
        Err(ProofUpdateError::Other)
    );
}
