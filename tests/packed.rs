use eth_light_client_verification::header::{header_tree_root, FinalityUpdate, Header};
use eth_light_client_verification::types::{Client, TransactionPayload};
use sha2::{Digest, Sha256};

fn sample_header() -> Header {
    Header {
        slot: 0x0102_0304_0506_0708,
        proposer_index: 513,
        parent_root: [0x11; 32],
        state_root: [0x22; 32],
        body_root: [0x33; 32],
    }
}

#[test]
fn header_pack_layout() {
    let bytes = sample_header().pack();
    assert_eq!(bytes.len(), 112);
    assert_eq!(&bytes[..8], &[8, 7, 6, 5, 4, 3, 2, 1]);
    assert_eq!(&bytes[8..16], &[1, 2, 0, 0, 0, 0, 0, 0]);
    assert_eq!(&bytes[16..48], &[0x11; 32]);
    assert_eq!(&bytes[48..80], &[0x22; 32]);
    assert_eq!(&bytes[80..112], &[0x33; 32]);
}

#[test]
fn header_round_trip() {
    let h = sample_header();
    assert_eq!(Header::unpack(&h.pack()), Some(h));
    assert_eq!(Header::unpack(&Header::empty().pack()), Some(Header::empty()));
}

#[test]
fn header_unpack_rejects_wrong_length() {
    let bytes = sample_header().pack();
    assert_eq!(Header::unpack(&bytes[..111]), None);
    let mut longer = bytes.clone();
    longer.push(0);
    assert_eq!(Header::unpack(&longer), None);
}

#[test]
fn client_round_trip() {
    let c = Client {
        minimal_slot: 100,
        maximal_slot: u64::MAX,
        tip_valid_header_root: [0xab; 32],
        headers_mmr_root: [0xcd; 32],
    };
    let bytes = c.pack();
    assert_eq!(bytes.len(), 80);
    assert_eq!(&bytes[..8], &[100, 0, 0, 0, 0, 0, 0, 0]);
    assert_eq!(&bytes[8..16], &[0xff; 8]);
    assert_eq!(Client::unpack(&bytes), Some(c));
    assert_eq!(Client::unpack(&bytes[1..]), None);
}

#[test]
fn finality_update_round_trip() {
    let u = FinalityUpdate {
        finalized_header: sample_header(),
    };
    let bytes = u.pack();
    assert_eq!(bytes.len(), 120);
    assert_eq!(&bytes[..8], &[120, 0, 0, 0, 8, 0, 0, 0]);
    assert_eq!(FinalityUpdate::unpack(&bytes), Some(u));
    let mut bad = bytes.clone();
    bad[4] = 12;
    assert_eq!(FinalityUpdate::unpack(&bad), None);
}

#[test]
fn payload_round_trip() {
    let p = TransactionPayload {
        transaction: vec![1, 2, 3],
        receipt: vec![9; 5],
    };
    let bytes = p.pack();
    assert_eq!(
        bytes,
        vec![
            28, 0, 0, 0, 12, 0, 0, 0, 19, 0, 0, 0, 3, 0, 0, 0, 1, 2, 3, 5, 0, 0, 0, 9, 9, 9, 9, 9
        ]
    );
    assert_eq!(TransactionPayload::unpack(&bytes), Some(p));
}

#[test]
fn payload_round_trip_empty_fields() {
    let p = TransactionPayload {
        transaction: Vec::new(),
        receipt: Vec::new(),
    };
    let bytes = p.pack();
    assert_eq!(bytes.len(), 20);
    assert_eq!(TransactionPayload::unpack(&bytes), Some(p));
}

#[test]
fn payload_unpack_rejects_bad_offsets() {
    let p = TransactionPayload {
        transaction: vec![1, 2, 3],
        receipt: vec![9; 5],
    };
    let mut bytes = p.pack();
    bytes[8] = 20;
    assert_eq!(TransactionPayload::unpack(&bytes), None);
    assert_eq!(TransactionPayload::unpack(&[4, 0, 0, 0]), None);
}

fn sha_pair(a: &[u8; 32], b: &[u8; 32]) -> [u8; 32] {
    let mut hasher = Sha256::new();
    hasher.update(a);
    hasher.update(b);
    hasher.finalize().into()
}

#[test]
fn empty_header_root_is_zero_tree_of_eight_chunks() {
    let z0 = [0u8; 32];
    let z1 = sha_pair(&z0, &z0);
    let z2 = sha_pair(&z1, &z1);
    let z3 = sha_pair(&z2, &z2);
    assert_eq!(header_tree_root(&Header::empty()), z3);
}

#[test]
fn header_digest_covers_root_slot_and_proposer() {
    let h = sample_header();
    let cache = h.calc_cache();
    let mut hasher = Sha256::new();
    hasher.update(header_tree_root(&h));
    hasher.update(h.slot.to_le_bytes());
    hasher.update(h.proposer_index.to_le_bytes());
    let expected: [u8; 32] = hasher.finalize().into();
    assert_eq!(cache.digest, expected);
    assert_eq!(cache.root, header_tree_root(&h));
    assert_eq!(cache.inner, h);
}
