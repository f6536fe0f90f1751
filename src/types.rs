//! The light client's committed state, the batches that create and advance
//! it, and the proofs checked against it.
//!
//! A batch covers consecutive slots, one entry each. An empty header stands
//! for a skipped slot: it carries no slot of its own and passes every chain
//! check, but still takes its leaf in the range. Every other header must
//! stand at the slot of its entry and name as parent the last non-empty
//! header before it (in the batch, else the client's tip). A new client's
//! batch must begin with a non-empty header, which fixes its first slot.
use vstd::prelude::*;

use crate::error::{ProofUpdateError, TxVerificationError};
use crate::constants::{RECEIPTS_ROOT_IN_BLOCK_BODY, TRANSACTION_IN_BLOCK_BODY, MAX_BYTES_PER_TRANSACTION};
use crate::hashing::{hash_eq, hashes_view, Hash32};
use crate::ssz::{ssz_proof_valid, transaction_list_root, transaction_root, verify_merkle_proof};
use crate::trie::{bytes_view, mpt_lookup, proof_nodes_ok, rlp_u64, verify_proof};
use crate::header::{header_digest, header_root, FinalityUpdate, Header};
use crate::mmr::{
    leaf_index_to_mmr_size, leaf_index_to_pos, leaf_pos_spec, leaves_view, mmr_proof_outcome,
    mmr_size_spec, verify_mmr_proof, MAX_LEAF_INDEX,
};

verus! {

/// The committed state: the slots `minimal_slot ..= maximal_slot`, one
/// range leaf each, under `headers_mmr_root`; `tip_valid_header_root` is
/// the root of the last non-empty header among them.
#[derive(Clone, Copy, Debug, PartialEq, Eq)]
pub struct Client {
    pub minimal_slot: u64,
    pub maximal_slot: u64,
    pub tip_valid_header_root: Hash32,
    pub headers_mmr_root: Hash32,
}

/// A batch of headers for the slots that follow a range, and a proof that
/// the extended range has the root `new_headers_mmr_root`.
#[derive(Clone, Debug, PartialEq, Eq)]
pub struct ProofUpdate {
    pub new_headers_mmr_root: Hash32,
    pub new_headers_mmr_proof: Vec<Hash32>,
    pub updates: Vec<FinalityUpdate>,
}

/// A proof that the transaction of index `transaction_index` in the block
/// of `header`, and its receipt, are in the chain: the header in the
/// client's range, the transaction and the receipts root under the body
/// root, the receipt under the receipts root.
#[derive(Clone, Debug, PartialEq, Eq)]
pub struct TransactionProof {
    pub header: Header,
    pub transaction_index: u64,
    pub receipts_root: Hash32,
    pub header_mmr_proof: Vec<Hash32>,
    pub transaction_ssz_proof: Vec<Hash32>,
    pub receipt_mpt_proof: Vec<Vec<u8>>,
    pub receipts_root_ssz_proof: Vec<Hash32>,
}

/// The transaction and the receipt whose inclusion a proof shows.
#[derive(Clone, Debug, PartialEq, Eq)]
pub struct TransactionPayload {
    pub transaction: Vec<u8>,
    pub receipt: Vec<u8>,
}

impl Client {
    /// The range is not empty.
    pub open spec fn wf(self) -> bool {
        self.minimal_slot <= self.maximal_slot
    }
}

/// The headers of a batch, in order.
pub open spec fn headers_of(updates: Seq<FinalityUpdate>) -> Seq<Header> {
    updates.map_values(|u: FinalityUpdate| u.finalized_header)
}

pub open spec fn opt_hash_view(o: Option<Hash32>) -> Option<Seq<u8>> {
    match o {
        Some(h) => Some(h@),
        None => None,
    }
}

/// The last non-empty header of `hs`.
pub open spec fn last_anchor(hs: Seq<Header>) -> Option<Header>
    decreases hs.len(),
{
    if hs.len() == 0 {
        None
    } else if !hs.last().is_empty_spec() {
        Some(hs.last())
    } else {
        last_anchor(hs.drop_last())
    }
}

/// The tip after `hs`: the root of its last non-empty header, else `tip0`.
pub open spec fn tip_after(tip0: Option<Seq<u8>>, hs: Seq<Header>) -> Option<Seq<u8>> {
    match last_anchor(hs) {
        Some(h) => Some(header_root(h)),
        None => tip0,
    }
}

/// The check of one entry that stands at `slot` after the tip `tip`: the
/// slot must exist; an empty header then passes; another must have that
/// slot and that parent. `first` marks the first entry of a batch applied to
/// a client.
pub open spec fn entry_error(h: Header, slot: int, tip: Option<Seq<u8>>, first: bool) -> Option<
    ProofUpdateError,
> {
    if slot > u64::MAX {
        Some(
            if first {
                ProofUpdateError::FirstHeaderSlot
            } else {
                ProofUpdateError::UncontinuousSlot
            },
        )
    } else if h.is_empty_spec() {
        None
    } else if h.slot != slot {
        Some(
            if first {
                ProofUpdateError::FirstHeaderSlot
            } else {
                ProofUpdateError::UncontinuousSlot
            },
        )
    } else {
        match tip {
            Some(t) => if h.parent_root@ != t {
                Some(
                    if first {
                        ProofUpdateError::FirstHeaderParentRoot
                    } else {
                        ProofUpdateError::UnmatchedParentRoot
                    },
                )
            } else {
                None
            },
            None => None,
        }
    }
}

/// The first failing entry check of a batch whose first entry stands at
/// slot `start` after the tip `tip0`.
pub open spec fn scan_error(hs: Seq<Header>, start: int, tip0: Option<Seq<u8>>, apply: bool) -> Option<
    ProofUpdateError,
>
    decreases hs.len(),
{
    if hs.len() == 0 {
        None
    } else {
        let init = hs.drop_last();
        match scan_error(init, start, tip0, apply) {
            Some(e) => Some(e),
            None => entry_error(
                hs.last(),
                start + init.len(),
                tip_after(tip0, init),
                apply && init.len() == 0,
            ),
        }
    }
}

/// The range leaves of a batch whose first entry has leaf index `base`.
pub open spec fn batch_leaves(hs: Seq<Header>, base: nat) -> Seq<(u64, Seq<u8>)> {
    Seq::new(hs.len(), |k: int| ((leaf_pos_spec((base + k) as nat)) as u64, header_digest(hs[k])))
}

/// The error that a range proof's outcome gives.
pub open spec fn mmr_error(o: Option<bool>) -> Option<ProofUpdateError> {
    match o {
        None => Some(ProofUpdateError::Other),
        Some(false) => Some(ProofUpdateError::HeadersMmrProof),
        Some(true) => None,
    }
}

/// Why a batch cannot create a client, or `None` where it can.
pub open spec fn new_error(pu: ProofUpdate) -> Option<ProofUpdateError> {
    let hs = headers_of(pu.updates@);
    let n = hs.len();
    if n == 0 {
        Some(ProofUpdateError::EmptyUpdates)
    } else if hs[0].is_empty_spec() {
        Some(ProofUpdateError::NoAnchorHeader)
    } else {
        match scan_error(hs, hs[0].slot as int, None, false) {
            Some(e) => Some(e),
            None => if n - 1 > MAX_LEAF_INDEX {
                Some(ProofUpdateError::Other)
            } else {
                mmr_error(
                mmr_proof_outcome(
                    mmr_size_spec((n - 1) as nat) as u64,
                    hashes_view(pu.new_headers_mmr_proof@),
                    pu.new_headers_mmr_root@,
                    batch_leaves(hs, 0),
                ),
                )
            },
        }
    }
}

/// What creating a client from `pu` gives: the error of [`new_error`], or
/// the client of the batch's slots, its last non-empty header as tip and
/// the batch's root.
pub open spec fn new_result_spec(pu: ProofUpdate, r: Result<Client, ProofUpdateError>) -> bool {
    let hs = headers_of(pu.updates@);
    match r {
        Ok(c) => {
            &&& new_error(pu).is_none()
            &&& c.minimal_slot == hs[0].slot
            &&& c.maximal_slot == hs[0].slot + hs.len() - 1
            &&& tip_after(None, hs) == Some(c.tip_valid_header_root@)
            &&& c.headers_mmr_root == pu.new_headers_mmr_root
        },
        Err(e) => new_error(pu) == Some(e),
    }
}

/// Why a batch cannot advance the client `c`, or `None` where it can.
pub open spec fn apply_error(c: Client, pu: ProofUpdate) -> Option<ProofUpdateError> {
    let hs = headers_of(pu.updates@);
    let n = hs.len();
    if n == 0 {
        Some(ProofUpdateError::EmptyUpdates)
    } else {
        match scan_error(
            hs,
            c.maximal_slot + 1,
            Some(c.tip_valid_header_root@),
            true,
        ) {
            Some(e) => Some(e),
            None => if c.maximal_slot - c.minimal_slot + n > MAX_LEAF_INDEX {
                Some(ProofUpdateError::Other)
            } else {
                mmr_error(
                mmr_proof_outcome(
                    mmr_size_spec((c.maximal_slot - c.minimal_slot + n) as nat) as u64,
                    hashes_view(pu.new_headers_mmr_proof@),
                    pu.new_headers_mmr_root@,
                    batch_leaves(hs, (c.maximal_slot - c.minimal_slot + 1) as nat),
                ),
                )
            },
        }
    }
}

/// What advancing `c` by `pu` gives: the error of [`apply_error`], or the
/// client with the same first slot, `len` more slots, the batch's last
/// non-empty header (else the old tip) as tip, and the batch's root.
pub open spec fn apply_result_spec(c: Client, pu: ProofUpdate, r: Result<Client, ProofUpdateError>) -> bool {
    let hs = headers_of(pu.updates@);
    match r {
        Ok(d) => {
            &&& apply_error(c, pu).is_none()
            &&& d.minimal_slot == c.minimal_slot
            &&& d.maximal_slot == c.maximal_slot + hs.len()
            &&& tip_after(Some(c.tip_valid_header_root@), hs) == Some(d.tip_valid_header_root@)
            &&& d.headers_mmr_root == pu.new_headers_mmr_root
        },
        Err(e) => apply_error(c, pu) == Some(e),
    }
}

/// The outcome of the range proof that the header `h` stands in `c`'s range,
/// `None` where the header lies past the range, the range is too large or
/// the proof malformed.
pub open spec fn header_proof_outcome(c: Client, h: Header, proof: Seq<Hash32>) -> Option<bool> {
    if h.slot > c.maximal_slot || c.maximal_slot - c.minimal_slot > MAX_LEAF_INDEX {
        None
    } else {
        mmr_proof_outcome(
            mmr_size_spec((c.maximal_slot - c.minimal_slot) as nat) as u64,
            hashes_view(proof),
            c.headers_mmr_root@,
            seq![((leaf_pos_spec((h.slot - c.minimal_slot) as nat)) as u64, header_digest(h))],
        )
    }
}

/// Why the header of `tp` is not shown in `c`'s range, or `None` where it is.
pub open spec fn header_error(c: Client, tp: TransactionProof) -> Option<TxVerificationError> {
    if tp.header.slot < c.minimal_slot || tp.header.slot > c.maximal_slot {
        Some(TxVerificationError::Unsynchronized)
    } else {
        match header_proof_outcome(c, tp.header, tp.header_mmr_proof@) {
            None => Some(TxVerificationError::Other),
            Some(false) => Some(TxVerificationError::HeaderMmrProof),
            Some(true) => None,
        }
    }
}

/// Why `tx` is not shown as transaction `tp.transaction_index` of the
/// block, or `None` where it is.
pub open spec fn transaction_error(tp: TransactionProof, tx: Seq<u8>) -> Option<TxVerificationError> {
    if tx.len() > MAX_BYTES_PER_TRANSACTION {
        Some(TxVerificationError::Other)
    } else if tp.transaction_index + TRANSACTION_IN_BLOCK_BODY > u64::MAX || !ssz_proof_valid(
        tp.header.body_root@,
        transaction_list_root(tx),
        hashes_view(tp.transaction_ssz_proof@),
        (tp.transaction_index + TRANSACTION_IN_BLOCK_BODY) as nat,
    ) {
        Some(TxVerificationError::TransactionSszProof)
    } else {
        None
    }
}

/// Why `receipt` is not shown as the receipt of the transaction, or `None`
/// where it is. A trie proof with a node of another shape than a trie
/// lookup reads shows nothing.
pub open spec fn receipt_error(tp: TransactionProof, receipt: Seq<u8>) -> Option<TxVerificationError> {
    if !proof_nodes_ok(bytes_view(tp.receipt_mpt_proof@)) || mpt_lookup(
        bytes_view(tp.receipt_mpt_proof@),
        tp.receipts_root@,
        rlp_u64(tp.transaction_index),
    ) != Some(receipt) {
        Some(TxVerificationError::ReceiptMptProof)
    } else if !ssz_proof_valid(
        tp.header.body_root@,
        tp.receipts_root@,
        hashes_view(tp.receipts_root_ssz_proof@),
        RECEIPTS_ROOT_IN_BLOCK_BODY as nat,
    ) {
        Some(TxVerificationError::ReceiptsRootSszProof)
    } else {
        None
    }
}

/// The outcome that an optional error stands for.
pub open spec fn as_result(e: Option<TxVerificationError>) -> Result<(), TxVerificationError> {
    match e {
        Some(e) => Err(e),
        None => Ok(()),
    }
}

/// A non-empty header makes the last non-empty header exist.
proof fn lemma_anchor_exists(hs: Seq<Header>, k: int)
    requires
        0 <= k < hs.len(),
        !hs[k].is_empty_spec(),
    ensures
        last_anchor(hs).is_some(),
    decreases hs.len(),
{
    if k < hs.len() - 1 {
        lemma_anchor_exists(hs.drop_last(), k);
    }
}

/// A batch that passes its checks has each non-empty header at its slot.
proof fn lemma_scan_slots(hs: Seq<Header>, start: int, tip0: Option<Seq<u8>>, apply: bool)
    requires
        scan_error(hs, start, tip0, apply).is_none(),
    ensures
        forall|k: int| 0 <= k < hs.len() && !(#[trigger] hs[k]).is_empty_spec() ==> hs[k].slot == start + k,
        hs.len() > 0 ==> start + hs.len() - 1 <= u64::MAX,
    decreases hs.len(),
{
    if hs.len() > 0 {
        let init = hs.drop_last();
        lemma_scan_slots(init, start, tip0, apply);
        assert forall|k: int| 0 <= k < hs.len() && !(#[trigger] hs[k]).is_empty_spec() implies hs[k].slot
            == start + k by {
            if k < init.len() {
                assert(init[k] == hs[k]);
            }
        }
    }
}

/// A failing prefix decides the first failure of the whole batch.
proof fn lemma_scan_error_prefix(
    hs: Seq<Header>,
    j: int,
    start: int,
    tip0: Option<Seq<u8>>,
    apply: bool,
)
    requires
        0 <= j <= hs.len(),
        scan_error(hs.subrange(0, j), start, tip0, apply).is_some(),
    ensures
        scan_error(hs, start, tip0, apply) == scan_error(hs.subrange(0, j), start, tip0, apply),
    decreases hs.len(),
{
    if j == hs.len() {
        assert(hs.subrange(0, j) =~= hs);
    } else {
        let init = hs.drop_last();
        assert(init.subrange(0, j) =~= hs.subrange(0, j));
        lemma_scan_error_prefix(init, j, start, tip0, apply);
    }
}

/// Checks the entries of a batch in one pass and collects their range
/// leaves, the first at leaf index `base`, and the tip after them.
fn scan_updates(
    updates: &Vec<FinalityUpdate>,
    start: u128,
    tip0: Option<Hash32>,
    base: u64,
    apply: bool,
) -> (r: Result<(Vec<(u64, Hash32)>, Option<Hash32>), ProofUpdateError>)
    requires
        updates@.len() >= 1,
        start <= u64::MAX + 1,
    ensures
        ({
            let hs = headers_of(updates@);
            let err = scan_error(hs, start as int, opt_hash_view(tip0), apply);
            match r {
                Ok((leaves, tip)) => {
                    &&& err.is_none()
                    &&& start + hs.len() - 1 <= u64::MAX
                    &&& base + hs.len() - 1 <= MAX_LEAF_INDEX ==> leaves_view(leaves@)
                        == batch_leaves(hs, base as nat)
                    &&& opt_hash_view(tip) == tip_after(opt_hash_view(tip0), hs)
                },
                Err(e) => err == Some(e),
            }
        }),
{
    let ghost hs = headers_of(updates@);
    let ghost t0 = opt_hash_view(tip0);
    let mut leaves: Vec<(u64, Hash32)> = Vec::new();
    let mut tip: Option<Hash32> = tip0;
    let mut i: usize = 0;
    assert(hs.subrange(0, 0) =~= Seq::<Header>::empty());
    assert(leaves_view(leaves@) =~= batch_leaves(hs.subrange(0, 0), base as nat));
    while i < updates.len()
        invariant
            i <= updates@.len(),
            hs == headers_of(updates@),
            t0 == opt_hash_view(tip0),
            updates@.len() >= 1,
            start <= u64::MAX + 1,
            i > 0 ==> start + i - 1 <= u64::MAX,
            scan_error(hs.subrange(0, i as int), start as int, t0, apply).is_none(),
            leaves@.len() == i,
            base + updates@.len() - 1 <= MAX_LEAF_INDEX ==> leaves_view(leaves@) == batch_leaves(
                hs.subrange(0, i as int),
                base as nat,
            ),
            opt_hash_view(tip) == tip_after(t0, hs.subrange(0, i as int)),
        decreases updates@.len() - i,
    {
        let h = updates[i].finalized_header;
        let ghost pre = hs.subrange(0, i as int);
        let ghost next = hs.subrange(0, i + 1);
        assert(next.drop_last() =~= pre);
        assert(hs[i as int] == h);
        assert(next.last() == h);
        let cache = h.calc_cache();
        let index = i as u64;
        let pos = if index <= MAX_LEAF_INDEX && base <= MAX_LEAF_INDEX - index {
            leaf_index_to_pos(base + index)
        } else {
            0
        };
        let slot: u128 = start + i as u128;
        if slot > u64::MAX as u128 {
            proof {
                lemma_scan_error_prefix(hs, i + 1, start as int, t0, apply);
            }
            return Err(
                if apply && i == 0 {
                    ProofUpdateError::FirstHeaderSlot
                } else {
                    ProofUpdateError::UncontinuousSlot
                },
            );
        }
        if !h.is_empty() {
            if h.slot as u128 != slot {
                proof {
                    lemma_scan_error_prefix(hs, i + 1, start as int, t0, apply);
                }
                return Err(
                    if apply && i == 0 {
                        ProofUpdateError::FirstHeaderSlot
                    } else {
                        ProofUpdateError::UncontinuousSlot
                    },
                );
            }
            match tip {
                Some(t) => {
                    if !hash_eq(&t, &h.parent_root) {
                        proof {
                            lemma_scan_error_prefix(hs, i + 1, start as int, t0, apply);
                        }
                        return Err(
                            if apply && i == 0 {
                                ProofUpdateError::FirstHeaderParentRoot
                            } else {
                                ProofUpdateError::UnmatchedParentRoot
                            },
                        );
                    }
                },
                None => {},
            }
            tip = Some(cache.root);
        }
        let ghost old_leaves = leaves@;
        leaves.push((pos, cache.digest));
        assert(leaves@ == old_leaves.push((pos, cache.digest)));
        proof {
        if base + updates@.len() - 1 <= MAX_LEAF_INDEX {
        assert(leaves_view(leaves@).len() == i + 1);
        assert(leaves_view(leaves@)[i as int] == (pos, cache.digest@));
        assert(batch_leaves(next, base as nat)[i as int] == (pos, header_digest(h)));
        assert forall|k: int| 0 <= k < i + 1 implies #[trigger] leaves_view(leaves@)[k] == batch_leaves(
            next,
            base as nat,
        )[k] by {
            if k < i {
                assert(leaves_view(old_leaves)[k] == batch_leaves(pre, base as nat)[k]);
            }
        }
        assert(leaves_view(leaves@) =~= batch_leaves(next, base as nat));
        }
        }
        i += 1;
    }
    assert(hs.subrange(0, i as int) =~= hs);
    Ok((leaves, tip))
}

impl Client {
    /// Creates a client from a batch of headers and a proof of the range
    /// that they make.
    pub fn new_from_packed_proof_update(pu: &ProofUpdate) -> (r: Result<Client, ProofUpdateError>)
        ensures
            new_result_spec(*pu, r),
            r matches Ok(c) ==> c.wf(),
            r matches Ok(c) ==> forall|k: int|
                0 <= k < pu.updates@.len() && !(#[trigger] pu.updates@[k]).finalized_header.is_empty_spec()
                    ==> pu.updates@[k].finalized_header.slot == c.minimal_slot + k,
    {
        let ghost hs = headers_of(pu.updates@);
        let n = pu.updates.len();
        if n == 0 {
            return Err(ProofUpdateError::EmptyUpdates);
        }
        let first = pu.updates[0].finalized_header;
        assert(hs[0] == first);
        if first.is_empty() {
            return Err(ProofUpdateError::NoAnchorHeader);
        }
        let minimal_slot = first.slot;
        let count = (n - 1) as u64;
        let (leaves, tip) = match scan_updates(&pu.updates, minimal_slot as u128, None, 0, false) {
            Ok(found) => found,
            Err(e) => {
                return Err(e);
            },
        };
        if count > MAX_LEAF_INDEX {
            return Err(ProofUpdateError::Other);
        }
        let maximal_slot = minimal_slot + count;
        let mmr_size = leaf_index_to_mmr_size(count);
        match verify_mmr_proof(mmr_size, &pu.new_headers_mmr_proof, &pu.new_headers_mmr_root, leaves) {
            None => {
                return Err(ProofUpdateError::Other);
            },
            Some(false) => {
                return Err(ProofUpdateError::HeadersMmrProof);
            },
            Some(true) => {},
        }
        proof {
            lemma_anchor_exists(hs, 0);
            lemma_scan_slots(hs, minimal_slot as int, None, false);
            assert forall|k: int|
                0 <= k < pu.updates@.len() && !(#[trigger] pu.updates@[k]).finalized_header.is_empty_spec()
                    implies pu.updates@[k].finalized_header.slot == minimal_slot + k by {
                assert(hs[k] == pu.updates@[k].finalized_header);
            }
        }
        let tip_valid_header_root = match tip {
            Some(t) => t,
            None => {
                return Err(ProofUpdateError::NoAnchorHeader);
            },
        };
        Ok(Client {
            minimal_slot,
            maximal_slot,
            tip_valid_header_root,
            headers_mmr_root: pu.new_headers_mmr_root,
        })
    }

    /// Advances the client by a batch of headers for the slots that follow
    /// its range, and a proof of the extended range.
    pub fn try_apply_packed_proof_update(&self, pu: &ProofUpdate) -> (r: Result<Client, ProofUpdateError>)
        requires
            self.wf(),
        ensures
            apply_result_spec(*self, *pu, r),
            r matches Ok(c) ==> c.wf(),
            r matches Ok(c) ==> forall|k: int|
                0 <= k < pu.updates@.len() && !(#[trigger] pu.updates@[k]).finalized_header.is_empty_spec()
                    ==> pu.updates@[k].finalized_header.slot == self.maximal_slot + 1 + k,
    {
        let n = pu.updates.len();
        if n == 0 {
            return Err(ProofUpdateError::EmptyUpdates);
        }
        let count = n as u64;
        let span = self.maximal_slot - self.minimal_slot;
        let base = if span < MAX_LEAF_INDEX {
            span + 1
        } else {
            MAX_LEAF_INDEX
        };
        let (leaves, tip) = match scan_updates(
            &pu.updates,
            self.maximal_slot as u128 + 1,
            Some(self.tip_valid_header_root),
            base,
            true,
        ) {
            Ok(found) => found,
            Err(e) => {
                return Err(e);
            },
        };
        if count > MAX_LEAF_INDEX || span > MAX_LEAF_INDEX - count {
            return Err(ProofUpdateError::Other);
        }
        let mmr_size = leaf_index_to_mmr_size(span + count);
        match verify_mmr_proof(mmr_size, &pu.new_headers_mmr_proof, &pu.new_headers_mmr_root, leaves) {
            None => {
                return Err(ProofUpdateError::Other);
            },
            Some(false) => {
                return Err(ProofUpdateError::HeadersMmrProof);
            },
            Some(true) => {},
        }
        proof {
            let hs = headers_of(pu.updates@);
            lemma_scan_slots(hs, self.maximal_slot + 1, Some(self.tip_valid_header_root@), true);
            assert forall|k: int|
                0 <= k < pu.updates@.len() && !(#[trigger] pu.updates@[k]).finalized_header.is_empty_spec()
                    implies pu.updates@[k].finalized_header.slot == self.maximal_slot + 1 + k by {
                assert(hs[k] == pu.updates@[k].finalized_header);
            }
        }
        let tip_valid_header_root = match tip {
            Some(t) => t,
            None => self.tip_valid_header_root,
        };
        Ok(Client {
            minimal_slot: self.minimal_slot,
            maximal_slot: self.maximal_slot + count,
            tip_valid_header_root,
            headers_mmr_root: pu.new_headers_mmr_root,
        })
    }
}

impl Client {
    /// Checks that the header of a transaction proof stands in the range.
    pub fn verify_packed_transaction_proof(&self, tp: &TransactionProof) -> (r: Result<(), TxVerificationError>)
        ensures
            r == as_result(header_error(*self, *tp)),
    {
        let slot = tp.header.slot;
        if self.minimal_slot > slot || self.maximal_slot < slot {
            return Err(TxVerificationError::Unsynchronized);
        }
        match self.verify_single_header(&tp.header, &tp.header_mmr_proof) {
            None => Err(TxVerificationError::Other),
            Some(false) => Err(TxVerificationError::HeaderMmrProof),
            Some(true) => Ok(()),
        }
    }

    /// Checks the range proof of a header at or after the first slot:
    /// `None` where it lies past the range, the range is too large or the
    /// proof malformed.
    fn verify_single_header(&self, header: &Header, proof: &Vec<Hash32>) -> (r: Option<bool>)
        requires
            self.minimal_slot <= header.slot,
        ensures
            r == header_proof_outcome(*self, *header, proof@),
    {
        if header.slot > self.maximal_slot {
            return None;
        }
        let span = self.maximal_slot - self.minimal_slot;
        if span > MAX_LEAF_INDEX {
            return None;
        }
        let mmr_size = leaf_index_to_mmr_size(span);
        let position = leaf_index_to_pos(header.slot - self.minimal_slot);
        let digest = header.calc_cache().digest;
        let leaves = vec![(position, digest)];
        assert(leaves_view(leaves@) =~= seq![(position, header_digest(*header))]);
        verify_mmr_proof(mmr_size, proof, &self.headers_mmr_root, leaves)
    }
}

impl TransactionProof {
    /// Checks that the payload's transaction and receipt are those that the
    /// proof shows.
    pub fn verify_packed_payload(&self, payload: &TransactionPayload) -> (r: Result<(), TxVerificationError>)
        ensures
            r == as_result(
                match transaction_error(*self, payload.transaction@) {
                    Some(e) => Some(e),
                    None => receipt_error(*self, payload.receipt@),
                },
            ),
    {
        match self.verify_transaction(payload.transaction.as_slice()) {
            Ok(()) => {},
            Err(e) => {
                return Err(e);
            },
        }
        self.verify_receipt(payload.receipt.as_slice())
    }

    /// Checks that `transaction` is the transaction that the proof shows
    /// under the header's body root.
    pub fn verify_transaction(&self, transaction: &[u8]) -> (r: Result<(), TxVerificationError>)
        ensures
            r == as_result(transaction_error(*self, transaction@)),
    {
        if transaction.len() > MAX_BYTES_PER_TRANSACTION {
            return Err(TxVerificationError::Other);
        }
        let leaf = match transaction_root(transaction) {
            Some(root) => root,
            None => {
                return Err(TxVerificationError::Other);
            },
        };
        if self.transaction_index > u64::MAX - TRANSACTION_IN_BLOCK_BODY {
            return Err(TxVerificationError::TransactionSszProof);
        }
        let index = self.transaction_index + TRANSACTION_IN_BLOCK_BODY;
        if !verify_merkle_proof(&self.header.body_root, &leaf, &self.transaction_ssz_proof, index) {
            Err(TxVerificationError::TransactionSszProof)
        } else {
            Ok(())
        }
    }

    /// Checks that `receipt` is the receipt that the proof shows under the
    /// receipts root, and the receipts root under the header's body root.
    pub fn verify_receipt(&self, receipt: &[u8]) -> (r: Result<(), TxVerificationError>)
        ensures
            r == as_result(receipt_error(*self, receipt@)),
    {
        if !verify_proof(&self.receipt_mpt_proof, &self.receipts_root, self.transaction_index, receipt) {
            Err(TxVerificationError::ReceiptMptProof)
        } else if !verify_merkle_proof(
            &self.header.body_root,
            &self.receipts_root,
            &self.receipts_root_ssz_proof,
            RECEIPTS_ROOT_IN_BLOCK_BODY,
        ) {
            Err(TxVerificationError::ReceiptsRootSszProof)
        } else {
            Ok(())
        }
    }
}

/// An entry check fails only with a slot or a parent error.
proof fn lemma_entry_error_kind(h: Header, slot: int, tip: Option<Seq<u8>>, first: bool)
    ensures
        entry_error(h, slot, tip, first) != Some(ProofUpdateError::NoAnchorHeader),
{
}

/// The scan of a batch fails only with a slot or a parent error.
proof fn lemma_scan_error_kind(hs: Seq<Header>, start: int, tip0: Option<Seq<u8>>, apply: bool)
    ensures
        scan_error(hs, start, tip0, apply) != Some(ProofUpdateError::NoAnchorHeader),
    decreases hs.len(),
{
    if hs.len() > 0 {
        let init = hs.drop_last();
        lemma_scan_error_kind(init, start, tip0, apply);
        lemma_entry_error_kind(hs.last(), start + init.len(), tip_after(tip0, init), apply && init.len() == 0);
    }
}

/// Empty headers at existing slots pass every chain check and leave the
/// tip where it was: a batch of empty headers alone never breaks the chain.
pub proof fn lemma_empty_headers_pass(hs: Seq<Header>, start: int, tip0: Option<Seq<u8>>, apply: bool)
    requires
        forall|k: int| 0 <= k < hs.len() ==> (#[trigger] hs[k]).is_empty_spec(),
        start + hs.len() - 1 <= u64::MAX,
    ensures
        scan_error(hs, start, tip0, apply).is_none(),
        tip_after(tip0, hs) == tip0,
    decreases hs.len(),
{
    if hs.len() > 0 {
        let init = hs.drop_last();
        assert(forall|k: int| 0 <= k < init.len() ==> init[k] == hs[k]);
        lemma_empty_headers_pass(init, start, tip0, apply);
        assert(hs.last() == hs[hs.len() - 1]);
    }
}

/// A new client lacks an anchor exactly when its batch begins with an
/// empty header: with a non-empty first header it is never refused for
/// want of one, and its tip is then the root of the batch's last non-empty
/// header.
pub proof fn lemma_new_anchor(pu: ProofUpdate)
    ensures
        new_error(pu) == Some(ProofUpdateError::NoAnchorHeader) <==> (headers_of(pu.updates@).len() > 0
            && headers_of(pu.updates@)[0].is_empty_spec()),
        headers_of(pu.updates@).len() > 0 && !headers_of(pu.updates@)[0].is_empty_spec() ==> ({
            let hs = headers_of(pu.updates@);
            &&& last_anchor(hs).is_some()
            &&& tip_after(None, hs) == Some(header_root(last_anchor(hs).unwrap()))
        }),
{
    let hs = headers_of(pu.updates@);
    lemma_scan_error_kind(hs, hs[0].slot as int, None, false);
    if hs.len() > 0 && !hs[0].is_empty_spec() {
        lemma_anchor_exists(hs, 0);
    }
}

/// Advancing a client is never refused for want of an anchor, and a batch
/// of empty headers only (within the slot and leaf bounds) is accepted
/// exactly when its range proof holds, and keeps the client's tip.
pub proof fn lemma_apply_anchor(c: Client, pu: ProofUpdate)
    ensures
        apply_error(c, pu) != Some(ProofUpdateError::NoAnchorHeader),
        ({
            let hs = headers_of(pu.updates@);
            let n = hs.len();
            (n > 0 && c.maximal_slot + n <= u64::MAX && c.maximal_slot - c.minimal_slot + n
                <= MAX_LEAF_INDEX && forall|k: int| 0 <= k < n ==> (#[trigger] hs[k]).is_empty_spec())
                ==> {
                &&& apply_error(c, pu) == mmr_error(
                    mmr_proof_outcome(
                        mmr_size_spec((c.maximal_slot - c.minimal_slot + n) as nat) as u64,
                        hashes_view(pu.new_headers_mmr_proof@),
                        pu.new_headers_mmr_root@,
                        batch_leaves(hs, (c.maximal_slot - c.minimal_slot + 1) as nat),
                    ),
                )
                &&& tip_after(Some(c.tip_valid_header_root@), hs) == Some(c.tip_valid_header_root@)
            }
        }),
{
    let hs = headers_of(pu.updates@);
    let n = hs.len();
    lemma_scan_error_kind(hs, c.maximal_slot + 1, Some(c.tip_valid_header_root@), true);
    if c.maximal_slot + n <= u64::MAX && forall|k: int| 0 <= k < n ==> (#[trigger] hs[k]).is_empty_spec() {
        lemma_empty_headers_pass(hs, c.maximal_slot + 1, Some(c.tip_valid_header_root@), true);
    }
}

/// Creating a client is deterministic: two outcomes that meet the
/// contract on the same batch are equal, down to every byte.
pub proof fn lemma_new_deterministic(
    pu: ProofUpdate,
    r1: Result<Client, ProofUpdateError>,
    r2: Result<Client, ProofUpdateError>,
)
    requires
        new_result_spec(pu, r1),
        new_result_spec(pu, r2),
    ensures
        r1 == r2,
{
    if let (Ok(c1), Ok(c2)) = (r1, r2) {
        assert(c1.tip_valid_header_root@ == c2.tip_valid_header_root@);
        assert(c1.tip_valid_header_root =~= c2.tip_valid_header_root);
    }
}

/// Advancing a client is deterministic: two outcomes that meet the
/// contract on the same client and batch are equal, down to every byte.
pub proof fn lemma_apply_deterministic(
    c: Client,
    pu: ProofUpdate,
    r1: Result<Client, ProofUpdateError>,
    r2: Result<Client, ProofUpdateError>,
)
    requires
        apply_result_spec(c, pu, r1),
        apply_result_spec(c, pu, r2),
    ensures
        r1 == r2,
{
    if let (Ok(d1), Ok(d2)) = (r1, r2) {
        assert(d1.tip_valid_header_root@ == d2.tip_valid_header_root@);
        assert(d1.tip_valid_header_root =~= d2.tip_valid_header_root);
    }
}

} // verus!
