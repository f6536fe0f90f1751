//! The errors of the two verification paths.
use vstd::prelude::*;

verus! {

/// Why a batch of header updates was refused.
#[derive(Clone, Copy, Debug, PartialEq, Eq, Structural)]
pub enum ProofUpdateError {
    /// The batch holds no update.
    EmptyUpdates,
    /// A header does not stand at the slot that follows the previous entry.
    UncontinuousSlot,
    /// A header does not name the last non-empty header as its parent.
    UnmatchedParentRoot,
    /// The first header does not follow the client's last slot.
    FirstHeaderSlot,
    /// The first header does not name the client's tip as its parent.
    FirstHeaderParentRoot,
    /// The proof does not show the headers under the new root.
    HeadersMmrProof,
    /// A new client's batch begins with an empty header, so nothing
    /// anchors its first slot and its tip.
    NoAnchorHeader,
    /// The range or the proof is beyond what the accumulator can handle.
    Other,
}

/// Why a transaction proof was refused.
#[derive(Clone, Copy, Debug, PartialEq, Eq, Structural)]
pub enum TxVerificationError {
    /// The header's slot lies outside the client's range.
    Unsynchronized,
    /// The proof does not show the header in the client's range.
    HeaderMmrProof,
    /// The transaction is not under the header's body root.
    TransactionSszProof,
    /// The receipt is not under the receipts root.
    ReceiptMptProof,
    /// The receipts root is not under the header's body root.
    ReceiptsRootSszProof,
    /// The transaction is too long, or the range too large.
    Other,
}

} // verus!
