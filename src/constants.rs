//! Positions of the fields that the proofs reach inside a beacon block
//! body, and the bound on a transaction's length.
use vstd::prelude::*;

verus! {

/// Generalized index of the first transaction leaf in a block body: the
/// execution payload is field 9 of 16 leaves (index 25), the transaction
/// list is its field 13 of 16 (index 413), its data root the left child
/// (826), and the list holds up to 2^20 leaves.
pub const TRANSACTION_IN_BLOCK_BODY: u64 = 866123776;

/// Generalized index of the receipts root in a block body: field 3 of the
/// execution payload.
pub const RECEIPTS_ROOT_IN_BLOCK_BODY: u64 = 403;

/// The largest transaction, in bytes.
pub const MAX_BYTES_PER_TRANSACTION: usize = 1073741824;

} // verus!
