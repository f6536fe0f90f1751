//! The packed binary layout of the boundary types: integers little-endian,
//! digests as their 32 bytes, fixed structs as the concatenation of their
//! fields, byte strings as a 4-byte count and the bytes, tables as a 4-byte
//! total size, one 4-byte offset per field, and the fields.
use vstd::prelude::*;

use crate::hashing::{extend_bytes, extend_le, hashes_view, le_bytes, Hash32};
use crate::header::{FinalityUpdate, Header};
use crate::table::{
    concat, has_layout, lemma_concat_piece, lemma_concat_uniform,
    lemma_concat_uniform_len, lemma_layout_bytes, lemma_table_complete, pack_table, parse_table,
    table_bytes, table_fits,
};
use crate::trie::bytes_view;
use crate::types::{Client, ProofUpdate, TransactionPayload, TransactionProof};

verus! {

/// `256` to the power `n`.
pub open spec fn pow256(n: nat) -> nat
    decreases n,
{
    if n == 0 {
        1
    } else {
        256 * pow256((n - 1) as nat)
    }
}

/// The number whose little-endian bytes are `s`.
pub open spec fn le_value(s: Seq<u8>) -> nat
    decreases s.len(),
{
    if s.len() == 0 {
        0
    } else {
        s[0] as nat + 256 * le_value(s.drop_first())
    }
}

proof fn lemma_pow256_monotone(a: nat, b: nat)
    requires
        a <= b,
    ensures
        pow256(a) <= pow256(b),
    decreases b,
{
    if a < b {
        lemma_pow256_monotone(a, (b - 1) as nat);
    }
}

pub proof fn lemma_le_value_bound(s: Seq<u8>)
    ensures
        le_value(s) < pow256(s.len()),
    decreases s.len(),
{
    if s.len() > 0 {
        let rest = s.drop_first();
        lemma_le_value_bound(rest);
        let l = le_value(rest);
        let p = pow256(rest.len());
        assert(s[0] as nat + 256 * l < 256 * p) by (nonlinear_arith)
            requires
                s[0] < 256,
                l < p,
        ;
    }
}

/// Reading the bytes of a number gives the number back.
pub proof fn lemma_le_round_trip(v: nat, n: nat)
    requires
        v < pow256(n),
    ensures
        le_value(le_bytes(v, n)) == v,
    decreases n,
{
    if n > 0 {
        let s = le_bytes(v, n);
        assert(s.drop_first() =~= le_bytes(v / 256, (n - 1) as nat));
        let p = pow256((n - 1) as nat);
        assert(v / 256 < p) by (nonlinear_arith)
            requires
                v < 256 * p,
        ;
        lemma_le_round_trip(v / 256, (n - 1) as nat);
        assert(v == v % 256 + 256 * (v / 256)) by (nonlinear_arith);
    }
}

/// Writing the number that some bytes stand for gives those bytes back.
pub proof fn lemma_le_canonical(s: Seq<u8>)
    ensures
        le_bytes(le_value(s), s.len()) == s,
    decreases s.len(),
{
    if s.len() > 0 {
        let rest = s.drop_first();
        lemma_le_canonical(rest);
        let l = le_value(rest);
        let v = le_value(s);
        let b = s[0] as nat;
        assert(v % 256 == b && v / 256 == l) by (nonlinear_arith)
            requires
                v == b + 256 * l,
                b < 256,
        ;
        assert(le_bytes(v, s.len()) =~= s);
    }
}

/// Reads the `n`-byte little-endian number at `off`.
pub fn read_le(b: &[u8], off: usize, n: usize) -> (r: u64)
    requires
        n <= 8,
        off + n <= b@.len(),
    ensures
        r == le_value(b@.subrange(off as int, off + n)),
{
    let len = b.len();
    let mut acc: u64 = 0;
    let mut k: usize = n;
    proof {
        reveal_with_fuel(pow256, 8);
    }
    while k > 0
        invariant
            k <= n <= 8,
            len == b@.len(),
            off + n <= b@.len(),
            acc == le_value(b@.subrange(off + k, off + n)),
            acc < pow256((n - k) as nat),
        decreases k,
    {
        let ghost s = b@.subrange(off + k - 1, off + n);
        assert(s.drop_first() =~= b@.subrange(off + k, off + n));
        proof {
            lemma_pow256_monotone((n - k) as nat, 7);
            reveal_with_fuel(pow256, 8);
            assert(pow256(7) == 0x100000000000000);
        }
        acc = acc * 256 + b[off + k - 1] as u64;
        k -= 1;
    }
    acc
}

/// Reads the digest at `off`.
pub fn read_hash(b: &[u8], off: usize) -> (r: Hash32)
    requires
        off + 32 <= b@.len(),
    ensures
        r@ == b@.subrange(off as int, off + 32),
{
    let len = b.len();
    let mut h: Hash32 = [0u8; 32];
    let mut i: usize = 0;
    while i < 32
        invariant
            i <= 32,
            len == b@.len(),
            off + 32 <= b@.len(),
            h@.len() == 32,
            forall|j: int| 0 <= j < i ==> h@[j] == b@[off + j],
        decreases 32 - i,
    {
        h[i] = b[off + i];
        i += 1;
    }
    assert(h@ =~= b@.subrange(off as int, off + 32));
    h
}

/// The packed bytes of a header: 112 bytes.
pub open spec fn header_bytes(h: Header) -> Seq<u8> {
    le_bytes(h.slot as nat, 8) + le_bytes(h.proposer_index as nat, 8) + h.parent_root@
        + h.state_root@ + h.body_root@
}

/// The packed bytes of a client: 80 bytes.
pub open spec fn client_bytes(c: Client) -> Seq<u8> {
    le_bytes(c.minimal_slot as nat, 8) + le_bytes(c.maximal_slot as nat, 8)
        + c.tip_valid_header_root@ + c.headers_mmr_root@
}

proof fn lemma_le8_len(v: nat)
    ensures
        le_bytes(v, 8).len() == 8,
{
    lemma_le_len(v, 8);
}

pub proof fn lemma_le_len(v: nat, n: nat)
    ensures
        le_bytes(v, n).len() == n,
    decreases n,
{
    if n > 0 {
        lemma_le_len(v / 256, (n - 1) as nat);
    }
}

/// Reads the u64 at `off` whose bytes were written from a u64.
proof fn lemma_read_u64(b: Seq<u8>, off: int, v: u64)
    requires
        0 <= off,
        off + 8 <= b.len(),
        b.subrange(off, off + 8) == le_bytes(v as nat, 8),
    ensures
        le_value(b.subrange(off, off + 8)) == v,
{
    reveal_with_fuel(pow256, 9);
    assert(pow256(8) == 0x1_0000_0000_0000_0000);
    lemma_le_round_trip(v as nat, 8);
}

impl Header {
    /// The packed bytes of the header.
    pub fn pack(&self) -> (r: Vec<u8>)
        ensures
            r@ == header_bytes(*self),
    {
        let mut out: Vec<u8> = Vec::new();
        extend_le(&mut out, self.slot, 8);
        extend_le(&mut out, self.proposer_index, 8);
        extend_bytes(&mut out, &self.parent_root);
        extend_bytes(&mut out, &self.state_root);
        extend_bytes(&mut out, &self.body_root);
        assert(out@ =~= header_bytes(*self));
        out
    }

    /// The header that `b` holds, if `b` is the packed bytes of one.
    pub fn unpack(b: &[u8]) -> (r: Option<Header>)
        ensures
            r matches Some(h) ==> header_bytes(h) == b@,
            forall|h: Header| header_bytes(h) == b@ ==> r == Some(h),
    {
        if b.len() != 112 {
            proof {
                assert forall|h: Header| header_bytes(h) != b@ by {
                    lemma_le8_len(h.slot as nat);
                    lemma_le8_len(h.proposer_index as nat);
                }
            }
            return None;
        }
        let slot = read_le(b, 0, 8);
        let proposer_index = read_le(b, 8, 8);
        let h = Header {
            slot,
            proposer_index,
            parent_root: read_hash(b, 16),
            state_root: read_hash(b, 48),
            body_root: read_hash(b, 80),
        };
        proof {
            lemma_le_canonical(b@.subrange(0, 8));
            lemma_le_canonical(b@.subrange(8, 16));
            assert(header_bytes(h) =~= b@);
            assert forall|g: Header| header_bytes(g) == b@ implies g == h by {
                lemma_le8_len(g.slot as nat);
                lemma_le8_len(g.proposer_index as nat);
                let s = header_bytes(g);
                assert(s.subrange(0, 8) =~= le_bytes(g.slot as nat, 8));
                assert(s.subrange(8, 16) =~= le_bytes(g.proposer_index as nat, 8));
                lemma_read_u64(b@, 0, g.slot);
                lemma_read_u64(b@, 8, g.proposer_index);
                assert(g.parent_root@ =~= b@.subrange(16, 48));
                assert(g.state_root@ =~= b@.subrange(48, 80));
                assert(g.body_root@ =~= b@.subrange(80, 112));
                assert(g.parent_root =~= h.parent_root);
                assert(g.state_root =~= h.state_root);
                assert(g.body_root =~= h.body_root);
            }
        }
        Some(h)
    }
}

impl Client {
    /// The packed bytes of the client.
    pub fn pack(&self) -> (r: Vec<u8>)
        ensures
            r@ == client_bytes(*self),
    {
        let mut out: Vec<u8> = Vec::new();
        extend_le(&mut out, self.minimal_slot, 8);
        extend_le(&mut out, self.maximal_slot, 8);
        extend_bytes(&mut out, &self.tip_valid_header_root);
        extend_bytes(&mut out, &self.headers_mmr_root);
        assert(out@ =~= client_bytes(*self));
        out
    }

    /// The client that `b` holds, if `b` is the packed bytes of one.
    pub fn unpack(b: &[u8]) -> (r: Option<Client>)
        ensures
            r matches Some(c) ==> client_bytes(c) == b@,
            forall|c: Client| client_bytes(c) == b@ ==> r == Some(c),
    {
        if b.len() != 80 {
            proof {
                assert forall|c: Client| client_bytes(c) != b@ by {
                    lemma_le8_len(c.minimal_slot as nat);
                    lemma_le8_len(c.maximal_slot as nat);
                }
            }
            return None;
        }
        let minimal_slot = read_le(b, 0, 8);
        let maximal_slot = read_le(b, 8, 8);
        let c = Client {
            minimal_slot,
            maximal_slot,
            tip_valid_header_root: read_hash(b, 16),
            headers_mmr_root: read_hash(b, 48),
        };
        proof {
            lemma_le_canonical(b@.subrange(0, 8));
            lemma_le_canonical(b@.subrange(8, 16));
            assert(client_bytes(c) =~= b@);
            assert forall|d: Client| client_bytes(d) == b@ implies d == c by {
                lemma_le8_len(d.minimal_slot as nat);
                lemma_le8_len(d.maximal_slot as nat);
                let s = client_bytes(d);
                assert(s.subrange(0, 8) =~= le_bytes(d.minimal_slot as nat, 8));
                assert(s.subrange(8, 16) =~= le_bytes(d.maximal_slot as nat, 8));
                lemma_read_u64(b@, 0, d.minimal_slot);
                lemma_read_u64(b@, 8, d.maximal_slot);
                assert(d.tip_valid_header_root@ =~= b@.subrange(16, 48));
                assert(d.headers_mmr_root@ =~= b@.subrange(48, 80));
                assert(d.tip_valid_header_root =~= c.tip_valid_header_root);
                assert(d.headers_mmr_root =~= c.headers_mmr_root);
            }
        }
        Some(c)
    }
}

/// The packed bytes of a finality update: a table of one field, the header.
pub open spec fn finality_update_bytes(u: FinalityUpdate) -> Seq<u8> {
    le_bytes(120, 4) + le_bytes(8, 4) + header_bytes(u.finalized_header)
}

impl FinalityUpdate {
    /// The packed bytes of the update.
    pub fn pack(&self) -> (r: Vec<u8>)
        ensures
            r@ == finality_update_bytes(*self),
    {
        let mut out: Vec<u8> = Vec::new();
        extend_le(&mut out, 120, 4);
        extend_le(&mut out, 8, 4);
        let header = self.finalized_header.pack();
        extend_bytes(&mut out, header.as_slice());
        assert(out@ =~= finality_update_bytes(*self));
        out
    }

    /// The update that `b` holds, if `b` is the packed bytes of one.
    pub fn unpack(b: &[u8]) -> (r: Option<FinalityUpdate>)
        ensures
            r matches Some(u) ==> finality_update_bytes(u) == b@,
            forall|u: FinalityUpdate| finality_update_bytes(u) == b@ ==> r == Some(u),
    {
        proof {
            lemma_le_len(120, 4);
            lemma_le_len(8, 4);
            reveal_with_fuel(pow256, 5);
            lemma_le_round_trip(120, 4);
            lemma_le_round_trip(8, 4);
        }
        let len = b.len();
        if len < 8 {
            proof {
                assert forall|u: FinalityUpdate| finality_update_bytes(u) != b@ by {
                    assert(finality_update_bytes(u).len() >= 8);
                }
            }
            return None;
        }
        let total = read_le(b, 0, 4);
        let offset = read_le(b, 4, 4);
        if total != 120 || offset != 8 || len != 120 {
            proof {
                assert forall|u: FinalityUpdate| finality_update_bytes(u) != b@ by {
                    let s = finality_update_bytes(u);
                    lemma_le8_len(u.finalized_header.slot as nat);
                    lemma_le8_len(u.finalized_header.proposer_index as nat);
                    if s == b@ {
                        assert(s.subrange(0, 4) =~= le_bytes(120, 4));
                        assert(s.subrange(4, 8) =~= le_bytes(8, 4));
                    }
                }
            }
            return None;
        }
        let ghost rest = b@.subrange(8, 120);
        let body = copy_range(b, 8, 120);
        match Header::unpack(body.as_slice()) {
            Some(h) => {
                let u = FinalityUpdate { finalized_header: h };
                proof {
                    lemma_le_canonical(b@.subrange(0, 4));
                    lemma_le_canonical(b@.subrange(4, 8));
                    assert(finality_update_bytes(u) =~= b@);
                    assert forall|v: FinalityUpdate| finality_update_bytes(v) == b@ implies v == u by {
                        assert(header_bytes(v.finalized_header) =~= b@.subrange(8, 120));
                    }
                }
                Some(u)
            },
            None => {
                proof {
                    assert forall|v: FinalityUpdate| finality_update_bytes(v) != b@ by {
                        if finality_update_bytes(v) == b@ {
                            assert(header_bytes(v.finalized_header) =~= b@.subrange(8, 120));
                        }
                    }
                }
                None
            },
        }
    }
}

/// Copies the bytes `from .. to` of `b`.
pub fn copy_range(b: &[u8], from: usize, to: usize) -> (r: Vec<u8>)
    requires
        from <= to <= b@.len(),
    ensures
        r@ == b@.subrange(from as int, to as int),
{
    let mut out: Vec<u8> = Vec::new();
    let mut i: usize = from;
    while i < to
        invariant
            from <= i <= to <= b@.len(),
            out@ == b@.subrange(from as int, i as int),
        decreases to - i,
    {
        out.push(b[i]);
        i += 1;
        assert(out@ =~= b@.subrange(from as int, i as int));
    }
    out
}

/// The packed bytes of a byte string: its length in 4 bytes, then the bytes.
pub open spec fn bytes_field(s: Seq<u8>) -> Seq<u8> {
    le_bytes(s.len(), 4) + s
}

/// The packed bytes of a payload: a table of two byte strings.
pub open spec fn payload_bytes(tx: Seq<u8>, receipt: Seq<u8>) -> Seq<u8> {
    let a = bytes_field(tx);
    let c = bytes_field(receipt);
    le_bytes(12 + a.len() + c.len(), 4) + le_bytes(12, 4) + le_bytes(12 + a.len(), 4) + a + c
}

/// The lengths of a payload fit the 4-byte sizes of its layout.
pub open spec fn payload_fits(tx: Seq<u8>, receipt: Seq<u8>) -> bool {
    tx.len() + receipt.len() + 20 < 0x1_0000_0000
}

/// Where the fields of a payload stand in its packed bytes `b`.
pub open spec fn payload_layout(b: Seq<u8>, tx: Seq<u8>, receipt: Seq<u8>) -> bool {
    &&& b.len() == 20 + tx.len() + receipt.len()
    &&& le_value(b.subrange(0, 4)) == b.len()
    &&& le_value(b.subrange(4, 8)) == 12
    &&& le_value(b.subrange(8, 12)) == 16 + tx.len()
    &&& le_value(b.subrange(12, 16)) == tx.len()
    &&& le_value(b.subrange(16 + tx.len() as int, 20 + tx.len() as int)) == receipt.len()
    &&& b.subrange(16, 16 + tx.len() as int) == tx
    &&& b.subrange(20 + tx.len() as int, b.len() as int) == receipt
}

proof fn lemma_payload_layout(b: Seq<u8>, tx: Seq<u8>, receipt: Seq<u8>)
    requires
        payload_fits(tx, receipt),
        payload_bytes(tx, receipt) == b,
    ensures
        payload_layout(b, tx, receipt),
{
    reveal_with_fuel(pow256, 5);
    let a = bytes_field(tx);
    let c = bytes_field(receipt);
    lemma_le_len(12, 4);
    lemma_le_round_trip(12, 4);
    lemma_le_len(tx.len(), 4);
    lemma_le_len(receipt.len(), 4);
    lemma_le_len(12 + a.len() + c.len(), 4);
    lemma_le_len(12 + a.len(), 4);
    lemma_le_round_trip(12 + a.len() + c.len(), 4);
    lemma_le_round_trip(12 + a.len(), 4);
    lemma_le_round_trip(tx.len(), 4);
    lemma_le_round_trip(receipt.len(), 4);
    assert(b.subrange(0, 4) =~= le_bytes(12 + a.len() + c.len(), 4));
    assert(b.subrange(4, 8) =~= le_bytes(12, 4));
    assert(b.subrange(8, 12) =~= le_bytes(12 + a.len(), 4));
    assert(b.subrange(12, 16) =~= le_bytes(tx.len(), 4));
    assert(b.subrange(16 + tx.len() as int, 20 + tx.len() as int) =~= le_bytes(receipt.len(), 4));
    assert(b.subrange(16, 16 + tx.len() as int) =~= tx);
    assert(b.subrange(20 + tx.len() as int, b.len() as int) =~= receipt);
}

impl TransactionPayload {
    /// The packed bytes of the payload.
    pub fn pack(&self) -> (r: Vec<u8>)
        requires
            payload_fits(self.transaction@, self.receipt@),
        ensures
            r@ == payload_bytes(self.transaction@, self.receipt@),
    {
        let tx_len = self.transaction.len() as u64;
        let receipt_len = self.receipt.len() as u64;
        let mut out: Vec<u8> = Vec::new();
        extend_le(&mut out, 20 + tx_len + receipt_len, 4);
        extend_le(&mut out, 12, 4);
        extend_le(&mut out, 16 + tx_len, 4);
        extend_le(&mut out, tx_len, 4);
        extend_bytes(&mut out, self.transaction.as_slice());
        extend_le(&mut out, receipt_len, 4);
        extend_bytes(&mut out, self.receipt.as_slice());
        proof {
            lemma_le_len(tx_len as nat, 4);
            lemma_le_len(receipt_len as nat, 4);
        }
        assert(out@ =~= payload_bytes(self.transaction@, self.receipt@));
        out
    }

    /// The payload that `b` holds, if `b` is the packed bytes of one.
    pub fn unpack(b: &[u8]) -> (r: Option<TransactionPayload>)
        ensures
            r matches Some(p) ==> payload_bytes(p.transaction@, p.receipt@) == b@,
            forall|tx: Seq<u8>, receipt: Seq<u8>|
                payload_fits(tx, receipt) && payload_bytes(tx, receipt) == b@ ==> (r matches Some(p)
                    && p.transaction@ == tx && p.receipt@ == receipt),
    {
        proof {
            assert forall|tx: Seq<u8>, receipt: Seq<u8>|
                payload_fits(tx, receipt) && payload_bytes(tx, receipt) == b@ implies payload_layout(
                b@,
                tx,
                receipt,
            ) by {
                lemma_payload_layout(b@, tx, receipt);
            }
        }
        let len = b.len();
        if len < 20 {
            return None;
        }
        let total = read_le(b, 0, 4);
        let first = read_le(b, 4, 4);
        let second = read_le(b, 8, 4);
        if total != len as u64 || first != 12 || second < 16 || second > len as u64 - 4 {
            return None;
        }
        let second = second as usize;
        let tx_len = read_le(b, 12, 4);
        let receipt_len = read_le(b, second, 4);
        if tx_len != second as u64 - 16 || receipt_len != (len - second) as u64 - 4 {
            return None;
        }
        let transaction = copy_range(b, 16, second);
        let receipt = copy_range(b, second + 4, len);
        let p = TransactionPayload { transaction, receipt };
        proof {
            lemma_le_canonical(b@.subrange(0, 4));
            lemma_le_canonical(b@.subrange(4, 8));
            lemma_le_canonical(b@.subrange(8, 12));
            lemma_le_canonical(b@.subrange(12, 16));
            lemma_le_canonical(b@.subrange(second as int, second + 4));
            lemma_le_len(tx_len as nat, 4);
            lemma_le_len(receipt_len as nat, 4);
            assert(payload_bytes(p.transaction@, p.receipt@) =~= b@);
        }
        Some(p)
    }
}

/// The packed bytes of a vector of digests: their count in 4 bytes, then
/// the digests.
pub open spec fn hashes_bytes(hs: Seq<Seq<u8>>) -> Seq<u8> {
    le_bytes(hs.len(), 4) + concat(hs)
}

/// The packed bytes of a vector of digests.
pub fn pack_hashes(hs: &Vec<Hash32>) -> (r: Vec<u8>)
    requires
        hs@.len() < 0x1000_0000,
    ensures
        r@ == hashes_bytes(hashes_view(hs@)),
{
    let ghost hv = hashes_view(hs@);
    let mut out: Vec<u8> = Vec::new();
    extend_le(&mut out, hs.len() as u64, 4);
    let mut i: usize = 0;
    assert(hv.take(0) =~= Seq::<Seq<u8>>::empty());
    while i < hs.len()
        invariant
            i <= hs@.len(),
            hv == hashes_view(hs@),
            out@ == le_bytes(hs@.len() as nat, 4) + concat(hv.take(i as int)),
        decreases hs@.len() - i,
    {
        proof {
            lemma_concat_piece(hv, i as int);
        }
        extend_bytes(&mut out, &hs[i]);
        i += 1;
        assert(out@ =~= le_bytes(hs@.len() as nat, 4) + concat(hv.take(i as int)));
    }
    assert(hv.take(hs@.len() as int) =~= hv);
    out
}

/// The digests that `b` holds, if `b` is the packed bytes of a vector of
/// them.
pub fn unpack_hashes(b: &[u8]) -> (r: Option<Vec<Hash32>>)
    ensures
        r matches Some(v) ==> hashes_bytes(hashes_view(v@)) == b@ && v@.len() < 0x1000_0000,
        forall|hs: Seq<Seq<u8>>|
            (forall|k: int| 0 <= k < hs.len() ==> (#[trigger] hs[k]).len() == 32) && hs.len()
                < 0x1000_0000 && hashes_bytes(hs) == b@ ==> (r matches Some(v) && hashes_view(v@)
                == hs),
{
    proof {
        reveal_with_fuel(pow256, 5);
        assert forall|hs: Seq<Seq<u8>>|
            (forall|k: int| 0 <= k < hs.len() ==> (#[trigger] hs[k]).len() == 32) && hs.len()
                < 0x1000_0000 && hashes_bytes(hs) == b@ implies b@.len() == 4 + 32 * hs.len()
            && le_value(b@.subrange(0, 4)) == hs.len() && forall|j: int|
            0 <= j < hs.len() ==> b@.subrange(4 + 32 * j, 36 + 32 * j) == #[trigger] hs[j] by {
            lemma_le_len(hs.len(), 4);
            lemma_le_round_trip(hs.len(), 4);
            lemma_concat_uniform_len(hs, 32);
            assert(b@.subrange(0, 4) =~= le_bytes(hs.len(), 4));
            assert forall|j: int| 0 <= j < hs.len() implies b@.subrange(4 + 32 * j, 36 + 32 * j)
                == #[trigger] hs[j] by {
                lemma_concat_uniform(hs, 32, j);
                assert(b@.subrange(4 + 32 * j, 36 + 32 * j) =~= concat(hs).subrange(32 * j, 32 * j + 32));
            }
        }
    }
    let len = b.len();
    if len < 4 {
        return None;
    }
    let count = read_le(b, 0, 4);
    if count >= 0x1000_0000 || len as u64 != 4 + 32 * count {
        return None;
    }
    let n = count as usize;
    let mut v: Vec<Hash32> = Vec::new();
    let mut i: usize = 0;
    assert(hashes_view(v@) =~= Seq::<Seq<u8>>::empty());
    while i < n
        invariant
            len == b@.len() == 4 + 32 * n,
            n == le_value(b@.subrange(0, 4)),
            i <= n,
            v@.len() == i,
            concat(hashes_view(v@)) == b@.subrange(4, 4 + 32 * i),
            forall|j: int| 0 <= j < i ==> (#[trigger] v@[j])@ == b@.subrange(4 + 32 * j, 36 + 32 * j),
        decreases n - i,
    {
        let ghost before = hashes_view(v@);
        let h = read_hash(b, 4 + 32 * i);
        v.push(h);
        proof {
            assert(hashes_view(v@).drop_last() =~= before);
            assert(b@.subrange(4, 4 + 32 * (i + 1)) =~= b@.subrange(4, 4 + 32 * i) + h@);
        }
        i += 1;
    }
    proof {
        lemma_le_canonical(b@.subrange(0, 4));
        assert(hashes_bytes(hashes_view(v@)) =~= b@);
        assert forall|hs: Seq<Seq<u8>>|
            (forall|k: int| 0 <= k < hs.len() ==> (#[trigger] hs[k]).len() == 32) && hs.len()
                < 0x1000_0000 && hashes_bytes(hs) == b@ implies hashes_view(v@) == hs by {
            assert(hashes_view(v@) =~= hs);
        }
    }
    Some(v)
}

/// The packed items of a vector of finality updates.
pub open spec fn updates_items(us: Seq<FinalityUpdate>) -> Seq<Seq<u8>> {
    us.map_values(|u: FinalityUpdate| finality_update_bytes(u))
}

/// The fields of a packed proof update: the root, the proof, the updates.
pub open spec fn proof_update_fields(pu: ProofUpdate) -> Seq<Seq<u8>> {
    seq![
        pu.new_headers_mmr_root@,
        hashes_bytes(hashes_view(pu.new_headers_mmr_proof@)),
        table_bytes(updates_items(pu.updates@)),
    ]
}

/// The packed bytes of a proof update.
pub open spec fn proof_update_bytes(pu: ProofUpdate) -> Seq<u8> {
    table_bytes(proof_update_fields(pu))
}

/// The sizes of a proof update fit their 4-byte fields.
pub open spec fn proof_update_fits(pu: ProofUpdate) -> bool {
    &&& pu.new_headers_mmr_proof@.len() < 0x1000_0000
    &&& table_fits(updates_items(pu.updates@))
    &&& table_fits(proof_update_fields(pu))
}

/// Digests with the same views are the same.
proof fn lemma_hashes_view_injective(a: Seq<Hash32>, c: Seq<Hash32>)
    requires
        hashes_view(a) == hashes_view(c),
    ensures
        a == c,
{
    assert(hashes_view(a).len() == a.len());
    assert(hashes_view(c).len() == c.len());
    assert(a.len() == c.len());
    assert forall|k: int| 0 <= k < a.len() implies a[k] == c[k] by {
        assert(hashes_view(a)[k] == hashes_view(c)[k]);
        assert(a[k] =~= c[k]);
    }
    assert(a =~= c);
}

impl ProofUpdate {
    /// The packed bytes of the proof update.
    pub fn pack(&self) -> (r: Vec<u8>)
        requires
            proof_update_fits(*self),
        ensures
            r@ == proof_update_bytes(*self),
    {
        let ghost us = self.updates@;
        let mut items: Vec<Vec<u8>> = Vec::new();
        let mut i: usize = 0;
        while i < self.updates.len()
            invariant
                us == self.updates@,
                i <= us.len(),
                items@.len() == i,
                bytes_view(items@) == updates_items(us.take(i as int)),
            decreases us.len() - i,
        {
            let item = self.updates[i].pack();
            let ghost before = bytes_view(items@);
            items.push(item);
            proof {
                assert forall|k: int| 0 <= k < i + 1 implies #[trigger] bytes_view(items@)[k]
                    == updates_items(us.take(i + 1))[k] by {
                    if k < i {
                        assert(bytes_view(items@)[k] == before[k]);
                        assert(before[k] == updates_items(us.take(i as int))[k]);
                    }
                }
            }
            i += 1;
            assert(bytes_view(items@) =~= updates_items(us.take(i as int)));
        }
        assert(us.take(us.len() as int) =~= us);
        let updates = pack_table(&items);
        let mut root: Vec<u8> = Vec::new();
        extend_bytes(&mut root, &self.new_headers_mmr_root);
        assert(root@ =~= self.new_headers_mmr_root@);
        let proof = pack_hashes(&self.new_headers_mmr_proof);
        let mut fields: Vec<Vec<u8>> = Vec::new();
        fields.push(root);
        fields.push(proof);
        fields.push(updates);
        assert(bytes_view(fields@) =~= proof_update_fields(*self));
        pack_table(&fields)
    }

    /// The proof update that `b` holds, if `b` is the packed bytes of one.
    pub fn unpack(b: &[u8]) -> (r: Option<ProofUpdate>)
        ensures
            r matches Some(q) ==> proof_update_fits(q) && proof_update_bytes(q) == b@,
            forall|pu: ProofUpdate|
                proof_update_fits(pu) && proof_update_bytes(pu) == b@ ==> (r matches Some(q)
                    && q.new_headers_mmr_root == pu.new_headers_mmr_root
                    && q.new_headers_mmr_proof@ == pu.new_headers_mmr_proof@ && q.updates@
                    == pu.updates@),
    {
        proof {
            assert forall|pu: ProofUpdate| proof_update_fits(pu) && proof_update_bytes(pu) == b@ implies has_layout(
                b@,
            ) by {
                lemma_table_complete(b@, proof_update_fields(pu));
            }
        }
        let fields = match parse_table(b) {
            Some(f) => f,
            None => {
                return None;
            },
        };
        let ghost fv = bytes_view(fields@);
        proof {
            lemma_layout_bytes(b@, fv);
            assert forall|pu: ProofUpdate| proof_update_fits(pu) && proof_update_bytes(pu) == b@ implies fv
                == proof_update_fields(pu) by {
                lemma_table_complete(b@, proof_update_fields(pu));
            }
        }
        if fields.len() != 3 || fields[0].len() != 32 {
            return None;
        }
        assert(fv[0] == fields@[0]@ && fv[1] == fields@[1]@ && fv[2] == fields@[2]@);
        let root = read_hash(fields[0].as_slice(), 0);
        assert(root@ =~= fv[0]);
        let proof = match unpack_hashes(fields[1].as_slice()) {
            Some(p) => p,
            None => {
                return None;
            },
        };
        let ghost f2 = fields@[2]@;
        proof {
            assert forall|pu: ProofUpdate| proof_update_fits(pu) && proof_update_bytes(pu) == b@ implies has_layout(
                f2,
            ) && hashes_view(proof@) == hashes_view(pu.new_headers_mmr_proof@) by {
                lemma_table_complete(f2, updates_items(pu.updates@));
            }
        }
        let items = match parse_table(fields[2].as_slice()) {
            Some(v) => v,
            None => {
                return None;
            },
        };
        let ghost iv = bytes_view(items@);
        proof {
            lemma_layout_bytes(f2, iv);
            assert forall|pu: ProofUpdate| proof_update_fits(pu) && proof_update_bytes(pu) == b@ implies iv
                == updates_items(pu.updates@) by {
                lemma_table_complete(f2, updates_items(pu.updates@));
            }
        }
        let mut updates: Vec<FinalityUpdate> = Vec::new();
        let mut i: usize = 0;
        while i < items.len()
            invariant
                iv == bytes_view(items@),
                i <= items@.len(),
                updates@.len() == i,
                forall|k: int| 0 <= k < i ==> finality_update_bytes(#[trigger] updates@[k]) == iv[k],
                forall|k: int, u: FinalityUpdate|
                    0 <= k < i && #[trigger] finality_update_bytes(u) == #[trigger] iv[k] ==> u == updates@[k],
                forall|pu: ProofUpdate|
                    proof_update_fits(pu) && proof_update_bytes(pu) == b@ ==> iv == updates_items(
                        pu.updates@,
                    ),
            decreases items@.len() - i,
        {
            assert(iv[i as int] == items@[i as int]@);
            let u = match FinalityUpdate::unpack(items[i].as_slice()) {
                Some(u) => u,
                None => {
                    proof {
                        assert forall|pu: ProofUpdate|
                            proof_update_fits(pu) && proof_update_bytes(pu) == b@ implies false by {
                            assert(iv[i as int] == finality_update_bytes(pu.updates@[i as int]));
                        }
                    }
                    return None;
                },
            };
            updates.push(u);
            i += 1;
        }
        let q = ProofUpdate {
            new_headers_mmr_root: root,
            new_headers_mmr_proof: proof,
            updates,
        };
        proof {
            assert(updates_items(q.updates@) =~= iv);
            assert(fv =~= proof_update_fields(q));
            assert forall|pu: ProofUpdate| proof_update_fits(pu) && proof_update_bytes(pu) == b@ implies q.new_headers_mmr_root
                == pu.new_headers_mmr_root && q.new_headers_mmr_proof@ == pu.new_headers_mmr_proof@
                && q.updates@ == pu.updates@ by {
                assert(q.new_headers_mmr_root =~= pu.new_headers_mmr_root);
                lemma_hashes_view_injective(q.new_headers_mmr_proof@, pu.new_headers_mmr_proof@);
                assert forall|k: int| 0 <= k < q.updates@.len() implies q.updates@[k] == pu.updates@[k] by {
                    assert(iv[k] == finality_update_bytes(pu.updates@[k]));
                }
                assert(q.updates@ =~= pu.updates@);
            }
        }
        Some(q)
    }
}

/// The bytes that `b` holds as a byte string, if it is the packed bytes of
/// one.
pub fn unpack_bytes_field(b: &[u8]) -> (r: Option<Vec<u8>>)
    ensures
        r matches Some(v) ==> bytes_field(v@) == b@ && v@.len() < 0x1_0000_0000,
        forall|s: Seq<u8>| s.len() < 0x1_0000_0000 && bytes_field(s) == b@ ==> (r matches Some(v) && v@ == s),
{
    proof {
        reveal_with_fuel(pow256, 5);
        assert forall|s: Seq<u8>| s.len() < 0x1_0000_0000 && bytes_field(s) == b@ implies b@.len() == 4
            + s.len() && le_value(b@.subrange(0, 4)) == s.len() && b@.subrange(4, b@.len() as int) == s by {
            lemma_le_len(s.len(), 4);
            lemma_le_round_trip(s.len(), 4);
            assert(b@.subrange(0, 4) =~= le_bytes(s.len(), 4));
            assert(b@.subrange(4, b@.len() as int) =~= s);
        }
    }
    let len = b.len();
    if len < 4 {
        return None;
    }
    let count = read_le(b, 0, 4);
    if count != (len - 4) as u64 {
        return None;
    }
    let v = copy_range(b, 4, len);
    proof {
        lemma_le_canonical(b@.subrange(0, 4));
        lemma_le_value_bound(b@.subrange(0, 4));
        assert(bytes_field(v@) =~= b@);
    }
    Some(v)
}

/// The packed items of a vector of byte strings.
pub open spec fn bytes_items(items: Seq<Seq<u8>>) -> Seq<Seq<u8>> {
    items.map_values(|s: Seq<u8>| bytes_field(s))
}

/// The fields of a packed transaction proof, in declaration order.
pub open spec fn transaction_proof_fields(tp: TransactionProof) -> Seq<Seq<u8>> {
    seq![
        header_bytes(tp.header),
        le_bytes(tp.transaction_index as nat, 8),
        tp.receipts_root@,
        hashes_bytes(hashes_view(tp.header_mmr_proof@)),
        hashes_bytes(hashes_view(tp.transaction_ssz_proof@)),
        table_bytes(bytes_items(bytes_view(tp.receipt_mpt_proof@))),
        hashes_bytes(hashes_view(tp.receipts_root_ssz_proof@)),
    ]
}

/// The packed bytes of a transaction proof.
pub open spec fn transaction_proof_bytes(tp: TransactionProof) -> Seq<u8> {
    table_bytes(transaction_proof_fields(tp))
}

/// The sizes of a transaction proof fit their 4-byte fields.
pub open spec fn transaction_proof_fits(tp: TransactionProof) -> bool {
    &&& tp.header_mmr_proof@.len() < 0x1000_0000
    &&& tp.transaction_ssz_proof@.len() < 0x1000_0000
    &&& tp.receipts_root_ssz_proof@.len() < 0x1000_0000
    &&& forall|k: int|
        0 <= k < tp.receipt_mpt_proof@.len() ==> (#[trigger] tp.receipt_mpt_proof@[k])@.len()
            < 0x1_0000_0000
    &&& table_fits(bytes_items(bytes_view(tp.receipt_mpt_proof@)))
    &&& table_fits(transaction_proof_fields(tp))
}

impl TransactionProof {
    /// The packed bytes of the transaction proof.
    pub fn pack(&self) -> (r: Vec<u8>)
        requires
            transaction_proof_fits(*self),
        ensures
            r@ == transaction_proof_bytes(*self),
    {
        let ghost ms = bytes_view(self.receipt_mpt_proof@);
        let mut items: Vec<Vec<u8>> = Vec::new();
        let mut i: usize = 0;
        while i < self.receipt_mpt_proof.len()
            invariant
                ms == bytes_view(self.receipt_mpt_proof@),
                transaction_proof_fits(*self),
                i <= ms.len(),
                items@.len() == i,
                bytes_view(items@) == bytes_items(ms.take(i as int)),
            decreases ms.len() - i,
        {
            let mut item: Vec<u8> = Vec::new();
            let part = &self.receipt_mpt_proof[i];
            assert(part@.len() < 0x1_0000_0000);
            extend_le(&mut item, part.len() as u64, 4);
            extend_bytes(&mut item, part.as_slice());
            let ghost before = bytes_view(items@);
            items.push(item);
            proof {
                assert forall|k: int| 0 <= k < i + 1 implies #[trigger] bytes_view(items@)[k]
                    == bytes_items(ms.take(i + 1))[k] by {
                    if k < i {
                        assert(bytes_view(items@)[k] == before[k]);
                        assert(before[k] == bytes_items(ms.take(i as int))[k]);
                    }
                }
            }
            i += 1;
            assert(bytes_view(items@) =~= bytes_items(ms.take(i as int)));
        }
        assert(ms.take(ms.len() as int) =~= ms);
        let mpt = pack_table(&items);
        let mut index: Vec<u8> = Vec::new();
        extend_le(&mut index, self.transaction_index, 8);
        let mut receipts_root: Vec<u8> = Vec::new();
        extend_bytes(&mut receipts_root, &self.receipts_root);
        assert(receipts_root@ =~= self.receipts_root@);
        let mut fields: Vec<Vec<u8>> = Vec::new();
        fields.push(self.header.pack());
        fields.push(index);
        fields.push(receipts_root);
        fields.push(pack_hashes(&self.header_mmr_proof));
        fields.push(pack_hashes(&self.transaction_ssz_proof));
        fields.push(mpt);
        fields.push(pack_hashes(&self.receipts_root_ssz_proof));
        assert(bytes_view(fields@) =~= transaction_proof_fields(*self));
        pack_table(&fields)
    }

    /// The transaction proof that `b` holds, if `b` is the packed bytes of
    /// one.
    #[verifier::rlimit(60)]
    pub fn unpack(b: &[u8]) -> (r: Option<TransactionProof>)
        ensures
            r matches Some(q) ==> transaction_proof_fits(q) && transaction_proof_bytes(q) == b@,
            forall|tp: TransactionProof|
                transaction_proof_fits(tp) && transaction_proof_bytes(tp) == b@ ==> (r matches Some(q)
                    && q.header == tp.header && q.transaction_index == tp.transaction_index
                    && q.receipts_root == tp.receipts_root && q.header_mmr_proof@
                    == tp.header_mmr_proof@ && q.transaction_ssz_proof@ == tp.transaction_ssz_proof@
                    && bytes_view(q.receipt_mpt_proof@) == bytes_view(tp.receipt_mpt_proof@)
                    && q.receipts_root_ssz_proof@ == tp.receipts_root_ssz_proof@),
    {
        proof {
            assert forall|tp: TransactionProof|
                transaction_proof_fits(tp) && transaction_proof_bytes(tp) == b@ implies has_layout(b@) by {
                lemma_table_complete(b@, transaction_proof_fields(tp));
            }
        }
        let fields = match parse_table(b) {
            Some(f) => f,
            None => {
                return None;
            },
        };
        let ghost fv = bytes_view(fields@);
        proof {
            lemma_layout_bytes(b@, fv);
            assert forall|tp: TransactionProof|
                transaction_proof_fits(tp) && transaction_proof_bytes(tp) == b@ implies fv
                == transaction_proof_fields(tp) by {
                lemma_table_complete(b@, transaction_proof_fields(tp));
                lemma_le8_len(tp.transaction_index as nat);
            }
        }
        proof {
            assert forall|tp: TransactionProof|
                transaction_proof_fits(tp) && transaction_proof_bytes(tp) == b@ implies fields@.len()
                == 7 && fields@[1]@.len() == 8 && fields@[2]@.len() == 32 by {
                lemma_le8_len(tp.transaction_index as nat);
                assert(fv.len() == 7);
                assert(fv[1] == fields@[1]@);
                assert(fv[2] == fields@[2]@);
            }
        }
        if fields.len() != 7 || fields[1].len() != 8 || fields[2].len() != 32 {
            return None;
        }
        assert(forall|k: int| 0 <= k < 7 ==> fv[k] == #[trigger] fields@[k]@);
        let header = match Header::unpack(fields[0].as_slice()) {
            Some(h) => h,
            None => {
                return None;
            },
        };
        let transaction_index = read_le(fields[1].as_slice(), 0, 8);
        proof {
            assert(fv[1].subrange(0, 8) =~= fv[1]);
            lemma_le_canonical(fv[1]);
            assert forall|tp: TransactionProof|
                transaction_proof_fits(tp) && transaction_proof_bytes(tp) == b@ implies transaction_index
                == tp.transaction_index by {
                lemma_read_u64(fv[1], 0, tp.transaction_index);
            }
        }
        let receipts_root = read_hash(fields[2].as_slice(), 0);
        assert(receipts_root@ =~= fv[2]);
        let header_mmr_proof = match unpack_hashes(fields[3].as_slice()) {
            Some(p) => p,
            None => {
                return None;
            },
        };
        let transaction_ssz_proof = match unpack_hashes(fields[4].as_slice()) {
            Some(p) => p,
            None => {
                return None;
            },
        };
        let receipts_root_ssz_proof = match unpack_hashes(fields[6].as_slice()) {
            Some(p) => p,
            None => {
                return None;
            },
        };
        let ghost f5 = fv[5];
        proof {
            assert forall|tp: TransactionProof|
                transaction_proof_fits(tp) && transaction_proof_bytes(tp) == b@ implies has_layout(f5) by {
                lemma_table_complete(f5, bytes_items(bytes_view(tp.receipt_mpt_proof@)));
            }
        }
        let items = match parse_table(fields[5].as_slice()) {
            Some(v) => v,
            None => {
                return None;
            },
        };
        let ghost iv = bytes_view(items@);
        proof {
            lemma_layout_bytes(f5, iv);
            assert forall|tp: TransactionProof|
                transaction_proof_fits(tp) && transaction_proof_bytes(tp) == b@ implies iv
                == bytes_items(bytes_view(tp.receipt_mpt_proof@)) by {
                lemma_table_complete(f5, bytes_items(bytes_view(tp.receipt_mpt_proof@)));
            }
        }
        let mut mpt: Vec<Vec<u8>> = Vec::new();
        let mut i: usize = 0;
        while i < items.len()
            invariant
                iv == bytes_view(items@),
                i <= items@.len(),
                mpt@.len() == i,
                forall|k: int|
                    0 <= k < i ==> bytes_field(#[trigger] mpt@[k]@) == iv[k] && mpt@[k]@.len()
                        < 0x1_0000_0000,
                forall|tp: TransactionProof|
                    transaction_proof_fits(tp) && transaction_proof_bytes(tp) == b@ ==> iv
                        == bytes_items(bytes_view(tp.receipt_mpt_proof@)),
            decreases items@.len() - i,
        {
            assert(iv[i as int] == items@[i as int]@);
            let part = match unpack_bytes_field(items[i].as_slice()) {
                Some(v) => v,
                None => {
                    proof {
                        assert forall|tp: TransactionProof|
                            transaction_proof_fits(tp) && transaction_proof_bytes(tp) == b@ implies false by {
                            assert(iv[i as int] == bytes_field(tp.receipt_mpt_proof@[i as int]@));
                        }
                    }
                    return None;
                },
            };
            mpt.push(part);
            i += 1;
        }
        let q = TransactionProof {
            header,
            transaction_index,
            receipts_root,
            header_mmr_proof,
            transaction_ssz_proof,
            receipt_mpt_proof: mpt,
            receipts_root_ssz_proof,
        };
        proof {
            assert(bytes_items(bytes_view(q.receipt_mpt_proof@)) =~= iv);
            assert(fv =~= transaction_proof_fields(q));
            assert forall|tp: TransactionProof|
                transaction_proof_fits(tp) && transaction_proof_bytes(tp) == b@ implies q.header == tp.header
                && q.transaction_index == tp.transaction_index && q.receipts_root == tp.receipts_root
                && q.header_mmr_proof@ == tp.header_mmr_proof@ && q.transaction_ssz_proof@
                == tp.transaction_ssz_proof@ && bytes_view(q.receipt_mpt_proof@) == bytes_view(
                tp.receipt_mpt_proof@,
            ) && q.receipts_root_ssz_proof@ == tp.receipts_root_ssz_proof@ by {
                assert(q.receipts_root =~= tp.receipts_root);
                lemma_hashes_view_injective(q.header_mmr_proof@, tp.header_mmr_proof@);
                lemma_hashes_view_injective(q.transaction_ssz_proof@, tp.transaction_ssz_proof@);
                lemma_hashes_view_injective(q.receipts_root_ssz_proof@, tp.receipts_root_ssz_proof@);
                let qa = bytes_view(q.receipt_mpt_proof@);
                let ta = bytes_view(tp.receipt_mpt_proof@);
                assert forall|k: int| 0 <= k < qa.len() implies qa[k] == ta[k] by {
                    assert(iv[k] == bytes_field(ta[k]));
                    assert(iv[k] == bytes_field(qa[k]));
                    lemma_le_len(qa[k].len(), 4);
                    lemma_le_len(ta[k].len(), 4);
                    assert(qa[k] =~= bytes_field(qa[k]).subrange(4, bytes_field(qa[k]).len() as int));
                    assert(ta[k] =~= bytes_field(ta[k]).subrange(4, bytes_field(ta[k]).len() as int));
                }
                assert(qa =~= ta);
            }
            assert(transaction_proof_fits(q));
        }
        Some(q)
    }
}
} // verus!
