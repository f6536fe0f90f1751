//! Receipt proofs: a value under a key in a Merkle-Patricia trie, the key
//! being the RLP of a transaction index.
use vstd::prelude::*;

use crate::hashing::Hash32;
use crate::packed::pow256;

verus! {

/// The value that the trie of root `root` holds under `key`, as the nodes
/// of `proof` show it; `None` where the key is absent or the proof fails.
pub uninterp spec fn mpt_lookup(proof: Seq<Seq<u8>>, root: Seq<u8>, key: Seq<u8>) -> Option<Seq<u8>>;

/// The views of a sequence of byte strings.
pub open spec fn bytes_view(s: Seq<Vec<u8>>) -> Seq<Seq<u8>> {
    s.map_values(|v: Vec<u8>| v@)
}

/// The big-endian bytes of `v` without leading zeros.
pub open spec fn be_min(v: nat) -> Seq<u8>
    decreases v,
{
    if v == 0 {
        Seq::empty()
    } else {
        be_min(v / 256).push((v % 256) as u8)
    }
}

/// The RLP encoding of an integer: a small positive one is its own byte,
/// another is its big-endian bytes after a length prefix.
pub open spec fn rlp_u64(v: u64) -> Seq<u8> {
    if 0 < v < 128 {
        seq![v as u8]
    } else {
        seq![(0x80 + be_min(v as nat).len()) as u8] + be_min(v as nat)
    }
}

/// Relies on rlp's `encode` for `u64`.
#[verifier::external_body]
pub(crate) fn rlp_encode_u64(v: u64) -> (r: Vec<u8>)
    ensures
        r@ == rlp_u64(v),
{
    rlp::encode(&v).to_vec()
}

/// The big-endian number that `s` stands for.
pub open spec fn be_value(s: Seq<u8>) -> nat
    decreases s.len(),
{
    if s.len() == 0 {
        0
    } else {
        be_value(s.drop_last()) * 256 + s.last() as nat
    }
}

/// The long-form RLP header at the start of `s` whose length takes `ll`
/// bytes: canonical (no leading zero, a payload of at least 56 bytes), at
/// most four length bytes, the payload within `s`.
pub open spec fn rlp_long_header(s: Seq<u8>, list: bool, ll: nat) -> Option<(bool, nat, nat)> {
    if ll > 4 || 1 + ll > s.len() || s[1] == 0 {
        None
    } else {
        let pl = be_value(s.subrange(1, 1 + ll as int));
        if pl < 56 || 1 + ll + pl > s.len() {
            None
        } else {
            Some((list, 1 + ll, pl))
        }
    }
}

/// The canonical RLP header at the start of `s`: whether the item is a
/// list, the length of the header, the length of the payload; `None` where
/// there is none or the payload runs past `s`.
pub open spec fn rlp_header(s: Seq<u8>) -> Option<(bool, nat, nat)> {
    if s.len() == 0 {
        None
    } else {
        let b = s[0];
        if b < 0x80 {
            Some((false, 0, 1))
        } else if b <= 0xb7 {
            let pl = (b - 0x80) as nat;
            if 1 + pl > s.len() || (pl == 1 && s[1] < 0x80) {
                None
            } else {
                Some((false, 1, pl))
            }
        } else if b <= 0xbf {
            rlp_long_header(s, false, (b - 0xb7) as nat)
        } else if b <= 0xf7 {
            let pl = (b - 0xc0) as nat;
            if 1 + pl > s.len() {
                None
            } else {
                Some((true, 1, pl))
            }
        } else {
            rlp_long_header(s, true, (b - 0xf7) as nat)
        }
    }
}

/// The items of an RLP list payload, each with its header.
pub open spec fn rlp_items(p: Seq<u8>) -> Option<Seq<Seq<u8>>>
    decreases p.len(),
{
    if p.len() == 0 {
        Some(Seq::empty())
    } else {
        match rlp_header(p) {
            None => None,
            Some((l, hl, pl)) => if hl + pl == 0 || hl + pl > p.len() {
                None
            } else {
                match rlp_items(p.subrange((hl + pl) as int, p.len() as int)) {
                    None => None,
                    Some(rest) => Some(seq![p.subrange(0, (hl + pl) as int)] + rest),
                }
            },
        }
    }
}

/// The item is a string, not a list.
pub open spec fn is_rlp_string(item: Seq<u8>) -> bool {
    rlp_header(item) matches Some((l, hl, pl)) && !l
}

/// The compact key that the trie reads from the first item of a two-item
/// node: the whole item where its payload is one byte, else its payload.
pub open spec fn compact_key(item: Seq<u8>) -> Seq<u8> {
    match rlp_header(item) {
        Some((l, hl, pl)) => if pl == 1 {
            item
        } else {
            item.subrange(hl as int, item.len() as int)
        },
        None => item,
    }
}

/// A compact key with a known flag nibble and at least one nibble.
pub open spec fn compact_key_ok(k: Seq<u8>) -> bool {
    k.len() >= 1 && k[0] < 0x40 && !(k[0] < 0x10 && k.len() == 1)
}

/// A trie node of a shape that the lookup reads without fault: a canonical
/// RLP string, which is exactly 32 bytes long after its header if it is a
/// hash, or a canonical list of strings whose key, in a two-item node, is a
/// compact key.
pub open spec fn node_ok(b: Seq<u8>) -> bool {
    match rlp_header(b) {
        None => false,
        Some((l, hl, pl)) => if !l {
            pl != 32 || b.len() == 33
        } else {
            match rlp_items(b.subrange(hl as int, (hl + pl) as int)) {
                None => false,
                Some(items) => {
                    &&& forall|i: int| 0 <= i < items.len() ==> is_rlp_string(#[trigger] items[i])
                    &&& items.len() == 2 ==> compact_key_ok(compact_key(items[0]))
                },
            }
        },
    }
}

/// Every node of the proof has a shape that the lookup reads without fault.
pub open spec fn proof_nodes_ok(proof: Seq<Seq<u8>>) -> bool {
    forall|i: int| 0 <= i < proof.len() ==> node_ok(#[trigger] proof[i])
}

/// Cutting bytes after an item's payload keeps its header.
proof fn lemma_header_prefix(q: Seq<u8>, m: nat)
    requires
        rlp_header(q) matches Some((l, hl, pl)) && hl + pl <= m <= q.len(),
    ensures
        rlp_header(q.subrange(0, m as int)) == rlp_header(q),
{
    let t = q.subrange(0, m as int);
    assert(t[0] == q[0]);
    if m >= 2 {
        assert(t[1] == q[1]);
    }
    let b = q[0];
    if b > 0xb7 && !(0xc0 <= b <= 0xf7) {
        let ll: nat = if b <= 0xbf {
            (b - 0xb7) as nat
        } else {
            (b - 0xf7) as nat
        };
        if ll <= 4 && 1 + ll <= m {
            assert(t.subrange(1, 1 + ll as int) =~= q.subrange(1, 1 + ll as int));
        }
    }
}

/// Reads the long-form RLP header at `off` whose length takes `ll` bytes.
fn read_long_header(s: &[u8], off: usize, end: usize, list: bool, ll: usize) -> (r: Option<
    (bool, usize, usize),
>)
    requires
        off < end <= s@.len(),
        1 <= ll,
    ensures
        ({
            let q = s@.subrange(off as int, end as int);
            match r {
                None => rlp_long_header(q, list, ll as nat).is_none(),
                Some((l, hl, pl)) => rlp_long_header(q, list, ll as nat) == Some(
                    (l, hl as nat, pl as nat),
                ) && 1 <= hl + pl <= end - off,
            }
        }),
{
    let ghost q = s@.subrange(off as int, end as int);
    if ll > 4 || ll > end - off - 1 {
        return None;
    }
    assert(q[1] == s@[off + 1]);
    if s[off + 1] == 0 {
        return None;
    }
    let mut pl: u64 = 0;
    let mut k: usize = 0;
    proof {
        reveal_with_fuel(pow256, 5);
        assert(q.subrange(1, 1) =~= Seq::<u8>::empty());
    }
    while k < ll
        invariant
            off < end <= s@.len(),
            q == s@.subrange(off as int, end as int),
            1 <= ll <= 4,
            1 + ll <= q.len(),
            k <= ll,
            pl == be_value(q.subrange(1, 1 + k as int)),
            pl < pow256(k as nat),
            pow256(4) == 0x1_0000_0000,
        decreases ll - k,
    {
        let ghost t = q.subrange(1, 2 + k as int);
        assert(t.drop_last() =~= q.subrange(1, 1 + k as int));
        assert(t.last() == s@[off + 1 + k]);
        proof {
            let p0 = pow256(k as nat);
            assert(pl * 256 + 255 < 256 * p0) by (nonlinear_arith)
                requires
                    pl < p0,
            ;
            assert(pow256((k + 1) as nat) == 256 * p0);
            if k < 4 {
                assert(pow256(k as nat) <= pow256(3)) by {
                    reveal_with_fuel(pow256, 5);
                }
            }
        }
        pl = pl * 256 + s[off + 1 + k] as u64;
        k += 1;
    }
    if pl < 56 || pl > (end - off - 1 - ll) as u64 {
        return None;
    }
    Some((list, 1 + ll, pl as usize))
}

/// Reads the canonical RLP header of the item at `off`, within `end`.
fn read_rlp_header(s: &[u8], off: usize, end: usize) -> (r: Option<(bool, usize, usize)>)
    requires
        off <= end <= s@.len(),
    ensures
        ({
            let q = s@.subrange(off as int, end as int);
            match r {
                None => rlp_header(q).is_none(),
                Some((l, hl, pl)) => rlp_header(q) == Some((l, hl as nat, pl as nat)) && 1 <= hl
                    + pl <= end - off,
            }
        }),
{
    let ghost q = s@.subrange(off as int, end as int);
    if off == end {
        return None;
    }
    let b = s[off];
    assert(q[0] == b);
    if b < 0x80 {
        return Some((false, 0, 1));
    }
    if b <= 0xb7 {
        let pl = (b - 0x80) as usize;
        if pl > end - off - 1 {
            return None;
        }
        if pl == 1 {
            assert(q[1] == s@[off + 1]);
            if s[off + 1] < 0x80 {
                return None;
            }
        }
        return Some((false, 1, pl));
    }
    if b <= 0xbf {
        return read_long_header(s, off, end, false, (b - 0xb7) as usize);
    }
    if b <= 0xf7 {
        let pl = (b - 0xc0) as usize;
        if pl > end - off - 1 {
            return None;
        }
        return Some((true, 1, pl));
    }
    read_long_header(s, off, end, true, (b - 0xf7) as usize)
}

/// Whether the list payload `start .. end` of `b` holds canonical items,
/// all strings, with a compact key first where there are two.
fn list_items_ok(b: &[u8], start: usize, end: usize) -> (r: bool)
    requires
        start <= end <= b@.len(),
    ensures
        r == (match rlp_items(b@.subrange(start as int, end as int)) {
            None => false,
            Some(items) => {
                &&& forall|i: int| 0 <= i < items.len() ==> is_rlp_string(#[trigger] items[i])
                &&& items.len() == 2 ==> compact_key_ok(compact_key(items[0]))
            },
        }),
{
    let ghost p = b@.subrange(start as int, end as int);
    let mut c: usize = start;
    let mut count: usize = 0;
    let mut first_end: usize = start;
    let ghost mut done: Seq<Seq<u8>> = Seq::empty();
    assert(b@.subrange(c as int, end as int) =~= p);
    while c < end
        invariant
            start <= c <= end <= b@.len(),
            p == b@.subrange(start as int, end as int),
            done.len() == count,
            count <= c - start,
            count == 0 ==> c == start,
            forall|i: int| 0 <= i < count ==> is_rlp_string(#[trigger] done[i]),
            rlp_items(p) == (match rlp_items(b@.subrange(c as int, end as int)) {
                None => None,
                Some(rest) => Some(done + rest),
            }),
            count >= 1 ==> start < first_end <= end && done[0] == b@.subrange(
                start as int,
                first_end as int,
            ),
        decreases end - c,
    {
        let ghost q = b@.subrange(c as int, end as int);
        match read_rlp_header(b, c, end) {
            None => {
                return false;
            },
            Some((l, hl, pl)) => {
                if pl > end - c || hl > end - c - pl || hl + pl == 0 {
                    return false;
                }
                let next = c + hl + pl;
                let ghost item = b@.subrange(c as int, next as int);
                assert(q.subrange(0, (hl + pl) as int) =~= item);
                assert(q.subrange((hl + pl) as int, q.len() as int) =~= b@.subrange(
                    next as int,
                    end as int,
                ));
                proof {
                    lemma_header_prefix(q, (hl + pl) as nat);
                }
                if l {
                    proof {
                        match rlp_items(b@.subrange(next as int, end as int)) {
                            Some(rest) => {
                                let all = done + (seq![item] + rest);
                                assert(all[count as int] == item);
                                assert(!is_rlp_string(all[count as int]));
                            },
                            None => {},
                        }
                    }
                    return false;
                }
                proof {
                    match rlp_items(b@.subrange(next as int, end as int)) {
                        Some(rest) => {
                            assert(done.push(item) + rest =~= done + (seq![item] + rest));
                        },
                        None => {},
                    }
                    done = done.push(item);
                    assert(done[0] == if count == 0 {
                        item
                    } else {
                        done.drop_last()[0]
                    });
                }
                if count == 0 {
                    first_end = next;
                }
                count += 1;
                c = next;
            },
        }
    }
    assert(b@.subrange(c as int, end as int) =~= Seq::<u8>::empty());
    assert(done + Seq::<Seq<u8>>::empty() =~= done);
    if count != 2 {
        return true;
    }
    let ghost item0 = b@.subrange(start as int, first_end as int);
    match read_rlp_header(b, start, first_end) {
        None => {
            true
        },
        Some((l0, h0, p0)) => {
            let kstart = if p0 == 1 {
                start
            } else {
                start + h0
            };
            let ghost key = compact_key(item0);
            assert(key =~= b@.subrange(kstart as int, first_end as int));
            let klen = first_end - kstart;
            if klen >= 1 {
                assert(key[0] == b@[kstart as int]);
            }
            klen >= 1 && b[kstart] < 0x40 && !(b[kstart] < 0x10 && klen == 1)
        },
    }
}

/// Whether a node has a shape that the lookup reads without fault.
fn node_shape_ok(b: &[u8]) -> (r: bool)
    ensures
        r == node_ok(b@),
{
    let len = b.len();
    assert(b@.subrange(0, len as int) =~= b@);
    match read_rlp_header(b, 0, len) {
        None => false,
        Some((l, hl, pl)) => {
            if !l {
                pl != 32 || len == 33
            } else {
                list_items_ok(b, hl, hl + pl)
            }
        },
    }
}

/// Whether every node of a proof has a shape that the lookup reads without
/// fault.
pub fn proof_shape_ok(proof: &Vec<Vec<u8>>) -> (r: bool)
    ensures
        r == proof_nodes_ok(bytes_view(proof@)),
{
    let mut i: usize = 0;
    while i < proof.len()
        invariant
            i <= proof@.len(),
            forall|j: int| 0 <= j < i ==> node_ok(#[trigger] bytes_view(proof@)[j]),
        decreases proof@.len() - i,
    {
        if !node_shape_ok(proof[i].as_slice()) {
            assert(bytes_view(proof@)[i as int] == proof@[i as int]@);
            return false;
        }
        assert(bytes_view(proof@)[i as int] == proof@[i as int]@);
        i += 1;
    }
    true
}

/// Relies on eth_trie's `Trie::verify_proof`: the value under `key` in the
/// trie of root `root` that `proof` shows, `None` where the key is absent
/// or the proof is wrong. The lookup faults on some malformed nodes (an
/// empty or ill-flagged compact key, a hash node with trailing bytes), which
/// the node shapes that `requires` admits exclude.
#[verifier::external_body]
pub(crate) fn mpt_get(proof: &Vec<Vec<u8>>, root: &Hash32, key: &[u8]) -> (r: Option<Vec<u8>>)
    requires
        proof_nodes_ok(bytes_view(proof@)),
    ensures
        (match r {
            Some(v) => Some(v@),
            None => None,
        }) == mpt_lookup(bytes_view(proof@), root@, key@),
{
    let trie = eth_trie::EthTrie::new(std::sync::Arc::new(eth_trie::MemoryDB::new(true)));
    match eth_trie::Trie::verify_proof(&trie, tree_hash::Hash256::from(*root), key, proof.clone()) {
        Ok(value) => value,
        Err(_) => None,
    }
}

/// Whether two byte strings are equal.
pub fn bytes_eq(a: &[u8], b: &[u8]) -> (r: bool)
    ensures
        r == (a@ == b@),
{
    if a.len() != b.len() {
        return false;
    }
    let mut i: usize = 0;
    while i < a.len()
        invariant
            i <= a@.len(),
            a@.len() == b@.len(),
            forall|j: int| 0 <= j < i ==> a@[j] == b@[j],
        decreases a@.len() - i,
    {
        if a[i] != b[i] {
            return false;
        }
        i += 1;
    }
    assert(a@ =~= b@);
    true
}

/// Whether `proof` shows `value` under the key `RLP(index)` in the trie of
/// root `root`; a proof with a node of another shape than the lookup reads
/// shows nothing.
pub fn verify_proof(proof: &Vec<Vec<u8>>, root: &Hash32, index: u64, value: &[u8]) -> (r: bool)
    ensures
        r == (proof_nodes_ok(bytes_view(proof@)) && mpt_lookup(bytes_view(proof@), root@, rlp_u64(index))
            == Some(value@)),
{
    if !proof_shape_ok(proof) {
        return false;
    }
    let key = rlp_encode_u64(index);
    match mpt_get(proof, root, key.as_slice()) {
        Some(found) => bytes_eq(found.as_slice(), value),
        None => false,
    }
}

} // verus!
