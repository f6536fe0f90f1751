//! 32-byte digests, SHA-256 and the SSZ merkle root of packed chunks.
use vstd::prelude::*;

verus! {

/// A 32-byte digest.
pub type Hash32 = [u8; 32];

/// The SHA-256 digest of a byte string.
pub uninterp spec fn sha256_of(data: Seq<u8>) -> Seq<u8>;

/// The SSZ merkle root of a byte string split into 32-byte chunks.
pub uninterp spec fn merkle_root_of(chunks: Seq<u8>) -> Seq<u8>;

/// The sequence of `n` zero bytes.
pub open spec fn zeros(n: nat) -> Seq<u8> {
    Seq::new(n, |i: int| 0u8)
}

/// The `n` low bytes of `v`, least significant first.
pub open spec fn le_bytes(v: nat, n: nat) -> Seq<u8>
    decreases n,
{
    if n == 0 {
        Seq::empty()
    } else {
        seq![(v % 256) as u8].add(le_bytes(v / 256, (n - 1) as nat))
    }
}

/// The views of a sequence of digests.
pub open spec fn hashes_view(s: Seq<Hash32>) -> Seq<Seq<u8>> {
    s.map_values(|h: Hash32| h@)
}

/// Relies on sha2's `Sha256::digest`: the SHA-256 digest of `data`.
#[verifier::external_body]
pub(crate) fn sha256(data: &[u8]) -> (r: Hash32)
    ensures
        r@ == sha256_of(data@),
{
    <sha2::Sha256 as sha2::Digest>::digest(data).into()
}

/// Relies on tree_hash's `merkle_root` (no minimum leaf count): the SSZ
/// merkle root of `chunks`.
#[verifier::external_body]
pub(crate) fn merkle_root(chunks: &[u8]) -> (r: Hash32)
    ensures
        r@ == merkle_root_of(chunks@),
{
    tree_hash::merkle_root(chunks, 0).0
}

/// Appends the bytes of `src` to `out`.
pub fn extend_bytes(out: &mut Vec<u8>, src: &[u8])
    ensures
        final(out)@ == old(out)@ + src@,
{
    let mut i: usize = 0;
    while i < src.len()
        invariant
            i <= src@.len(),
            out@ == old(out)@ + src@.subrange(0, i as int),
        decreases src@.len() - i,
    {
        out.push(src[i]);
        i += 1;
        assert(out@ =~= old(out)@ + src@.subrange(0, i as int));
    }
    assert(src@.subrange(0, src@.len() as int) =~= src@);
}

/// Appends the `n` low bytes of `v` to `out`, least significant first.
pub fn extend_le(out: &mut Vec<u8>, v: u64, n: usize)
    ensures
        final(out)@ == old(out)@ + le_bytes(v as nat, n as nat),
{
    let mut x: u64 = v;
    let mut i: usize = 0;
    while i < n
        invariant
            i <= n,
            old(out)@ + le_bytes(v as nat, n as nat) == out@ + le_bytes(x as nat, (n - i) as nat),
        decreases n - i,
    {
        let ghost before = out@;
        let ghost m = (n - i) as nat;
        out.push((x % 256) as u8);
        assert(le_bytes(x as nat, m) == seq![(x % 256) as u8].add(le_bytes((x / 256) as nat, (m - 1) as nat)));
        assert(before + le_bytes(x as nat, m) =~= out@ + le_bytes((x / 256) as nat, (m - 1) as nat));
        x = x / 256;
        i += 1;
    }
    assert(le_bytes(x as nat, 0) =~= Seq::<u8>::empty());
    assert(out@ + le_bytes(x as nat, 0) =~= out@);
}

/// SHA-256 of the concatenation of two digests.
pub fn sha256_pair(left: &Hash32, right: &Hash32) -> (r: Hash32)
    ensures
        r@ == sha256_of(left@ + right@),
{
    let mut data: Vec<u8> = Vec::new();
    extend_bytes(&mut data, left);
    extend_bytes(&mut data, right);
    assert(data@ =~= left@ + right@);
    sha256(data.as_slice())
}

/// Whether two digests hold the same bytes.
pub fn hash_eq(a: &Hash32, b: &Hash32) -> (r: bool)
    ensures
        r == (a@ == b@),
{
    let mut i: usize = 0;
    while i < 32
        invariant
            i <= 32,
            a@.len() == 32,
            b@.len() == 32,
            forall|j: int| 0 <= j < i ==> a@[j] == b@[j],
        decreases 32 - i,
    {
        if a[i] != b[i] {
            return false;
        }
        i += 1;
    }
    assert(a@ =~= b@);
    true
}

/// Whether every byte of a digest is zero.
pub fn is_zero_hash(a: &Hash32) -> (r: bool)
    ensures
        r == (a@ == zeros(32)),
{
    let mut i: usize = 0;
    while i < 32
        invariant
            i <= 32,
            a@.len() == 32,
            forall|j: int| 0 <= j < i ==> a@[j] == 0,
        decreases 32 - i,
    {
        if a[i] != 0 {
            assert(a@[i as int] != zeros(32)[i as int]);
            return false;
        }
        i += 1;
    }
    assert(a@ =~= zeros(32));
    true
}

} // verus!
