//! The packed layout of tables and dynamic vectors: a 4-byte total size,
//! one 4-byte offset per field, then the fields. A table with no field is
//! its total size alone.
use vstd::prelude::*;

use crate::hashing::{extend_bytes, extend_le, le_bytes};
use crate::packed::{
    copy_range, le_value, lemma_le_canonical, lemma_le_len, lemma_le_round_trip, lemma_le_value_bound, pow256,
    read_le,
};
use crate::trie::bytes_view;

verus! {

/// The concatenation of byte strings.
pub open spec fn concat(fs: Seq<Seq<u8>>) -> Seq<u8>
    decreases fs.len(),
{
    if fs.len() == 0 {
        Seq::empty()
    } else {
        concat(fs.drop_last()) + fs.last()
    }
}

/// Where field `i` of a table of fields `fs` begins.
pub open spec fn field_offset(fs: Seq<Seq<u8>>, i: int) -> nat {
    (4 + 4 * fs.len() + concat(fs.take(i)).len()) as nat
}

/// The offsets of the fields of `fs`, 4 bytes each.
pub open spec fn offsets_part(fs: Seq<Seq<u8>>) -> Seq<u8> {
    concat(Seq::new(fs.len(), |i: int| le_bytes(field_offset(fs, i), 4)))
}

/// The packed bytes of a table of fields `fs`.
pub open spec fn table_bytes(fs: Seq<Seq<u8>>) -> Seq<u8> {
    le_bytes((4 + 4 * fs.len() + concat(fs).len()) as nat, 4) + offsets_part(fs) + concat(fs)
}

/// The size of the table fits its 4-byte fields.
pub open spec fn table_fits(fs: Seq<Seq<u8>>) -> bool {
    4 + 4 * fs.len() + concat(fs).len() < 0x1_0000_0000
}

/// The concatenation of a prefix is a prefix of the concatenation.
pub proof fn lemma_concat_prefix(fs: Seq<Seq<u8>>, j: int)
    requires
        0 <= j <= fs.len(),
    ensures
        concat(fs.take(j)).len() <= concat(fs).len(),
        concat(fs).subrange(0, concat(fs.take(j)).len() as int) == concat(fs.take(j)),
    decreases fs.len(),
{
    if j == fs.len() {
        assert(fs.take(j) =~= fs);
    } else {
        let init = fs.drop_last();
        assert(init.take(j) =~= fs.take(j));
        lemma_concat_prefix(init, j);
        assert(concat(fs).subrange(0, concat(fs.take(j)).len() as int) =~= concat(init).subrange(
            0,
            concat(fs.take(j)).len() as int,
        ));
    }
}

/// Field `j` stands between the offsets of fields `j` and `j + 1`.
pub proof fn lemma_concat_piece(fs: Seq<Seq<u8>>, j: int)
    requires
        0 <= j < fs.len(),
    ensures
        concat(fs.take(j + 1)) == concat(fs.take(j)) + fs[j],
        concat(fs).subrange(concat(fs.take(j)).len() as int, concat(fs.take(j + 1)).len() as int)
            == fs[j],
{
    assert(fs.take(j + 1).drop_last() =~= fs.take(j));
    lemma_concat_prefix(fs, j + 1);
    let a = concat(fs.take(j)).len() as int;
    let c = concat(fs.take(j + 1));
    assert(concat(fs).subrange(a, c.len() as int) =~= c.subrange(a, c.len() as int));
    assert(c.subrange(a, c.len() as int) =~= fs[j]);
}

/// Pieces of width `w` each: their concatenation has piece `j` at `w * j`.
pub proof fn lemma_concat_uniform(parts: Seq<Seq<u8>>, w: nat, j: int)
    requires
        forall|k: int| 0 <= k < parts.len() ==> (#[trigger] parts[k]).len() == w,
        0 <= j < parts.len(),
    ensures
        concat(parts).len() == w * parts.len(),
        concat(parts).subrange(w * j, w * j + w) == parts[j],
    decreases parts.len(),
{
    lemma_concat_uniform_len(parts, w);
    let init = parts.drop_last();
    lemma_concat_uniform_len(init, w);
    if j == parts.len() - 1 {
        assert(concat(parts).subrange(w * j, w * j + w) =~= parts[j]);
    } else {
        lemma_concat_uniform(init, w, j);
        assert(w * j + w <= w * init.len()) by (nonlinear_arith)
            requires
                j + 1 <= init.len(),
        ;
        assert(concat(parts).subrange(w * j, w * j + w) =~= concat(init).subrange(w * j, w * j + w));
    }
}

pub proof fn lemma_concat_uniform_len(parts: Seq<Seq<u8>>, w: nat)
    requires
        forall|k: int| 0 <= k < parts.len() ==> (#[trigger] parts[k]).len() == w,
    ensures
        concat(parts).len() == w * parts.len(),
    decreases parts.len(),
{
    if parts.len() > 0 {
        let init = parts.drop_last();
        assert(forall|k: int| 0 <= k < init.len() ==> init[k] == parts[k]);
        lemma_concat_uniform_len(init, w);
        assert(w * init.len() + w == w * parts.len()) by (nonlinear_arith)
            requires
                init.len() + 1 == parts.len(),
        ;
    }
}

/// Where the sizes, offsets and fields of a table stand in its bytes.
#[verifier::opaque]
pub open spec fn table_layout(b: Seq<u8>, fs: Seq<Seq<u8>>) -> bool {
    let n = fs.len();
    &&& b.len() == 4 + 4 * n + concat(fs).len()
    &&& b.len() >= 4
    &&& le_value(b.subrange(0, 4)) == b.len()
    &&& field_offset(fs, n as int) == b.len()
    &&& forall|j: int|
        0 <= j < n ==> le_value(b.subrange(4 + 4 * j, 8 + 4 * j)) == #[trigger] field_offset(fs, j)
    &&& forall|j: int|
        0 <= j < n ==> field_offset(fs, j) <= field_offset(fs, j + 1) && b.subrange(
            #[trigger] field_offset(fs, j) as int,
            field_offset(fs, j + 1) as int,
        ) == fs[j]
}

pub proof fn lemma_table_layout(b: Seq<u8>, fs: Seq<Seq<u8>>)
    requires
        table_fits(fs),
        table_bytes(fs) == b,
    ensures
        table_layout(b, fs),
{
    reveal(table_layout);
    reveal_with_fuel(pow256, 5);
    let n = fs.len();
    let total = (4 + 4 * n + concat(fs).len()) as nat;
    let parts = Seq::new(n, |i: int| le_bytes(field_offset(fs, i), 4));
    assert forall|k: int| 0 <= k < parts.len() implies (#[trigger] parts[k]).len() == 4 by {
        lemma_le_len(field_offset(fs, k), 4);
    }
    lemma_concat_uniform_len(parts, 4);
    lemma_le_len(total, 4);
    assert(b.subrange(0, 4) =~= le_bytes(total, 4));
    lemma_le_round_trip(total, 4);
    assert(fs.take(n as int) =~= fs);
    let h: int = 4 + 4 * n as int;
    assert forall|j: int| 0 <= j < n implies le_value(b.subrange(4 + 4 * j, 8 + 4 * j))
        == #[trigger] field_offset(fs, j) by {
        lemma_concat_uniform(parts, 4, j);
        lemma_concat_prefix(fs, j);
        assert(b.subrange(4 + 4 * j, 8 + 4 * j) =~= concat(parts).subrange(4 * j, 4 * j + 4));
        lemma_le_round_trip(field_offset(fs, j), 4);
    }
    assert forall|j: int| 0 <= j < n implies field_offset(fs, j) <= field_offset(fs, j + 1)
        && b.subrange(#[trigger] field_offset(fs, j) as int, field_offset(fs, j + 1) as int)
        == fs[j] by {
        lemma_concat_piece(fs, j);
        lemma_concat_prefix(fs, j + 1);
        let a = concat(fs.take(j)).len() as int;
        let c = concat(fs.take(j + 1)).len() as int;
        assert(b.subrange(h + a, h + c) =~= concat(fs).subrange(a, c));
    }
}

/// The first field of a table begins right after the offsets.
proof fn lemma_first_offset(fs: Seq<Seq<u8>>)
    ensures
        field_offset(fs, 0) == 4 + 4 * fs.len(),
{
    assert(fs.take(0) =~= Seq::<Seq<u8>>::empty());
}

/// Two tables with the same bytes have the same fields.
#[verifier::rlimit(40)]
pub proof fn lemma_table_injective(b: Seq<u8>, fs: Seq<Seq<u8>>, gs: Seq<Seq<u8>>)
    requires
        table_layout(b, fs),
        table_layout(b, gs),
    ensures
        fs == gs,
{
    reveal(table_layout);
    lemma_first_offset(fs);
    lemma_first_offset(gs);
    let n = fs.len();
    if n > 0 && gs.len() > 0 {
        assert(field_offset(fs, 0) == le_value(b.subrange(4, 8)));
        assert(field_offset(gs, 0) == le_value(b.subrange(4, 8)));
    } else if n > 0 {
        assert(field_offset(fs, 0) == le_value(b.subrange(4, 8)));
    } else if gs.len() > 0 {
        assert(field_offset(gs, 0) == le_value(b.subrange(4, 8)));
    }
    assert(n == gs.len());
    assert forall|j: int| 0 <= j < n implies fs[j] == gs[j] by {
        assert(field_offset(fs, j) == field_offset(gs, j));
        if j + 1 < n {
            assert(field_offset(fs, j + 1) == le_value(b.subrange(4 + 4 * (j + 1), 8 + 4 * (j + 1))));
            assert(field_offset(gs, j + 1) == le_value(b.subrange(4 + 4 * (j + 1), 8 + 4 * (j + 1))));
        }
        assert(b.subrange(field_offset(fs, j) as int, field_offset(fs, j + 1) as int) == fs[j]);
        assert(b.subrange(field_offset(gs, j) as int, field_offset(gs, j + 1) as int) == gs[j]);
    }
    assert(fs =~= gs);
}

/// The sizes that a layout fixes.
proof fn lemma_layout_basics(b: Seq<u8>, fs: Seq<Seq<u8>>)
    requires
        table_layout(b, fs),
    ensures
        b.len() == 4 + 4 * fs.len() + concat(fs).len(),
        le_value(b.subrange(0, 4)) == b.len(),
{
    reveal(table_layout);
}

/// A layout that holds describes the bytes exactly.
pub proof fn lemma_layout_bytes(b: Seq<u8>, fs: Seq<Seq<u8>>)
    requires
        table_layout(b, fs),
    ensures
        table_fits(fs),
        table_bytes(fs) == b,
{
    reveal_with_fuel(pow256, 5);
    lemma_layout_basics(b, fs);
    let n = fs.len();
    let h: int = 4 + 4 * n as int;
    lemma_le_value_bound(b.subrange(0, 4));
    lemma_le_canonical(b.subrange(0, 4));
    let parts = Seq::new(n, |i: int| le_bytes(field_offset(fs, i), 4));
    lemma_offsets_prefix(b, fs, parts, n as int);
    lemma_fields_prefix(b, fs, n as int);
    assert(parts.take(n as int) =~= parts);
    assert(fs.take(n as int) =~= fs);
    assert(field_offset(fs, n as int) == b.len());
    assert(b =~= b.subrange(0, 4) + b.subrange(4, h) + b.subrange(h, b.len() as int));
}

/// Bytes that hold a table, and any table that they hold.
pub proof fn lemma_table_complete(b: Seq<u8>, fs: Seq<Seq<u8>>)
    requires
        table_fits(fs),
        table_bytes(fs) == b,
    ensures
        has_layout(b),
        forall|gs: Seq<Seq<u8>>| table_layout(b, gs) ==> gs == fs,
{
    lemma_table_layout(b, fs);
    assert forall|gs: Seq<Seq<u8>>| table_layout(b, gs) implies gs == fs by {
        lemma_table_injective(b, gs, fs);
    }
}

/// `b` holds some table.
pub open spec fn has_layout(b: Seq<u8>) -> bool {
    exists|fs: Seq<Seq<u8>>| table_layout(b, fs)
}

#[verifier::rlimit(80)]
proof fn lemma_offsets_prefix(b: Seq<u8>, fs: Seq<Seq<u8>>, parts: Seq<Seq<u8>>, k: int)
    requires
        table_layout(b, fs),
        parts == Seq::new(fs.len(), |i: int| le_bytes(field_offset(fs, i), 4)),
        0 <= k <= fs.len(),
    ensures
        b.subrange(4, 4 + 4 * k) == concat(parts.take(k)),
    decreases k,
{
    reveal(table_layout);
    if k == 0 {
        assert(parts.take(0) =~= Seq::<Seq<u8>>::empty());
        assert(b.subrange(4, 4) =~= Seq::<u8>::empty());
    } else {
        lemma_offsets_prefix(b, fs, parts, k - 1);
        lemma_concat_piece(parts, k - 1);
        let j = k - 1;
        lemma_le_canonical(b.subrange(4 + 4 * j, 8 + 4 * j));
        assert(field_offset(fs, j) == le_value(b.subrange(4 + 4 * j, 8 + 4 * j)));
        assert(b.subrange(4, 4 + 4 * k) =~= b.subrange(4, 4 + 4 * j) + b.subrange(4 + 4 * j, 8 + 4 * j));
    }
}

#[verifier::rlimit(80)]
proof fn lemma_fields_prefix(b: Seq<u8>, fs: Seq<Seq<u8>>, k: int)
    requires
        table_layout(b, fs),
        0 <= k <= fs.len(),
    ensures
        field_offset(fs, k) <= b.len(),
        b.subrange(4 + 4 * fs.len() as int, field_offset(fs, k) as int) == concat(fs.take(k)),
    decreases k,
{
    reveal(table_layout);
    let h: int = 4 + 4 * fs.len() as int;
    if k == 0 {
        lemma_first_offset(fs);
        assert(fs.take(0) =~= Seq::<Seq<u8>>::empty());
        assert(b.subrange(h, h) =~= Seq::<u8>::empty());
    } else {
        let j = k - 1;
        lemma_fields_prefix(b, fs, j);
        lemma_concat_piece(fs, j);
        lemma_concat_prefix(fs, k);
        assert(b.subrange(field_offset(fs, j) as int, field_offset(fs, k) as int) == fs[j]);
        assert(b.subrange(h, field_offset(fs, k) as int) =~= b.subrange(h, field_offset(fs, j) as int)
            + b.subrange(field_offset(fs, j) as int, field_offset(fs, k) as int));
    }
}

/// The packed bytes of a table of fields.
pub fn pack_table(fields: &Vec<Vec<u8>>) -> (r: Vec<u8>)
    requires
        table_fits(bytes_view(fields@)),
    ensures
        r@ == table_bytes(bytes_view(fields@)),
{
    let ghost fs = bytes_view(fields@);
    let n = fields.len();
    let ghost parts = Seq::new(fs.len(), |i: int| le_bytes(field_offset(fs, i), 4));
    assert(fs.take(n as int) =~= fs);
    let mut off: u64 = 4 + 4 * n as u64;
    let mut out: Vec<u8> = Vec::new();
    let mut j: usize = 0;
    let mut total: u64 = 4 + 4 * n as u64;
    assert(fs.take(0) =~= Seq::<Seq<u8>>::empty());
    while j < n
        invariant
            n == fields@.len() == fs.len(),
            fs == bytes_view(fields@),
            table_fits(fs),
            j <= n,
            total == 4 + 4 * n + concat(fs.take(j as int)).len(),
        decreases n - j,
    {
        proof {
            lemma_concat_piece(fs, j as int);
            lemma_concat_prefix(fs, j + 1);
        }
        total = total + fields[j].len() as u64;
        j += 1;
    }
    extend_le(&mut out, total, 4);
    j = 0;
    assert(parts.take(0) =~= Seq::<Seq<u8>>::empty());
    while j < n
        invariant
            n == fields@.len() == fs.len(),
            fs == bytes_view(fields@),
            parts == Seq::new(fs.len(), |i: int| le_bytes(field_offset(fs, i), 4)),
            table_fits(fs),
            j <= n,
            off == field_offset(fs, j as int),
            out@ == le_bytes(total as nat, 4) + concat(parts.take(j as int)),
        decreases n - j,
    {
        proof {
            lemma_concat_piece(fs, j as int);
            lemma_concat_prefix(fs, j + 1);
            lemma_concat_piece(parts, j as int);
        }
        extend_le(&mut out, off, 4);
        off = off + fields[j].len() as u64;
        j += 1;
    }
    assert(parts.take(n as int) =~= parts);
    j = 0;
    while j < n
        invariant
            n == fields@.len() == fs.len(),
            fs == bytes_view(fields@),
            j <= n,
            out@ == le_bytes(total as nat, 4) + offsets_part(fs) + concat(fs.take(j as int)),
        decreases n - j,
    {
        proof {
            lemma_concat_piece(fs, j as int);
        }
        extend_bytes(&mut out, fields[j].as_slice());
        j += 1;
        assert(out@ =~= le_bytes(total as nat, 4) + offsets_part(fs) + concat(fs.take(j as int)));
    }
    out
}

/// The fields `fv` were read from `b`, the first at `o0`: each offset and
/// each field stands where the layout puts it.
#[verifier::opaque]
pub open spec fn parsed_prefix(b: Seq<u8>, o0: int, fv: Seq<Seq<u8>>) -> bool {
    &&& forall|j: int|
        0 <= j < fv.len() ==> le_value(b.subrange(4 + 4 * j, 8 + 4 * j)) == o0 + concat(
            #[trigger] fv.take(j),
        ).len()
    &&& forall|j: int|
        0 <= j < fv.len() ==> b.subrange(
            o0 + concat(fv.take(j)).len(),
            o0 + concat(#[trigger] fv.take(j + 1)).len(),
        ) == fv[j]
}

proof fn lemma_parse_step(b: Seq<u8>, o0: int, fv: Seq<Seq<u8>>, piece: Seq<u8>, cur: int, next: int)
    requires
        parsed_prefix(b, o0, fv),
        cur == o0 + concat(fv).len(),
        0 <= cur <= next <= b.len(),
        le_value(b.subrange(4 + 4 * fv.len() as int, 8 + 4 * fv.len() as int)) == cur,
        piece == b.subrange(cur, next),
    ensures
        parsed_prefix(b, o0, fv.push(piece)),
        next == o0 + concat(fv.push(piece)).len(),
{
    reveal(parsed_prefix);
    let fw = fv.push(piece);
    let i = fv.len() as int;
    assert(fw.drop_last() =~= fv);
    assert(fw.take(i) =~= fv);
    assert(fw.take(i + 1) =~= fw);
    assert forall|j: int| 0 <= j < i implies #[trigger] fw.take(j) == fv.take(j) && fw.take(j + 1)
        == fv.take(j + 1) by {
        assert(fw.take(j) =~= fv.take(j));
        assert(fw.take(j + 1) =~= fv.take(j + 1));
    }
    assert forall|j: int| 0 <= j < fw.len() implies le_value(b.subrange(4 + 4 * j, 8 + 4 * j)) == o0
        + concat(#[trigger] fw.take(j)).len() by {
        if j < i {
            assert(fw.take(j) == fv.take(j));
        }
    }
    assert forall|j: int| 0 <= j < fw.len() implies b.subrange(
        o0 + concat(fw.take(j)).len(),
        o0 + concat(#[trigger] fw.take(j + 1)).len(),
    ) == fw[j] by {
        if j < i {
            assert(fw.take(j) == fv.take(j));
            assert(fw.take(j + 1) == fv.take(j + 1));
        }
    }
}

/// Where field `i` of the table `target` stands, read from its offsets.
proof fn lemma_target_field(b: Seq<u8>, target: Seq<Seq<u8>>, i: int)
    requires
        table_layout(b, target),
        0 <= i < target.len(),
    ensures
        field_offset(target, i) <= field_offset(target, i + 1) <= b.len(),
        i + 1 < target.len() ==> le_value(b.subrange(8 + 4 * i, 12 + 4 * i)) == field_offset(
            target,
            i + 1,
        ),
        i + 1 == target.len() ==> field_offset(target, i + 1) == b.len(),
        i == 0 ==> le_value(b.subrange(4, 8)) == field_offset(target, 0),
        b.subrange(field_offset(target, i) as int, field_offset(target, i + 1) as int) == target[i],
        target.take(i + 1) == target.take(i).push(target[i]),
{
    reveal(table_layout);
    lemma_fields_prefix(b, target, i + 1);
    assert(target.take(i + 1) =~= target.take(i).push(target[i]));
    if i + 1 < target.len() {
        assert(le_value(b.subrange(4 + 4 * (i + 1), 8 + 4 * (i + 1))) == field_offset(target, i + 1));
        assert(b.subrange(8 + 4 * i, 12 + 4 * i) == b.subrange(4 + 4 * (i + 1), 8 + 4 * (i + 1)));
    }
}

proof fn lemma_parse_done(b: Seq<u8>, fv: Seq<Seq<u8>>)
    requires
        fv.len() >= 1,
        parsed_prefix(b, 4 + 4 * fv.len() as int, fv),
        4 + 4 * fv.len() + concat(fv).len() == b.len(),
        le_value(b.subrange(0, 4)) == b.len(),
    ensures
        table_layout(b, fv),
{
    reveal(parsed_prefix);
    let n = fv.len();
    assert(fv.take(n as int) =~= fv);
    lemma_first_offset(fv);
    assert forall|j: int| 0 <= j < n implies le_value(b.subrange(4 + 4 * j, 8 + 4 * j))
        == #[trigger] field_offset(fv, j) by {
    }
    assert forall|j: int| 0 <= j < n implies field_offset(fv, j) <= field_offset(fv, j + 1) && b.subrange(
        #[trigger] field_offset(fv, j) as int,
        field_offset(fv, j + 1) as int,
    ) == fv[j] by {
        lemma_concat_piece(fv, j);
    }
    reveal(table_layout);
}

/// The fields of the table that `b` holds, if `b` is the packed bytes of
/// one.
pub fn parse_table(b: &[u8]) -> (r: Option<Vec<Vec<u8>>>)
    ensures
        r matches Some(v) ==> table_layout(b@, bytes_view(v@)),
        has_layout(b@) ==> r is Some,
{
    let ghost has = has_layout(b@);
    let ghost target = choose|fs: Seq<Seq<u8>>| table_layout(b@, fs);
    proof {
        if has {
            lemma_layout_basics(b@, target);
            lemma_first_offset(target);
        }
    }
    let len = b.len();
    if len < 4 {
        return None;
    }
    let total = read_le(b, 0, 4);
    if total != len as u64 {
        return None;
    }
    if len == 4 {
        let empty: Vec<Vec<u8>> = Vec::new();
        proof {
            let e = bytes_view(empty@);
            assert(e =~= Seq::<Seq<u8>>::empty());
            lemma_first_offset(e);
            assert(e.take(0) =~= e);
            reveal(table_layout);
            assert(table_layout(b@, e));
        }
        return Some(empty);
    }
    if len < 8 {
        return None;
    }
    let first = read_le(b, 4, 4);
    proof {
        if has {
            lemma_target_field(b@, target, 0);
        }
    }
    if first % 4 != 0 || first < 8 || first > len as u64 {
        return None;
    }
    let o0 = first as usize;
    let n = o0 / 4 - 1;
    let mut fields: Vec<Vec<u8>> = Vec::new();
    let mut cur: usize = o0;
    let mut i: usize = 0;
    proof {
        reveal(parsed_prefix);
        assert(bytes_view(fields@) =~= Seq::<Seq<u8>>::empty());
        if has {
            assert(target.take(0) =~= Seq::<Seq<u8>>::empty());
        }
    }
    while i < n
        invariant
            len == b@.len(),
            le_value(b@.subrange(0, 4)) == len,
            o0 == 4 + 4 * n,
            o0 <= cur <= len,
            1 <= n,
            i <= n,
            i < n || cur == len,
            fields@.len() == i,
            cur == o0 + concat(bytes_view(fields@)).len(),
            i < n ==> le_value(b@.subrange(4 + 4 * i, 8 + 4 * i)) == cur,
            parsed_prefix(b@, o0 as int, bytes_view(fields@)),
            has == has_layout(b@),
            has ==> table_layout(b@, target),
            has ==> n == target.len() && bytes_view(fields@) == target.take(i as int) && cur
                == field_offset(target, i as int),
        decreases n - i,
    {
        proof {
            if has {
                lemma_target_field(b@, target, i as int);
            }
        }
        let next: usize = if i + 1 < n {
            let v = read_le(b, 8 + 4 * i, 4);
            if v > len as u64 {
                return None;
            }
            v as usize
        } else {
            len
        };
        if next < cur {
            return None;
        }
        let ghost fv = bytes_view(fields@);
        let piece = copy_range(b, cur, next);
        fields.push(piece);
        proof {
            assert(bytes_view(fields@) =~= fv.push(piece@));
            lemma_parse_step(b@, o0 as int, fv, piece@, cur as int, next as int);
            if i + 1 < n {
                assert(8 + 4 * i == 4 + 4 * (i + 1));
            }
        }
        cur = next;
        i += 1;
    }
    proof {
        lemma_parse_done(b@, bytes_view(fields@));
    }
    Some(fields)
}

} // verus!
