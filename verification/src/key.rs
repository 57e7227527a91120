//! The 20-byte key: epoch, Morton code and nanosecond offset, all big-endian.

use crate::bytes::{
    be_bytes, be_value, lemma_be_bytes_len, lemma_be_value_bound, lemma_be_value_concat,
    lemma_be_value_of_bytes, lemma_spans, put_be, read_be, span,
};
use crate::cell::{
    in_cell, is_prefix, last_code, law_last_code_ends_the_cell, lemma_cell_is_range,
};
use vstd::arithmetic::power2::pow2;
use vstd::prelude::*;

verus! {

/// The epoch that a key belongs to.
pub open spec fn key_epoch(key: Seq<u8>) -> u32 {
    be_value(key.subrange(0, 4)) as u32
}

/// The Morton code of a key.
pub open spec fn key_morton(key: Seq<u8>) -> u64 {
    be_value(key.subrange(4, 12)) as u64
}

/// The nanosecond offset of a key within its epoch.
pub open spec fn key_offset(key: Seq<u8>) -> u64 {
    be_value(key.subrange(12, 20)) as u64
}

/// The key of an epoch, a Morton code and an offset.
pub open spec fn key_bytes(epoch: u32, morton: u64, offset: u64) -> Seq<u8> {
    be_bytes(epoch as nat, 4) + be_bytes(morton as nat, 8) + be_bytes(offset as nat, 8)
}

/// Whether `a` comes before `b`, or is `b`, in byte-wise lexicographic order.
pub open spec fn lex_le(a: Seq<u8>, b: Seq<u8>) -> bool
    decreases a.len(),
{
    if a.len() == 0 {
        true
    } else if b.len() == 0 {
        false
    } else if a[0] == b[0] {
        lex_le(a.skip(1), b.skip(1))
    } else {
        a[0] < b[0]
    }
}

/// Epoch bucket and Morton code of a key.
pub fn split_key(key: &[u8; 20]) -> (parts: (u32, u64))
    ensures
        parts.0 == key_epoch(key@),
        parts.1 == key_morton(key@),
        parts.0 == be_value(key@.subrange(0, 4)),
        parts.1 == be_value(key@.subrange(4, 12)),
{
    let epoch: u128 = read_be(key.as_slice(), 0, 4);
    let morton: u128 = read_be(key.as_slice(), 4, 8);
    proof {
        lemma_be_value_bound(key@.subrange(0, 4));
        lemma_be_value_bound(key@.subrange(4, 12));
        lemma_spans();
    }
    (epoch as u32, morton as u64)
}

/// The 20 bytes of `bytes`, if it holds exactly 20.
pub fn key_from_bytes(bytes: &[u8]) -> (key: Option<[u8; 20]>)
    ensures
        key is Some <==> bytes@.len() == 20,
        key matches Some(k) ==> k@ == bytes@,
{
    if bytes.len() != 20 {
        return None;
    }
    let mut key: [u8; 20] = [0u8; 20];
    let mut i: usize = 0;
    while i < 20
        invariant
            i <= 20,
            bytes@.len() == 20,
            forall|j: int| 0 <= j < i ==> key@[j] == bytes@[j],
        decreases 20 - i,
    {
        key[i] = bytes[i];
        i = i + 1;
    }
    assert(key@ =~= bytes@);
    Some(key)
}

/// The key of an epoch, a Morton code and an offset.
fn make_key(epoch: u32, morton: u64, offset: u64) -> (key: [u8; 20])
    ensures
        key@ == key_bytes(epoch, morton, offset),
{
    let mut bytes: Vec<u8> = Vec::new();
    put_be(&mut bytes, epoch as u128, 4);
    put_be(&mut bytes, morton as u128, 8);
    put_be(&mut bytes, offset as u128, 8);
    proof {
        lemma_be_bytes_len(epoch as nat, 4);
        lemma_be_bytes_len(morton as nat, 8);
        lemma_be_bytes_len(offset as nat, 8);
        assert(bytes@ =~= key_bytes(epoch, morton, offset));
    }
    key_from_bytes(bytes.as_slice()).unwrap()
}

/// Whether `a` is at or before `b` in the order that keys are stored in.
pub fn key_le(a: &[u8; 20], b: &[u8; 20]) -> (le: bool)
    ensures
        le == lex_le(a@, b@),
{
    let mut i: usize = 0;
    assert(a@.skip(0) =~= a@);
    assert(b@.skip(0) =~= b@);
    while i < 20
        invariant
            i <= 20,
            lex_le(a@, b@) == lex_le(a@.skip(i as int), b@.skip(i as int)),
        decreases 20 - i,
    {
        if a[i] != b[i] {
            return a[i] < b[i];
        }
        assert(a@.skip(i as int).skip(1) =~= a@.skip(i + 1));
        assert(b@.skip(i as int).skip(1) =~= b@.skip(i + 1));
        i = i + 1;
    }
    true
}

/// Inclusive 20-byte key range covering one Morton cell within one epoch:
/// full nano-offset span, spatial bits from `prefix` through the last code of
/// the cell.
pub fn leaf_key_range(epoch: u32, prefix: u64, depth_bits: usize) -> (range: (
    [u8; 20],
    [u8; 20],
))
    requires
        1 <= depth_bits <= 64,
    ensures
        range.0@ == key_bytes(epoch, prefix, 0),
        range.1@ == key_bytes(epoch, last_code(prefix, depth_bits as nat), u64::MAX),
{
    let shift: u64 = 64 - depth_bits as u64;
    assert(1u64 << shift >= 1) by (bit_vector)
        requires
            shift < 64,
    ;
    let spatial_mask: u64 = (1u64 << shift) - 1;
    (make_key(epoch, prefix, 0), make_key(epoch, prefix | spatial_mask, u64::MAX))
}

/// Lexicographic order on byte strings of one length is the order of the
/// numbers that they denote.
pub proof fn lemma_lex_is_numeric(a: Seq<u8>, b: Seq<u8>)
    requires
        a.len() == b.len(),
    ensures
        lex_le(a, b) <==> be_value(a) <= be_value(b),
    decreases a.len(),
{
    if a.len() > 0 {
        let x = a.skip(1);
        let y = b.skip(1);
        lemma_lex_is_numeric(x, y);
        assert(a =~= seq![a[0]] + x);
        assert(b =~= seq![b[0]] + y);
        lemma_be_value_concat(seq![a[0]], x);
        lemma_be_value_concat(seq![b[0]], y);
        assert(seq![a[0]].drop_last() =~= Seq::<u8>::empty());
        assert(seq![b[0]].drop_last() =~= Seq::<u8>::empty());
        reveal_with_fuel(be_value, 2);
        lemma_be_value_bound(x);
        lemma_be_value_bound(y);
        let n = span(x.len());
        let p = a[0] as nat;
        let q = b[0] as nat;
        assert(p < q ==> p * n + n <= q * n) by (nonlinear_arith);
        assert(q < p ==> q * n + n <= p * n) by (nonlinear_arith);
    }
}

/// The number that a key denotes, by its fields.
proof fn lemma_key_value(key: Seq<u8>)
    requires
        key.len() == 20,
    ensures
        be_value(key) == key_epoch(key) * span(8) * span(8) + key_morton(key) * span(8)
            + key_offset(key),
{
    let e = key.subrange(0, 4);
    let m = key.subrange(4, 12);
    let o = key.subrange(12, 20);
    assert(key =~= e + m + o);
    lemma_be_value_concat(e + m, o);
    lemma_be_value_concat(e, m);
    lemma_be_value_bound(e);
    lemma_be_value_bound(m);
    lemma_be_value_bound(o);
    lemma_spans();
    let s = span(8);
    let x = be_value(e);
    let y = be_value(m);
    assert((x * s + y) * s == x * s * s + y * s) by (nonlinear_arith);
}

/// The fields of a key are read back as they were written.
pub proof fn lemma_key_fields(epoch: u32, morton: u64, offset: u64)
    ensures
        key_bytes(epoch, morton, offset).len() == 20,
        key_epoch(key_bytes(epoch, morton, offset)) == epoch,
        key_morton(key_bytes(epoch, morton, offset)) == morton,
        key_offset(key_bytes(epoch, morton, offset)) == offset,
{
    let key = key_bytes(epoch, morton, offset);
    lemma_spans();
    lemma_be_bytes_len(epoch as nat, 4);
    lemma_be_bytes_len(morton as nat, 8);
    lemma_be_bytes_len(offset as nat, 8);
    lemma_be_value_of_bytes(epoch as nat, 4);
    lemma_be_value_of_bytes(morton as nat, 8);
    lemma_be_value_of_bytes(offset as nat, 8);
    assert(key.subrange(0, 4) =~= be_bytes(epoch as nat, 4));
    assert(key.subrange(4, 12) =~= be_bytes(morton as nat, 8));
    assert(key.subrange(12, 20) =~= be_bytes(offset as nat, 8));
}

/// A leaf's key range holds exactly the keys of its epoch whose Morton code
/// lies in its cell.
pub proof fn law_leaf_range_is_cell(key: Seq<u8>, epoch: u32, prefix: u64, depth: nat)
    requires
        key.len() == 20,
        1 <= depth <= 64,
        is_prefix(prefix, depth),
    ensures
        (lex_le(key_bytes(epoch, prefix, 0), key) && lex_le(
            key,
            key_bytes(epoch, last_code(prefix, depth), u64::MAX),
        )) <==> (key_epoch(key) == epoch && in_cell(key_morton(key), depth, prefix)),
{
    let first = key_bytes(epoch, prefix, 0);
    let last = key_bytes(epoch, last_code(prefix, depth), u64::MAX);
    lemma_key_fields(epoch, prefix, 0);
    lemma_key_fields(epoch, last_code(prefix, depth), u64::MAX);
    lemma_lex_is_numeric(first, key);
    lemma_lex_is_numeric(key, last);
    lemma_key_value(key);
    lemma_key_value(first);
    lemma_key_value(last);
    lemma_cell_is_range(key_morton(key), depth, prefix);
    lemma_cell_is_range(prefix, depth, prefix);
    lemma_spans();
}

/// A key is its fields, one after another: as a number, the epoch comes first,
/// then the Morton code, then the offset.
pub proof fn law_key_is_its_fields(key: Seq<u8>)
    requires
        key.len() == 20,
    ensures
        be_value(key) == key_epoch(key) * 0x1_0000_0000_0000_0000_0000_0000_0000_0000
            + key_morton(key) * 0x1_0000_0000_0000_0000 + key_offset(key),
{
    lemma_key_value(key);
    lemma_spans();
    let s = span(8);
    let x = key_epoch(key) as int;
    let y = key_morton(key) as int;
    assert(x * s * s == x * 0x1_0000_0000_0000_0000_0000_0000_0000_0000 && y * s == y
        * 0x1_0000_0000_0000_0000) by (nonlinear_arith)
        requires
            s == 0x1_0000_0000_0000_0000,
    ;
}

/// The key of an epoch, a Morton code and an offset is 20 bytes long, and is
/// the number that has them for its fields.
pub proof fn law_key_of_fields(epoch: u32, morton: u64, offset: u64)
    ensures
        key_bytes(epoch, morton, offset).len() == 20,
        be_value(key_bytes(epoch, morton, offset)) == epoch
            * 0x1_0000_0000_0000_0000_0000_0000_0000_0000 + morton * 0x1_0000_0000_0000_0000
            + offset,
{
    lemma_key_fields(epoch, morton, offset);
    law_key_is_its_fields(key_bytes(epoch, morton, offset));
}

/// Keys are ordered byte by byte: the first byte in which two differ decides.
pub proof fn law_first_difference_decides(a: Seq<u8>, b: Seq<u8>, n: int)
    requires
        a.len() == b.len(),
        0 <= n <= a.len(),
        forall|i: int| 0 <= i < n ==> a[i] == b[i],
        n < a.len() ==> a[n] != b[n],
    ensures
        lex_le(a, b) <==> (n < a.len() ==> a[n] < b[n]),
    decreases n,
{
    if n > 0 {
        let x = a.skip(1);
        let y = b.skip(1);
        assert forall|i: int| 0 <= i < n - 1 implies x[i] == y[i] by {
            assert(a[i + 1] == b[i + 1]);
        }
        assert(a[0] == b[0]);
        law_first_difference_decides(x, y, n - 1);
    }
}

/// A leaf's key range holds the keys of its epoch whose Morton code is in the
/// leaf's interval of codes, at whatever offset, and no others.
pub proof fn law_leaf_range_is_an_interval(key: Seq<u8>, epoch: u32, prefix: u64, depth: nat)
    requires
        key.len() == 20,
        1 <= depth <= 64,
        prefix as int % pow2((64 - depth) as nat) as int == 0,
    ensures
        (be_value(key_bytes(epoch, prefix, 0)) <= be_value(key) <= be_value(
            key_bytes(epoch, last_code(prefix, depth), u64::MAX),
        )) <==> (key_epoch(key) == epoch && prefix <= key_morton(key) < prefix + pow2(
            (64 - depth) as nat,
        )),
{
    law_key_of_fields(epoch, prefix, 0);
    law_key_of_fields(epoch, last_code(prefix, depth), u64::MAX);
    law_key_is_its_fields(key);
    law_last_code_ends_the_cell(prefix, depth);
    let m = key_morton(key) as int;
    let last = last_code(prefix, depth) as int;
    assert(0 <= m <= u64::MAX && 0 <= key_offset(key) <= u64::MAX);
}

} // verus!
