//! Cells of the Morton octree.
//!
//! A cell at depth `d` (in bits) holds every Morton code that shares its first
//! `d` bits. It is named by its prefix: those bits, followed by zeros. Depth 0
//! is the whole space. A cell has eight children, three bits deeper.

use vstd::arithmetic::power2::pow2;
use vstd::prelude::*;

verus! {

/// The prefix of the cell at depth `depth` that holds `morton`.
pub open spec fn cell_prefix(morton: u64, depth: nat) -> u64 {
    if depth == 0 {
        0
    } else {
        (morton >> ((64 - depth) as u64)) << ((64 - depth) as u64)
    }
}

/// Whether `prefix` names a cell at depth `depth`: its bits past `depth` are zero.
pub open spec fn is_prefix(prefix: u64, depth: nat) -> bool {
    cell_prefix(prefix, depth) == prefix
}

/// Whether `morton` lies in the cell `(depth, prefix)`. At depth 0 there is
/// one cell, whatever prefix it is asked for under.
pub open spec fn in_cell(morton: u64, depth: nat, prefix: u64) -> bool {
    depth == 0 || cell_prefix(morton, depth) == prefix
}

/// The prefix of the `c`-th child of the cell `(depth, prefix)`.
pub open spec fn child_prefix(prefix: u64, depth: nat, c: u64) -> u64 {
    prefix | (c << ((61 - depth) as u64))
}

/// The octant, within the cell at depth `depth` that holds it, of `morton`.
pub open spec fn octant(morton: u64, depth: nat) -> u64 {
    (morton >> ((61 - depth) as u64)) & 7
}

/// Whether a tree with leaves at depth `leaf` has nodes at depth `depth`.
pub open spec fn is_level(depth: nat, leaf: nat) -> bool {
    depth <= leaf && depth % 3 == 0
}

/// Whether `leaf` is a depth that leaves can have.
pub open spec fn is_leaf_depth(leaf: nat) -> bool {
    3 <= leaf <= 63 && leaf % 3 == 0
}

/// A prefix of the code `morton` at depth `depth`.
pub fn prefix_at(morton: u64, depth_bits: usize) -> (prefix: u64)
    requires
        1 <= depth_bits <= 64,
    ensures
        prefix == cell_prefix(morton, depth_bits as nat),
{
    let shift: u64 = 64 - depth_bits as u64;
    (morton >> shift) << shift
}

/// The cell that a prefix names is the one that holds it, and a code's cells nest.
pub proof fn lemma_prefix_nests(morton: u64, outer: nat, inner: nat)
    requires
        outer <= inner <= 64,
    ensures
        cell_prefix(cell_prefix(morton, inner), outer) == cell_prefix(morton, outer),
    decreases inner,
{
    if outer > 0 {
        let t = (64 - inner) as u64;
        if outer == inner {
            assert((((morton >> t) << t) >> t) << t == (morton >> t) << t) by (bit_vector);
        } else {
            let s = (64 - inner + 1) as u64;
            assert(((morton >> t) << t) >> s == morton >> s) by (bit_vector)
                requires
                    s == t + 1,
                    t < 63,
            ;
            let next = (inner - 1) as nat;
            lemma_prefix_nests(morton, outer, next);
            lemma_prefix_nests(cell_prefix(morton, inner), outer, next);
        }
    }
}

/// A child's prefix names a cell three bits deeper, inside its parent.
pub proof fn lemma_child_prefix(prefix: u64, depth: nat, c: u64)
    requires
        depth <= 60,
        is_prefix(prefix, depth),
        c < 8,
    ensures
        is_prefix(child_prefix(prefix, depth, c), depth + 3),
        in_cell(child_prefix(prefix, depth, c), depth, prefix),
        octant(child_prefix(prefix, depth, c), depth) == c,
{
    let t = (61 - depth) as u64;
    let child = child_prefix(prefix, depth, c);
    if depth == 0 {
        assert(((0u64 | (c << 61u64)) >> 61u64) << 61u64 == (0u64 | (c << 61u64)) && ((0u64 | (c
            << 61u64)) >> 61u64) & 7 == c) by (bit_vector)
            requires
                c < 8,
        ;
    } else {
        let s = (64 - depth) as u64;
        assert((child >> t) << t == child && (child >> s) << s == prefix && (child >> t) & 7 == c)
            by (bit_vector)
            requires
                child == prefix | (c << t),
                (prefix >> s) << s == prefix,
                s == t + 3,
                t < 61,
                c < 8,
        ;
    }
}

/// A code of the cell `(depth, prefix)` lies in the child named by its octant,
/// and in no other; a code outside the cell lies in none of its children.
pub proof fn lemma_in_child(morton: u64, depth: nat, prefix: u64, c: u64)
    requires
        depth <= 60,
        is_prefix(prefix, depth),
        c < 8,
    ensures
        octant(morton, depth) < 8,
        in_cell(morton, depth + 3, child_prefix(prefix, depth, c)) <==> (in_cell(
            morton,
            depth,
            prefix,
        ) && octant(morton, depth) == c),
{
    let t = (61 - depth) as u64;
    let child = child_prefix(prefix, depth, c);
    assert((morton >> t) & 7 < 8) by (bit_vector);
    if depth == 0 {
        assert((morton >> 61u64) << 61u64 == (0u64 | (c << 61u64)) <==> (morton >> 61u64) & 7 == c)
            by (bit_vector)
            requires
                c < 8,
        ;
    } else {
        let s = (64 - depth) as u64;
        assert((morton >> t) << t == child <==> ((morton >> s) << s == prefix && (morton >> t) & 7
            == c)) by (bit_vector)
            requires
                child == prefix | (c << t),
                (prefix >> s) << s == prefix,
                s == t + 3,
                t < 61,
                c < 8,
        ;
    }
}

/// Children are laid out in the order of their octants, with nothing of one
/// past the start of the next.
pub proof fn lemma_children_ascend(morton: u64, depth: nat, prefix: u64, c: u64)
    requires
        depth <= 60,
        is_prefix(prefix, depth),
        c < 8,
        in_cell(morton, depth + 3, child_prefix(prefix, depth, c)),
    ensures
        prefix <= child_prefix(prefix, depth, c) <= morton,
        forall|k: u64|
            c < k < 8 ==> morton < #[trigger] child_prefix(prefix, depth, k),
{
    let t = (61 - depth) as u64;
    let child = child_prefix(prefix, depth, c);
    if depth == 0 {
        assert(child <= morton) by (bit_vector)
            requires
                child == 0u64 | (c << 61u64),
                (morton >> 61u64) << 61u64 == child,
        ;
        assert forall|k: u64| c < k < 8 implies morton < #[trigger] child_prefix(prefix, depth, k) by {
            let next = child_prefix(prefix, depth, k);
            assert(morton < next) by (bit_vector)
                requires
                    next == 0u64 | (k << 61u64),
                    (morton >> 61u64) << 61u64 == 0u64 | (c << 61u64),
                    c < k < 8,
            ;
        }
    } else {
        let s = (64 - depth) as u64;
        assert(prefix <= child <= morton) by (bit_vector)
            requires
                child == prefix | (c << t),
                (morton >> t) << t == child,
        ;
        assert forall|k: u64| c < k < 8 implies morton < #[trigger] child_prefix(prefix, depth, k) by {
            let next = child_prefix(prefix, depth, k);
            assert(morton < next) by (bit_vector)
                requires
                    next == prefix | (k << t),
                    (prefix >> s) << s == prefix,
                    (morton >> t) << t == prefix | (c << t),
                    s == t + 3,
                    t < 61,
                    c < k < 8,
            ;
        }
    }
}

/// The last code of the cell `(depth, prefix)`: its prefix with every later bit set.
pub open spec fn last_code(prefix: u64, depth: nat) -> u64 {
    prefix | ((1u64 << ((64 - depth) as u64)) - 1) as u64
}

/// A cell is the range of codes from its prefix up to its last code.
pub proof fn lemma_cell_is_range(morton: u64, depth: nat, prefix: u64)
    requires
        1 <= depth <= 64,
        is_prefix(prefix, depth),
    ensures
        in_cell(morton, depth, prefix) <==> prefix <= morton <= last_code(prefix, depth),
{
    let s = (64 - depth) as u64;
    let one: u64 = 1u64 << s;
    assert(one >= 1) by (bit_vector)
        requires
            one == 1u64 << s,
            s < 64,
    ;
    let mask = (one - 1) as u64;
    assert((morton >> s) << s == prefix <==> (prefix <= morton && morton <= prefix | mask))
        by (bit_vector)
        requires
            mask + 1 == 1u64 << s,
            (prefix >> s) << s == prefix,
            s < 64,
    ;
}

/// A code's prefix at a depth is the code rounded down to a multiple of the
/// size of the cells at that depth.
pub proof fn law_prefix_rounds_down(morton: u64, depth: nat)
    requires
        depth <= 64,
    ensures
        cell_prefix(morton, depth) == morton - morton as int % pow2((64 - depth) as nat) as int,
        is_prefix(morton, depth) <==> morton as int % pow2((64 - depth) as nat) as int == 0,
{
    vstd::arithmetic::power2::lemma2_to64();
    vstd::arithmetic::power2::lemma2_to64_rest();
    if depth == 0 {
        assert(morton as int % 0x1_0000_0000_0000_0000 == morton);
    } else {
        let s = (64 - depth) as u64;
        let size = pow2(s as nat);
        vstd::arithmetic::power2::lemma_pow2_pos(s as nat);
        vstd::bits::lemma_u64_shr_is_div(morton, s);
        let q = morton >> s;
        vstd::arithmetic::div_mod::lemma_fundamental_div_mod(morton as int, size as int);
        assert(q * size <= morton) by (nonlinear_arith)
            requires
                morton == size * q + morton as int % size as int,
                morton as int % size as int >= 0,
        ;
        vstd::bits::lemma_u64_shl_is_mul(q, s);
        assert(q * size == size * q) by (nonlinear_arith);
    }
}

/// A cell is the codes from its prefix on, as many as cells at its depth have.
/// At depth 0 it is all codes.
pub proof fn law_cell_is_an_interval(morton: u64, depth: nat, prefix: u64)
    requires
        depth <= 64,
        depth > 0 ==> prefix as int % pow2((64 - depth) as nat) as int == 0,
    ensures
        in_cell(morton, depth, prefix) <==> (depth == 0 || prefix <= morton < prefix + pow2(
            (64 - depth) as nat,
        )),
{
    if depth > 0 {
        let size = pow2((64 - depth) as nat) as int;
        law_prefix_rounds_down(morton, depth);
        vstd::arithmetic::power2::lemma_pow2_pos((64 - depth) as nat);
        vstd::arithmetic::div_mod::lemma_mod_bound(morton as int, size);
        if prefix <= morton < prefix + size {
            let r = morton - prefix;
            vstd::arithmetic::div_mod::lemma_fundamental_div_mod(prefix as int, size);
            let k = prefix as int / size;
            assert(size * k == k * size) by (nonlinear_arith);
            vstd::arithmetic::div_mod::lemma_fundamental_div_mod_converse(
                morton as int,
                size,
                k,
                r,
            );
        }
    }
}

/// A cell's eight children share it out evenly, in order; any prefix is taken
/// to its `c`-th child by setting the three bits past the cell's depth.
pub proof fn law_children_share_out_a_cell(prefix: u64, depth: nat, c: u64)
    requires
        depth <= 60,
        c < 8,
    ensures
        child_prefix(prefix, depth, c) == prefix | (c << ((61 - depth) as u64)),
        prefix as int % pow2((64 - depth) as nat) as int == 0 ==> child_prefix(prefix, depth, c)
            == prefix + c * pow2((61 - depth) as nat),
        pow2((64 - depth) as nat) == 8 * pow2((61 - depth) as nat),
{
    let t = (61 - depth) as u64;
    let size = pow2(t as nat);
    vstd::arithmetic::power2::lemma2_to64();
    vstd::arithmetic::power2::lemma2_to64_rest();
    vstd::arithmetic::power2::lemma_pow2_adds(3, t as nat);
    vstd::arithmetic::power2::lemma_pow2_pos(t as nat);
    if prefix as int % pow2((64 - depth) as nat) as int == 0 {
        law_prefix_rounds_down(prefix, depth);
        if t < 61 {
            vstd::arithmetic::power2::lemma_pow2_strictly_increases(t as nat, 61);
        }
        assert(c * size <= 7 * pow2(61)) by (nonlinear_arith)
            requires
                c < 8,
                0 < size <= pow2(61),
        ;
        vstd::bits::lemma_u64_shl_is_mul(c, t);
        if depth == 0 {
            assert(0u64 | (c << 61u64) == c << 61u64) by (bit_vector);
        } else {
            let s = (64 - depth) as u64;
            assert(prefix | (c << t) == prefix + (c << t)) by (bit_vector)
                requires
                    (prefix >> s) << s == prefix,
                    s == t + 3,
                    t < 61,
                    c < 8,
            ;
        }
    }
}

/// A cell's last code is the one before the next cell's prefix.
pub proof fn law_last_code_ends_the_cell(prefix: u64, depth: nat)
    requires
        1 <= depth <= 64,
        prefix as int % pow2((64 - depth) as nat) as int == 0,
    ensures
        last_code(prefix, depth) == prefix + pow2((64 - depth) as nat) - 1,
{
    let s = (64 - depth) as u64;
    vstd::bits::lemma_u64_pow2_no_overflow(s as nat);
    vstd::bits::lemma_u64_shl_is_mul(1, s);
    law_prefix_rounds_down(prefix, depth);
    let mask = ((1u64 << s) - 1) as u64;
    assert(prefix | mask == prefix + mask) by (bit_vector)
        requires
            mask + 1 == 1u64 << s,
            (prefix >> s) << s == prefix,
            s < 64,
    ;
}

} // verus!
