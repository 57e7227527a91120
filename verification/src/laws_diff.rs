//! What holds of comparing forests.

use crate::bytes::be_value;
use crate::cell::{
    cell_prefix, child_prefix, in_cell, is_leaf_depth, is_level, is_prefix, last_code,
    law_last_code_ends_the_cell, law_prefix_rounds_down, lemma_child_prefix, lemma_in_child,
    lemma_prefix_nests,
};
use crate::diff::{
    common_leaf, differ, differ_below, divergent, has_leaf, lists_divergence, precedes,
    DivergentLeaf,
};
use crate::digest::item_hash;
use crate::key::{key_epoch, key_morton, law_key_of_fields, law_leaf_range_is_cell, lex_le};
use crate::laws::{
    law_hash_is_fold_of_items, law_hash_is_structure_independent, law_insert_order_does_not_matter,
    lemma_tree_wf, with_item, with_items, Item,
};
use crate::model::{lemma_children_fold_cong, lemma_xor, ForestView};
use vstd::arithmetic::power2::pow2;
use vstd::prelude::*;

verus! {

/// Whether two leaves are the same cell.
pub open spec fn same_leaf(x: DivergentLeaf, y: DivergentLeaf) -> bool {
    &&& x.epoch == y.epoch
    &&& x.depth_bits == y.depth_bits
    &&& x.prefix == y.prefix
    &&& x.start_key@ == y.start_key@
    &&& x.end_key@ == y.end_key@
}

/// Comparing is symmetric: both ways round the same leaves come out, in the
/// same order.
pub proof fn law_diff_is_symmetric(
    a: ForestView,
    b: ForestView,
    forth: Seq<DivergentLeaf>,
    back: Seq<DivergentLeaf>,
)
    requires
        lists_divergence(a, b, forth),
        lists_divergence(b, a, back),
    ensures
        forth.len() == back.len(),
        forall|i: int| 0 <= i < forth.len() ==> same_leaf(#[trigger] forth[i], back[i]),
{
    assert forall|epoch: u32, leaf: nat, prefix: u64| #[trigger]
        divergent(a, b, epoch, leaf, prefix) == divergent(b, a, epoch, leaf, prefix) by {
        if divergent(a, b, epoch, leaf, prefix) {
            assert forall|depth: nat| 0 < depth && is_level(depth, leaf) implies differ(
                b,
                a,
                epoch,
                depth,
                #[trigger] cell_prefix(prefix, depth),
            ) by {
                assert(differ(a, b, epoch, depth, cell_prefix(prefix, depth)));
            }
        }
        if divergent(b, a, epoch, leaf, prefix) {
            assert forall|depth: nat| 0 < depth && is_level(depth, leaf) implies differ(
                a,
                b,
                epoch,
                depth,
                #[trigger] cell_prefix(prefix, depth),
            ) by {
                assert(differ(b, a, epoch, depth, cell_prefix(prefix, depth)));
            }
        }
    }
    assert(lists_divergence(a, b, back)) by {
        let leaf = common_leaf(a, b);
        assert(leaf == common_leaf(b, a));
        assert forall|i: int| 0 <= i < back.len() implies (#[trigger] back[i]).is_cell(
            back[i].epoch,
            leaf,
            back[i].prefix,
        ) && divergent(a, b, back[i].epoch, leaf, back[i].prefix) by {
            assert(divergent(b, a, back[i].epoch, leaf, back[i].prefix));
        }
        assert forall|epoch: u32, prefix: u64| #[trigger]
            divergent(a, b, epoch, leaf, prefix) implies has_leaf(back, 0, epoch, prefix) by {
            assert(divergent(b, a, epoch, leaf, prefix));
        }
    }
    lemma_listing_is_unique(a, b, forth, back);
}

/// Two listings of the same divergence are the same.
proof fn lemma_listing_is_unique(
    a: ForestView,
    b: ForestView,
    x: Seq<DivergentLeaf>,
    y: Seq<DivergentLeaf>,
)
    requires
        lists_divergence(a, b, x),
        lists_divergence(a, b, y),
    ensures
        x.len() == y.len(),
        forall|i: int| 0 <= i < x.len() ==> same_leaf(#[trigger] x[i], y[i]),
{
    lemma_listing_prefix(a, b, x, y, x.len() as int);
    lemma_listing_prefix(a, b, y, x, y.len() as int);
}

/// A listing is no longer than another of the same divergence, and its first
/// leaves are the other's.
proof fn lemma_listing_prefix(
    a: ForestView,
    b: ForestView,
    x: Seq<DivergentLeaf>,
    y: Seq<DivergentLeaf>,
    n: int,
)
    requires
        lists_divergence(a, b, x),
        lists_divergence(a, b, y),
        0 <= n <= x.len(),
    ensures
        n <= y.len(),
        forall|i: int| 0 <= i < n ==> same_leaf(#[trigger] x[i], y[i]),
    decreases n,
{
    if n > 0 {
        let m = n - 1;
        lemma_listing_prefix(a, b, x, y, m);
        let leaf = common_leaf(a, b);
        assert(divergent(a, b, x[m].epoch, leaf, x[m].prefix));
        assert(has_leaf(y, 0, x[m].epoch, x[m].prefix));
        let k = choose|k: int|
            0 <= k < y.len() && (#[trigger] y[k]).epoch == x[m].epoch && y[k].prefix == x[m].prefix;
        if k < m {
            assert(same_leaf(x[k], y[k]));
            assert(precedes(x[k], x[m]));
        }
        if k > m {
            assert(divergent(a, b, y[m].epoch, leaf, y[m].prefix));
            assert(has_leaf(x, 0, y[m].epoch, y[m].prefix));
            let j = choose|j: int|
                0 <= j < x.len() && (#[trigger] x[j]).epoch == y[m].epoch && x[j].prefix
                    == y[m].prefix;
            assert(precedes(y[m], y[k]));
            if j < m {
                assert(same_leaf(x[j], y[j]));
                assert(precedes(y[j], y[m]));
            }
            if j > m {
                assert(precedes(x[m], x[j]));
            }
        }
    }
}

/// In a cell where two forests differ, there is a leaf that differs all the
/// way up to that cell.
proof fn lemma_difference_reaches_a_leaf(
    a: ForestView,
    b: ForestView,
    epoch: u32,
    depth: nat,
    prefix: u64,
    leaf: nat,
) -> (q: u64)
    requires
        a.wf(),
        b.wf(),
        leaf == common_leaf(a, b),
        is_level(depth, leaf),
        is_prefix(prefix, depth),
        differ(a, b, epoch, depth, prefix),
    ensures
        is_prefix(q, leaf),
        in_cell(q, depth, prefix),
        differ_below(a, b, epoch, depth, leaf, q),
    decreases leaf - depth,
{
    if depth == leaf {
        prefix
    } else {
        lemma_tree_wf(a, epoch);
        lemma_tree_wf(b, epoch);
        let s = a.tree(epoch);
        let t = b.tree(epoch);
        assert(s.at(depth, prefix) == s.children_fold(depth, prefix, 8));
        assert(t.at(depth, prefix) == t.children_fold(depth, prefix, 8));
        if forall|c: u64|
            c < 8 ==> s.at(depth + 3, #[trigger] child_prefix(prefix, depth, c)) == t.at(
                depth + 3,
                child_prefix(prefix, depth, c),
            ) {
            lemma_children_fold_cong(s, t, depth, prefix, 8);
        }
        let c = choose|c: u64|
            c < 8 && s.at(depth + 3, #[trigger] child_prefix(prefix, depth, c)) != t.at(
                depth + 3,
                child_prefix(prefix, depth, c),
            );
        let child = child_prefix(prefix, depth, c);
        lemma_child_prefix(prefix, depth, c);
        let q = lemma_difference_reaches_a_leaf(a, b, epoch, depth + 3, child, leaf);
        lemma_in_child(q, depth, prefix, c);
        assert forall|d: nat| depth < d && is_level(d, leaf) implies differ(
            a,
            b,
            epoch,
            d,
            #[trigger] cell_prefix(q, d),
        ) by {
            if d == depth + 3 {
                assert(cell_prefix(q, d) == child);
            } else {
                assert(depth + 3 < d);
            }
        }
        q
    }
}

/// No leaf is divergent just when the roots of every epoch agree.
pub proof fn law_diff_is_empty_iff_roots_agree(
    a: ForestView,
    b: ForestView,
    leaves: Seq<DivergentLeaf>,
)
    requires
        a.wf(),
        b.wf(),
        lists_divergence(a, b, leaves),
    ensures
        leaves.len() == 0 <==> forall|epoch: u32| #[trigger]
            a.hash(epoch, 0, 0) == b.hash(epoch, 0, 0),
{
    let leaf = common_leaf(a, b);
    if leaves.len() == 0 {
        assert forall|epoch: u32| #[trigger] a.hash(epoch, 0, 0) == b.hash(epoch, 0, 0) by {
            if differ(a, b, epoch, 0, 0) {
                let q = lemma_difference_reaches_a_leaf(a, b, epoch, 0, 0, leaf);
                assert(divergent(a, b, epoch, leaf, q));
                assert(has_leaf(leaves, 0, epoch, q));
            }
        }
    } else {
        let epoch = leaves[0].epoch;
        assert(divergent(a, b, epoch, leaf, leaves[0].prefix));
        assert(a.hash(epoch, 0, 0) != b.hash(epoch, 0, 0));
    }
}

/// A forest does not diverge from one with the same hashes.
pub proof fn law_same_hashes_do_not_diverge(
    a: ForestView,
    b: ForestView,
    leaves: Seq<DivergentLeaf>,
)
    requires
        forall|epoch: u32| #[trigger] a.hash(epoch, 0, 0) == b.hash(epoch, 0, 0),
        lists_divergence(a, b, leaves),
    ensures
        leaves.len() == 0,
{
    if leaves.len() > 0 {
        let leaf = common_leaf(a, b);
        assert(divergent(a, b, leaves[0].epoch, leaf, leaves[0].prefix));
        assert(a.hash(leaves[0].epoch, 0, 0) == b.hash(leaves[0].epoch, 0, 0));
    }
}

/// Two forests that hold the same items do not diverge, whatever the order
/// the items came in and the depths of their leaves.
pub proof fn law_same_items_do_not_diverge(
    leaf: nat,
    other: nat,
    items: Seq<Item>,
    others: Seq<Item>,
    leaves: Seq<DivergentLeaf>,
)
    requires
        is_leaf_depth(leaf),
        is_leaf_depth(other),
        items.to_multiset() == others.to_multiset(),
        lists_divergence(
            with_items(ForestView::empty(leaf), items),
            with_items(ForestView::empty(other), others),
            leaves,
        ),
    ensures
        leaves.len() == 0,
{
    let a = with_items(ForestView::empty(leaf), items);
    let b = with_items(ForestView::empty(other), others);
    law_insert_order_does_not_matter(ForestView::empty(other), items, others);
    assert forall|epoch: u32| #[trigger] a.hash(epoch, 0, 0) == b.hash(epoch, 0, 0) by {
        law_hash_is_structure_independent(leaf, other, items, epoch, 0, 0);
    }
    law_same_hashes_do_not_diverge(a, b, leaves);
}

/// Whether the hashes of two forests, at the depths that both have, differ by
/// one digest folded in at one code of one epoch.
pub open spec fn differ_by(
    a: ForestView,
    b: ForestView,
    epoch: u32,
    morton: u64,
    digest: u128,
) -> bool {
    forall|e: u32, depth: nat, prefix: u64|
        is_level(depth, common_leaf(a, b)) ==> #[trigger] a.hash(e, depth, prefix) == (if e == epoch
            && in_cell(morton, depth, prefix) {
            b.hash(e, depth, prefix) ^ digest
        } else {
            b.hash(e, depth, prefix)
        })
}

/// A difference of one digest is localised: one leaf is divergent, and it is
/// the one that holds the code.
pub proof fn law_one_digest_diverges_in_one_leaf(
    a: ForestView,
    b: ForestView,
    epoch: u32,
    morton: u64,
    digest: u128,
    leaves: Seq<DivergentLeaf>,
)
    requires
        is_leaf_depth(common_leaf(a, b)),
        differ_by(a, b, epoch, morton, digest),
        digest != 0,
        lists_divergence(a, b, leaves),
    ensures
        leaves.len() == 1,
        leaves[0].is_cell(epoch, common_leaf(a, b), cell_prefix(morton, common_leaf(a, b))),
{
    let leaf = common_leaf(a, b);
    let home = cell_prefix(morton, leaf);
    assert forall|e: u32, depth: nat, prefix: u64| is_level(depth, leaf) implies (
    #[trigger] differ(a, b, e, depth, prefix) <==> e == epoch && in_cell(morton, depth, prefix)) by {
        let h = b.hash(e, depth, prefix);
        assert(a.hash(e, depth, prefix) == (if e == epoch && in_cell(morton, depth, prefix) {
            h ^ digest
        } else {
            h
        }));
        assert(h ^ digest != h) by {
            lemma_xor(h, h, digest);
            lemma_xor(h, digest, h);
            lemma_xor(digest, h, h);
        }
    }
    assert(divergent(a, b, epoch, leaf, home)) by {
        lemma_prefix_nests(morton, leaf, leaf);
        assert(differ(a, b, epoch, 0, 0));
        assert forall|depth: nat| 0 < depth && is_level(depth, leaf) implies differ(
            a,
            b,
            epoch,
            depth,
            #[trigger] cell_prefix(home, depth),
        ) by {
            lemma_prefix_nests(morton, depth, leaf);
        }
    }
    assert forall|e: u32, prefix: u64| #[trigger] divergent(a, b, e, leaf, prefix) implies e == epoch
        && prefix == home by {
        assert(differ(a, b, e, leaf, cell_prefix(prefix, leaf)));
    }
    assert(has_leaf(leaves, 0, epoch, home));
    let i = choose|i: int|
        0 <= i < leaves.len() && (#[trigger] leaves[i]).epoch == epoch && leaves[i].prefix == home;
    assert(divergent(a, b, leaves[0].epoch, leaf, leaves[0].prefix));
    if leaves.len() > 1 {
        assert(divergent(a, b, leaves[1].epoch, leaf, leaves[1].prefix));
        assert(precedes(leaves[0], leaves[1]));
    }
}

/// One item more on one side yields one divergent leaf, and its key range
/// covers the item's key. The item's digest is the truncated hash, which is
/// taken to be other than 0: an item that hashes to 0 leaves no trace.
pub proof fn law_one_extra_item_is_localised(
    forest: ForestView,
    item: Item,
    leaves: Seq<DivergentLeaf>,
)
    requires
        forest.wf(),
        item.0.len() == 20,
        item_hash(item.0, item.1) != 0,
        lists_divergence(with_item(forest, item), forest, leaves),
    ensures
        leaves.len() == 1,
        leaves[0].epoch == key_epoch(item.0),
        leaves[0].depth_bits == forest.leaf,
        lex_le(leaves[0].start_key@, item.0),
        lex_le(item.0, leaves[0].end_key@),
{
    let epoch = key_epoch(item.0);
    let morton = key_morton(item.0);
    let digest = item_hash(item.0, item.1);
    let more = with_item(forest, item);
    assert(common_leaf(more, forest) == forest.leaf);
    law_one_digest_diverges_in_one_leaf(more, forest, epoch, morton, digest, leaves);
    lemma_prefix_nests(morton, forest.leaf, forest.leaf);
    law_leaf_range_is_cell(item.0, epoch, cell_prefix(morton, forest.leaf), forest.leaf);
}

/// The same holds across leaf depths: one item more on either side yields one
/// divergent leaf, at the shallower of the two depths, whose key range covers
/// the item's key.
pub proof fn law_one_extra_item_is_localised_across_depths(
    leaf: nat,
    other: nat,
    items: Seq<Item>,
    item: Item,
    leaves: Seq<DivergentLeaf>,
)
    requires
        is_leaf_depth(leaf),
        is_leaf_depth(other),
        item.0.len() == 20,
        item_hash(item.0, item.1) != 0,
        lists_divergence(
            with_items(ForestView::empty(leaf), items),
            with_items(ForestView::empty(other), items.push(item)),
            leaves,
        ),
    ensures
        leaves.len() == 1,
        leaves[0].epoch == key_epoch(item.0),
        leaves[0].depth_bits == (if leaf <= other {
            leaf
        } else {
            other
        }),
        lex_le(leaves[0].start_key@, item.0),
        lex_le(item.0, leaves[0].end_key@),
{
    let epoch = key_epoch(item.0);
    let morton = key_morton(item.0);
    let digest = item_hash(item.0, item.1);
    let a = with_items(ForestView::empty(leaf), items);
    let b = with_items(ForestView::empty(other), items.push(item));
    law_hash_is_fold_of_items(leaf, items, 0, 0, 0);
    law_hash_is_fold_of_items(other, items.push(item), 0, 0, 0);
    let shallower = common_leaf(a, b);
    assert(items.push(item).drop_last() =~= items);
    assert forall|e: u32, depth: nat, prefix: u64|
        is_level(depth, shallower) implies #[trigger] a.hash(e, depth, prefix) == (if e == epoch
        && in_cell(morton, depth, prefix) {
        b.hash(e, depth, prefix) ^ digest
    } else {
        b.hash(e, depth, prefix)
    }) by {
        law_hash_is_fold_of_items(leaf, items, e, depth, prefix);
        law_hash_is_fold_of_items(other, items.push(item), e, depth, prefix);
        lemma_xor(a.hash(e, depth, prefix), digest, digest);
    }
    law_one_digest_diverges_in_one_leaf(a, b, epoch, morton, digest, leaves);
    lemma_prefix_nests(morton, shallower, shallower);
    law_leaf_range_is_cell(item.0, epoch, cell_prefix(morton, shallower), shallower);
}

/// The same key with different payloads on the two sides yields one divergent
/// leaf, and its key range covers the key, as long as the digests differ.
pub proof fn law_conflicting_payloads_are_localised(
    forest: ForestView,
    key: Seq<u8>,
    mine: Seq<u8>,
    theirs: Seq<u8>,
    leaves: Seq<DivergentLeaf>,
)
    requires
        forest.wf(),
        key.len() == 20,
        item_hash(key, mine) != item_hash(key, theirs),
        lists_divergence(with_item(forest, (key, mine)), with_item(forest, (key, theirs)), leaves),
    ensures
        leaves.len() == 1,
        leaves[0].epoch == key_epoch(key),
        leaves[0].depth_bits == forest.leaf,
        lex_le(leaves[0].start_key@, key),
        lex_le(key, leaves[0].end_key@),
{
    let epoch = key_epoch(key);
    let morton = key_morton(key);
    let x = item_hash(key, mine);
    let y = item_hash(key, theirs);
    let a = with_item(forest, (key, mine));
    let b = with_item(forest, (key, theirs));
    assert(common_leaf(a, b) == forest.leaf);
    assert(x ^ y != 0) by {
        lemma_xor(x, y, y);
        lemma_xor(y, y, y);
    }
    assert(differ_by(a, b, epoch, morton, x ^ y)) by {
        assert forall|e: u32, depth: nat, prefix: u64|
            is_level(depth, common_leaf(a, b)) implies #[trigger] a.hash(e, depth, prefix) == (if e
            == epoch && in_cell(morton, depth, prefix) {
            b.hash(e, depth, prefix) ^ (x ^ y)
        } else {
            b.hash(e, depth, prefix)
        }) by {
            let h = forest.hash(e, depth, prefix);
            lemma_xor(h, y, x ^ y);
            lemma_xor(y, x, y);
            lemma_xor(x, y, y);
        }
    }
    law_one_digest_diverges_in_one_leaf(a, b, epoch, morton, x ^ y, leaves);
    lemma_prefix_nests(morton, forest.leaf, forest.leaf);
    law_leaf_range_is_cell(key, epoch, cell_prefix(morton, forest.leaf), forest.leaf);
}

/// What comparing finds is a leaf cell, at the shallower of the two depths, just
/// when the hashes of that cell and of every cell around it, up to the root of
/// its epoch, differ.
pub proof fn law_diff_finds_what_differs_all_the_way(
    a: ForestView,
    b: ForestView,
    leaves: Seq<DivergentLeaf>,
    epoch: u32,
    prefix: u64,
)
    requires
        lists_divergence(a, b, leaves),
        a.leaf <= 63,
        b.leaf <= 63,
    ensures
        ({
            let leaf = if a.leaf <= b.leaf {
                a.leaf
            } else {
                b.leaf
            };
            (exists|i: int|
                0 <= i < leaves.len() && (#[trigger] leaves[i]).epoch == epoch && leaves[i].prefix
                    == prefix) <==> (prefix as int % pow2((64 - leaf) as nat) as int == 0 && a.hash(
                epoch,
                0,
                0,
            ) != b.hash(epoch, 0, 0) && forall|d: nat, p: u64|
                #![trigger a.hash(epoch, d, p)]
                0 < d <= leaf && d % 3 == 0 && p == prefix - prefix as int % pow2(
                    (64 - d) as nat,
                ) as int ==> a.hash(epoch, d, p) != b.hash(epoch, d, p))
        }),
{
    let leaf = common_leaf(a, b);
    law_prefix_rounds_down(prefix, leaf);
    assert(divergent(a, b, epoch, leaf, prefix) <==> (prefix as int % pow2((64 - leaf) as nat) as int
        == 0 && a.hash(epoch, 0, 0) != b.hash(epoch, 0, 0) && forall|d: nat, p: u64|
        #![trigger a.hash(epoch, d, p)]
        0 < d <= leaf && d % 3 == 0 && p == prefix - prefix as int % pow2((64 - d) as nat) as int
            ==> a.hash(epoch, d, p) != b.hash(epoch, d, p))) by {
        if divergent(a, b, epoch, leaf, prefix) {
            assert forall|d: nat, p: u64|
                #![trigger a.hash(epoch, d, p)]
                0 < d <= leaf && d % 3 == 0 && p == prefix - prefix as int % pow2(
                    (64 - d) as nat,
                ) as int implies a.hash(epoch, d, p) != b.hash(epoch, d, p) by {
                law_prefix_rounds_down(prefix, d);
                assert(differ(a, b, epoch, d, cell_prefix(prefix, d)));
            }
        } else if is_prefix(prefix, leaf) && differ(a, b, epoch, 0, 0) {
            let d = choose|d: nat|
                0 < d && is_level(d, leaf) && !differ(
                    a,
                    b,
                    epoch,
                    d,
                    #[trigger] cell_prefix(prefix, d),
                );
            law_prefix_rounds_down(prefix, d);
            let p = cell_prefix(prefix, d);
            assert(a.hash(epoch, d, p) == b.hash(epoch, d, p));
        }
    }
    if divergent(a, b, epoch, leaf, prefix) {
        assert(has_leaf(leaves, 0, epoch, prefix));
    }
    if exists|i: int|
        0 <= i < leaves.len() && (#[trigger] leaves[i]).epoch == epoch && leaves[i].prefix
            == prefix {
        let i = choose|i: int|
            0 <= i < leaves.len() && (#[trigger] leaves[i]).epoch == epoch && leaves[i].prefix
                == prefix;
        assert(divergent(a, b, leaves[i].epoch, leaf, leaves[i].prefix));
    }
}

/// What comparing finds comes in the order of epochs, then of prefixes, each
/// leaf once, at the shallower of the two depths, with its key range: from the
/// first key of its first code to the last key of its last.
pub proof fn law_diff_comes_in_order_with_ranges(
    a: ForestView,
    b: ForestView,
    leaves: Seq<DivergentLeaf>,
)
    requires
        lists_divergence(a, b, leaves),
        3 <= a.leaf <= 63,
        3 <= b.leaf <= 63,
    ensures
        forall|i: int, j: int|
            0 <= i < j < leaves.len() ==> (#[trigger] leaves[i]).epoch < (
            #[trigger] leaves[j]).epoch || (leaves[i].epoch == leaves[j].epoch && leaves[i].prefix
                < leaves[j].prefix),
        forall|i: int|
            0 <= i < leaves.len() ==> {
                let leaf = if a.leaf <= b.leaf {
                    a.leaf
                } else {
                    b.leaf
                };
                let found = #[trigger] leaves[i];
                let epoch = found.epoch as int;
                let code = found.prefix as int;
                let last = code + pow2((64 - leaf) as nat) - 1;
                &&& found.depth_bits == leaf
                &&& found.start_key@.len() == 20
                &&& found.end_key@.len() == 20
                &&& be_value(found.start_key@) == epoch
                    * 0x1_0000_0000_0000_0000_0000_0000_0000_0000 + code * 0x1_0000_0000_0000_0000
                &&& be_value(found.end_key@) == epoch
                    * 0x1_0000_0000_0000_0000_0000_0000_0000_0000 + last * 0x1_0000_0000_0000_0000
                    + 0xffff_ffff_ffff_ffff
            },
{
    let leaf = common_leaf(a, b);
    assert forall|i: int, j: int| 0 <= i < j < leaves.len() implies (#[trigger] leaves[i]).epoch < (
    #[trigger] leaves[j]).epoch || (leaves[i].epoch == leaves[j].epoch && leaves[i].prefix
        < leaves[j].prefix) by {
        assert(precedes(leaves[i], leaves[j]));
    }
    assert forall|i: int| 0 <= i < leaves.len() implies {
        let found = #[trigger] leaves[i];
        let epoch = found.epoch as int;
        let code = found.prefix as int;
        let last = code + pow2((64 - leaf) as nat) - 1;
        &&& found.depth_bits == leaf
        &&& found.start_key@.len() == 20
        &&& found.end_key@.len() == 20
        &&& be_value(found.start_key@) == epoch * 0x1_0000_0000_0000_0000_0000_0000_0000_0000
            + code * 0x1_0000_0000_0000_0000
        &&& be_value(found.end_key@) == epoch * 0x1_0000_0000_0000_0000_0000_0000_0000_0000
            + last * 0x1_0000_0000_0000_0000 + 0xffff_ffff_ffff_ffff
    } by {
        let found = leaves[i];
        assert(divergent(a, b, found.epoch, leaf, found.prefix));
        law_prefix_rounds_down(found.prefix, leaf);
        law_last_code_ends_the_cell(found.prefix, leaf);
        law_key_of_fields(found.epoch, found.prefix, 0);
        law_key_of_fields(found.epoch, last_code(found.prefix, leaf), u64::MAX);
    }
}

} // verus!
