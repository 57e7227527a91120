//! What holds of sealing an epoch and loading it again.

use crate::bytes::{
    be_bytes, be_value, law_bytes_denote_the_number, lemma_be_bytes_len, lemma_be_value_bound,
    lemma_be_value_of_bytes, lemma_spans,
};
use crate::cell::{is_leaf_depth, is_level, is_prefix};
use crate::laws::lemma_tree_wf;
use crate::laws_converge::lemma_cells_determine;
use crate::model::{
    lemma_counting_wf, lemma_empty_wf, lemma_toggled_wf, lemma_xor, ForestView, TreeView,
};
use crate::seal::{
    entry_bytes, lists_leaves, seal_bytes, seal_error, sealed_count, sealed_entries,
    SealError,
};
use crate::text::decimal;
use vstd::prelude::*;

verus! {

/// The entries of a record stand one after another, 24 bytes each.
proof fn lemma_entry_bytes(entries: Seq<(u64, u128)>)
    ensures
        entry_bytes(entries).len() == 24 * entries.len(),
        forall|i: int|
            0 <= i < entries.len() ==> entry_bytes(entries).subrange(24 * i, 24 * i + 8) == be_bytes(
                (#[trigger] entries[i]).0 as nat,
                8,
            ) && entry_bytes(entries).subrange(24 * i + 8, 24 * i + 24) == be_bytes(
                entries[i].1 as nat,
                16,
            ),
    decreases entries.len(),
{
    if entries.len() > 0 {
        let rest = entries.drop_last();
        let last = entries.last();
        lemma_entry_bytes(rest);
        lemma_be_bytes_len(last.0 as nat, 8);
        lemma_be_bytes_len(last.1 as nat, 16);
        let before = entry_bytes(rest);
        let bytes = entry_bytes(entries);
        let n = rest.len() as int;
        assert forall|i: int| 0 <= i < entries.len() implies bytes.subrange(24 * i, 24 * i + 8)
            == be_bytes((#[trigger] entries[i]).0 as nat, 8) && bytes.subrange(24 * i + 8, 24 * i + 24)
            == be_bytes(entries[i].1 as nat, 16) by {
            if i < n {
                assert(entries[i] == rest[i]);
                assert(bytes.subrange(24 * i, 24 * i + 8) =~= before.subrange(24 * i, 24 * i + 8));
                assert(bytes.subrange(24 * i + 8, 24 * i + 24) =~= before.subrange(
                    24 * i + 8,
                    24 * i + 24,
                ));
            } else {
                assert(bytes.subrange(24 * i, 24 * i + 8) =~= be_bytes(last.0 as nat, 8));
                assert(bytes.subrange(24 * i + 8, 24 * i + 24) =~= be_bytes(last.1 as nat, 16));
            }
        }
    }
}

/// A record is read as it was written, if its number of entries fits in the
/// four bytes kept for it.
pub proof fn law_record_is_read_as_written(leaf: nat, count: nat, entries: Seq<(u64, u128)>, epoch: u32)
    requires
        leaf <= 63,
        count <= u64::MAX,
        entries.len() <= u32::MAX,
    ensures
        seal_error(seal_bytes(leaf, count, entries), leaf, epoch, false) is None,
        sealed_count(seal_bytes(leaf, count, entries)) == count,
        sealed_entries(seal_bytes(leaf, count, entries)) == entries,
{
    let record = seal_bytes(leaf, count, entries);
    let tail = entry_bytes(entries);
    lemma_spans();
    lemma_entry_bytes(entries);
    lemma_be_bytes_len(count, 8);
    lemma_be_bytes_len(entries.len(), 4);
    lemma_be_value_of_bytes(count, 8);
    lemma_be_value_of_bytes(entries.len(), 4);
    assert(record.subrange(2, 10) =~= be_bytes(count, 8));
    assert(record.subrange(10, 14) =~= be_bytes(entries.len(), 4));
    assert(record.len() == 14 + 24 * entries.len());
    assert forall|i: int| 0 <= i < entries.len() implies sealed_entries(record)[i]
        == #[trigger] entries[i] by {
        assert(record.subrange(14 + 24 * i, 22 + 24 * i) =~= tail.subrange(24 * i, 24 * i + 8));
        assert(record.subrange(22 + 24 * i, 38 + 24 * i) =~= tail.subrange(24 * i + 8, 24 * i + 24));
        lemma_be_value_of_bytes(entries[i].0 as nat, 8);
        lemma_be_value_of_bytes(entries[i].1 as nat, 16);
    }
    assert(sealed_entries(record) =~= entries);
}

/// The non-empty leaves of a tree no deeper than 30 bits can be counted in
/// four bytes.
proof fn lemma_leaves_fit(tree: TreeView, leaf: nat, entries: Seq<(u64, u128)>)
    requires
        3 <= leaf <= 30,
        tree.wf(leaf),
        lists_leaves(tree, leaf, entries),
    ensures
        entries.len() <= u32::MAX,
{
    if entries.len() > 0 {
        let last = entries.len() - 1;
        lemma_leaves_spread(tree, leaf, entries, last);
        let s = (64 - leaf) as u64;
        let p = entries[last].0;
        assert(p >> s <= 0x3fff_ffff) by (bit_vector)
            requires
                34 <= s < 64,
        ;
    }
}

/// At least `i` cells come before the `i`-th non-empty leaf.
proof fn lemma_leaves_spread(tree: TreeView, leaf: nat, entries: Seq<(u64, u128)>, i: int)
    requires
        3 <= leaf <= 30,
        tree.wf(leaf),
        lists_leaves(tree, leaf, entries),
        0 <= i < entries.len(),
    ensures
        entries[i].0 >> ((64 - leaf) as u64) >= i,
    decreases i,
{
    if i > 0 {
        lemma_leaves_spread(tree, leaf, entries, i - 1);
        let s = (64 - leaf) as u64;
        let p = entries[i - 1].0;
        let q = entries[i].0;
        assert(tree.at(leaf, p) != 0 && tree.at(leaf, q) != 0);
        assert(is_prefix(p, leaf) && is_prefix(q, leaf));
        assert((p >> s) + 1 <= q >> s) by (bit_vector)
            requires
                (p >> s) << s == p,
                (q >> s) << s == q,
                p < q,
                s < 64,
        ;
    }
}

/// Folding in the hashes of leaves gives a well-formed tree, in which each
/// leaf has the hash it was given.
proof fn lemma_folded_leaves(leaf: nat, entries: Seq<(u64, u128)>)
    requires
        is_leaf_depth(leaf),
        forall|i: int, j: int| 0 <= i < j < entries.len() ==> entries[i].0 < entries[j].0,
        forall|i: int| 0 <= i < entries.len() ==> is_prefix((#[trigger] entries[i]).0, leaf),
    ensures
        TreeView::empty().folded(leaf, entries).wf(leaf),
        forall|i: int|
            0 <= i < entries.len() ==> TreeView::empty().folded(leaf, entries).at(
                leaf,
                (#[trigger] entries[i]).0,
            ) == entries[i].1,
        forall|q: u64|
            (forall|i: int| 0 <= i < entries.len() ==> (#[trigger] entries[i]).0 != q)
                ==> #[trigger] TreeView::empty().folded(leaf, entries).at(leaf, q) == 0,
    decreases entries.len(),
{
    lemma_empty_wf(leaf);
    if entries.len() > 0 {
        let rest = entries.drop_last();
        let last = entries.last();
        let n = rest.len() as int;
        assert forall|i: int| 0 <= i < n implies #[trigger] rest[i] == entries[i] by {}
        lemma_folded_leaves(leaf, rest);
        let before = TreeView::empty().folded(leaf, rest);
        let after = TreeView::empty().folded(leaf, entries);
        lemma_toggled_wf(before, leaf, last.0, last.1);
        assert(is_prefix(entries[n].0, leaf));
        assert forall|i: int| 0 <= i < entries.len() implies after.at(leaf, (#[trigger] entries[i]).0)
            == entries[i].1 by {
            if i < n {
                assert(rest[i] == entries[i]);
                assert(entries[i].0 < entries[n].0);
            } else {
                assert forall|j: int| 0 <= j < rest.len() implies (#[trigger] rest[j]).0 != last.0 by {
                    assert(rest[j] == entries[j]);
                }
                assert(before.at(leaf, last.0) == 0);
                lemma_xor(last.1, 0, 0);
            }
        }
        assert forall|q: u64|
            (forall|i: int| 0 <= i < entries.len() ==> (#[trigger] entries[i]).0 != q) implies #[trigger] after.at(
            leaf,
            q,
        ) == 0 by {
            assert forall|j: int| 0 <= j < rest.len() implies (#[trigger] rest[j]).0 != q by {
                assert(rest[j] == entries[j]);
            }
            assert(before.at(leaf, q) == 0);
            assert(entries[n].0 != q);
        }
    }
}

/// Well-formed trees with the same leaves and the same count are the same.
proof fn lemma_leaves_determine(a: TreeView, b: TreeView, leaf: nat)
    requires
        is_leaf_depth(leaf),
        a.wf(leaf),
        b.wf(leaf),
        a.count == b.count,
        forall|q: u64| is_prefix(q, leaf) ==> #[trigger] a.at(leaf, q) == b.at(leaf, q),
    ensures
        a == b,
{
    assert forall|depth: nat, prefix: u64| #[trigger] a.at(depth, prefix) == b.at(depth, prefix) by {
        if is_level(depth, leaf) {
            if depth == 0 {
                lemma_cells_determine(a, leaf, b, leaf, leaf, 0, 0);
                assert(a.at(0, prefix) == a.at(0, 0));
                assert(b.at(0, prefix) == b.at(0, 0));
            } else if is_prefix(prefix, depth) {
                lemma_cells_determine(a, leaf, b, leaf, leaf, depth, prefix);
            }
        }
    }
    assert(a.hash =~= b.hash) by {
        assert forall|depth: nat, prefix: u64| #[trigger]
            (a.hash)(depth, prefix) == (b.hash)(depth, prefix) by {
            assert(a.at(depth, prefix) == b.at(depth, prefix));
        }
    }
}

/// The leaves of a tree determine all of it: folding them up through every
/// level gives the tree.
pub proof fn law_leaves_rebuild_the_tree(tree: TreeView, leaf: nat, entries: Seq<(u64, u128)>)
    requires
        is_leaf_depth(leaf),
        tree.wf(leaf),
        lists_leaves(tree, leaf, entries),
    ensures
        TreeView::empty().folded(leaf, entries).counting(tree.count) == tree,
{
    assert forall|i: int| 0 <= i < entries.len() implies is_prefix((#[trigger] entries[i]).0, leaf) by {
        assert(tree.at(leaf, entries[i].0) != 0);
    }
    lemma_folded_leaves(leaf, entries);
    let folded = TreeView::empty().folded(leaf, entries);
    let rebuilt = folded.counting(tree.count);
    lemma_counting_wf(folded, leaf, tree.count);
    assert forall|q: u64| is_prefix(q, leaf) implies #[trigger] rebuilt.at(leaf, q) == tree.at(leaf, q) by {
        assert(rebuilt.at(leaf, q) == folded.at(leaf, q));
        if tree.at(leaf, q) != 0 {
            assert(entries.contains((q, tree.at(leaf, q))));
            let i = choose|i: int| 0 <= i < entries.len() && entries[i] == (q, tree.at(leaf, q));
            assert(folded.at(leaf, entries[i].0) == entries[i].1);
        } else {
            assert forall|i: int| 0 <= i < entries.len() implies (#[trigger] entries[i]).0 != q by {}
        }
    }
    lemma_leaves_determine(rebuilt, tree, leaf);
}

/// The seal round trip: what was sealed from one forest loads into another
/// with leaves at the same depth that has not seen the epoch, and the epoch's
/// tree is then the same in both, hash for hash, with the same count.
///
/// The number of leaves is kept in four bytes: trees deeper than 30 bits have
/// to have no more leaves than those can count.
pub proof fn law_seal_roundtrip(
    forest: ForestView,
    other: ForestView,
    epoch: u32,
    entries: Seq<(u64, u128)>,
)
    requires
        forest.wf(),
        other.leaf == forest.leaf,
        !other.trees.contains_key(epoch),
        forest.tree(epoch).count <= u64::MAX,
        lists_leaves(forest.tree(epoch), forest.leaf, entries),
        forest.leaf <= 30 || entries.len() <= u32::MAX,
    ensures
        ({
            let record = seal_bytes(forest.leaf, forest.tree(epoch).count, entries);
            &&& seal_error(record, other.leaf, epoch, other.trees.contains_key(epoch)) is None
            &&& other.loaded(epoch, sealed_count(record), sealed_entries(record)).tree(epoch)
                == forest.tree(epoch)
        }),
{
    lemma_tree_wf(forest, epoch);
    if forest.leaf <= 30 {
        lemma_leaves_fit(forest.tree(epoch), forest.leaf, entries);
    }
    law_record_is_read_as_written(forest.leaf, forest.tree(epoch).count, entries, epoch);
    law_leaves_rebuild_the_tree(forest.tree(epoch), forest.leaf, entries);
}

/// How a record is laid out: version 1, the depth of the leaves, what the epoch
/// counts, how many entries there are, then each entry's prefix and hash.
pub proof fn law_record_layout(leaf: nat, count: nat, entries: Seq<(u64, u128)>, i: int)
    requires
        leaf <= 63,
        count <= u64::MAX,
        0 <= i <= entries.len(),
    ensures
        ({
            let record = seal_bytes(leaf, count, entries);
            &&& record.len() == 14 + 24 * entries.len()
            &&& record[0] == 1
            &&& record[1] == leaf
            &&& be_value(record.subrange(2, 10)) == count
            &&& be_value(record.subrange(10, 14)) == entries.len() as int % 0x1_0000_0000
            &&& i < entries.len() ==> be_value(record.subrange(14 + 24 * i, 22 + 24 * i))
                == entries[i].0
            &&& i < entries.len() ==> be_value(record.subrange(22 + 24 * i, 38 + 24 * i))
                == entries[i].1
        }),
{
    let record = seal_bytes(leaf, count, entries);
    let tail = entry_bytes(entries);
    lemma_spans();
    lemma_entry_bytes(entries);
    lemma_be_bytes_len(count, 8);
    lemma_be_bytes_len(entries.len(), 4);
    lemma_be_value_of_bytes(count, 8);
    law_bytes_denote_the_number(entries.len(), 4);
    assert(vstd::arithmetic::power::pow(256, 4) == 0x1_0000_0000) by {
        reveal_with_fuel(vstd::arithmetic::power::pow, 5);
    }
    assert(record.subrange(2, 10) =~= be_bytes(count, 8));
    assert(record.subrange(10, 14) =~= be_bytes(entries.len(), 4));
    if i < entries.len() {
        assert(entries[i] == entries[i]);
        assert(record.subrange(14 + 24 * i, 22 + 24 * i) =~= tail.subrange(24 * i, 24 * i + 8));
        assert(record.subrange(22 + 24 * i, 38 + 24 * i) =~= tail.subrange(24 * i + 8, 24 * i + 24));
        lemma_be_value_of_bytes(entries[i].0 as nat, 8);
        lemma_be_value_of_bytes(entries[i].1 as nat, 16);
    }
}

/// How a record is read: the fields are where they were written.
pub proof fn law_record_fields(record: Seq<u8>, i: int)
    requires
        record.len() >= 14,
        0 <= i < be_value(record.subrange(10, 14)),
        38 + 24 * i <= record.len(),
    ensures
        sealed_count(record) == be_value(record.subrange(2, 10)),
        sealed_entries(record).len() == be_value(record.subrange(10, 14)),
        sealed_entries(record)[i].0 == be_value(record.subrange(14 + 24 * i, 22 + 24 * i)),
        sealed_entries(record)[i].1 == be_value(record.subrange(22 + 24 * i, 38 + 24 * i)),
{
    lemma_spans();
    lemma_be_value_bound(record.subrange(14 + 24 * i, 22 + 24 * i));
    lemma_be_value_bound(record.subrange(22 + 24 * i, 38 + 24 * i));
}

/// When a record is refused, and why: the epoch has a tree already; or else the
/// record is too short; or else it has another version; or else another leaf
/// depth; or else a length that does not go with its number of entries. In no
/// other case is it refused.
pub proof fn law_when_a_record_is_refused(
    record: Seq<u8>,
    leaf: nat,
    epoch: u32,
    populated: bool,
)
    requires
        leaf <= 63,
        record.len() <= usize::MAX,
    ensures
        ({
            let error = seal_error(record, leaf, epoch, populated);
            let n = be_value(record.subrange(10, 14));
            &&& populated <==> error == Some(SealError::AlreadyPopulated { epoch })
            &&& (!populated && record.len() < 14) <==> error == Some(SealError::TooShort)
            &&& (!populated && record.len() >= 14 && record[0] != 1) <==> error == Some(
                SealError::UnsupportedVersion { version: record[0] },
            )
            &&& (!populated && record.len() >= 14 && record[0] == 1 && record[1] != leaf)
                <==> error == Some(
                SealError::LeafDepthMismatch { sealed: record[1], forest: leaf as usize },
            )
            &&& (!populated && record.len() >= 14 && record[0] == 1 && record[1] == leaf
                && record.len() != 14 + 24 * n) <==> error == Some(
                SealError::LengthMismatch { length: record.len() as usize, entries: n as u32 },
            )
            &&& (!populated && record.len() >= 14 && record[0] == 1 && record[1] == leaf
                && record.len() == 14 + 24 * n) <==> error is None
        }),
{
}

/// What each refusal says.
pub proof fn law_refusal_texts(epoch: u32, version: u8, sealed: u8, number: usize, entries: u32)
    ensures
        (SealError::AlreadyPopulated { epoch }).text() == "epoch "@ + decimal(epoch as nat)
            + " already populated"@,
        SealError::TooShort.text() == "seal record too short"@,
        (SealError::UnsupportedVersion { version }).text() == "unsupported seal record version "@
            + decimal(version as nat),
        (SealError::LeafDepthMismatch { sealed, forest: number }).text()
            == "seal record leaf depth "@ + decimal(sealed as nat)
            + " does not match forest leaf depth "@ + decimal(number as nat),
        (SealError::LengthMismatch { length: number, entries }).text() == "seal record length "@
            + decimal(number as nat) + " does not match "@ + decimal(entries as nat) + " entries"@,
{
}

} // verus!
