//! What holds of the forest as a whole.

use crate::cell::{
    child_prefix, in_cell, is_leaf_depth, is_level, is_prefix, lemma_child_prefix,
    lemma_children_ascend, lemma_in_child,
};
use crate::digest::item_hash;
use crate::key::{key_epoch, key_morton};
use crate::model::{
    lemma_count_gap, lemma_counting_wf, lemma_empty_wf, lemma_toggled_wf, lemma_xor, ForestView,
    TreeView,
};
use vstd::prelude::*;

verus! {

/// An item: a key and a payload.
pub type Item = (Seq<u8>, Seq<u8>);

/// The forest with an item more.
pub open spec fn with_item(forest: ForestView, item: Item) -> ForestView {
    forest.inserted(key_epoch(item.0), key_morton(item.0), item_hash(item.0, item.1))
}

/// The forest with an item less.
pub open spec fn without_item(forest: ForestView, item: Item) -> ForestView {
    forest.removed(key_epoch(item.0), key_morton(item.0), item_hash(item.0, item.1))
}

/// The forest that items were inserted into, one after another.
pub open spec fn with_items(forest: ForestView, items: Seq<Item>) -> ForestView {
    items.fold_left(forest, |f: ForestView, item: Item| with_item(f, item))
}

/// The exclusive or of the digests of those items of `epoch` that lie in the
/// cell `(depth, prefix)`.
pub open spec fn cell_fold(items: Seq<Item>, epoch: u32, depth: nat, prefix: u64) -> u128
    decreases items.len(),
{
    if items.len() == 0 {
        0
    } else {
        let rest = cell_fold(items.drop_last(), epoch, depth, prefix);
        let (key, payload) = items.last();
        if key_epoch(key) == epoch && in_cell(key_morton(key), depth, prefix) {
            rest ^ item_hash(key, payload)
        } else {
            rest
        }
    }
}

/// Inserting an item keeps a forest well formed.
pub proof fn law_insert_keeps_form(forest: ForestView, epoch: u32, morton: u64, digest: u128)
    requires
        forest.wf(),
    ensures
        forest.inserted(epoch, morton, digest).wf(),
        forest.removed(epoch, morton, digest).wf(),
{
    let tree = forest.tree(epoch);
    lemma_empty_wf(forest.leaf);
    lemma_toggled_wf(tree, forest.leaf, morton, digest);
    let toggled = tree.toggled(forest.leaf, morton, digest);
    lemma_counting_wf(toggled, forest.leaf, tree.count + 1);
    let less = if tree.count == 0 {
        0
    } else {
        (tree.count - 1) as nat
    };
    lemma_counting_wf(toggled, forest.leaf, less);
}

/// Every node hash is the exclusive or of the digests of all items in its
/// subtree, at every depth that the forest has.
pub proof fn law_hash_is_fold_of_items(leaf: nat, items: Seq<Item>, epoch: u32, depth: nat, prefix: u64)
    requires
        is_leaf_depth(leaf),
        is_level(depth, leaf),
    ensures
        with_items(ForestView::empty(leaf), items).leaf == leaf,
        with_items(ForestView::empty(leaf), items).hash(epoch, depth, prefix) == cell_fold(
            items,
            epoch,
            depth,
            prefix,
        ),
    decreases items.len(),
{
    if items.len() > 0 {
        law_hash_is_fold_of_items(leaf, items.drop_last(), epoch, depth, prefix);
    }
}

/// Structure independence: forests with leaves at different depths that hold
/// the same items have the same hash for every cell that both have.
pub proof fn law_hash_is_structure_independent(
    leaf: nat,
    other: nat,
    items: Seq<Item>,
    epoch: u32,
    depth: nat,
    prefix: u64,
)
    requires
        is_leaf_depth(leaf),
        is_leaf_depth(other),
        is_level(depth, leaf),
        is_level(depth, other),
    ensures
        with_items(ForestView::empty(leaf), items).hash(epoch, depth, prefix) == with_items(
            ForestView::empty(other),
            items,
        ).hash(epoch, depth, prefix),
{
    law_hash_is_fold_of_items(leaf, items, epoch, depth, prefix);
    law_hash_is_fold_of_items(other, items, epoch, depth, prefix);
}

/// Two items can be inserted in either order.
pub proof fn law_inserts_commute(forest: ForestView, x: Item, y: Item)
    ensures
        with_item(with_item(forest, x), y) == with_item(with_item(forest, y), x),
{
    let a = with_item(with_item(forest, x), y);
    let b = with_item(with_item(forest, y), x);
    let (ex, mx, hx) = (key_epoch(x.0), key_morton(x.0), item_hash(x.0, x.1));
    let (ey, my, hy) = (key_epoch(y.0), key_morton(y.0), item_hash(y.0, y.1));
    assert forall|epoch: u32| #[trigger] a.trees.contains_key(epoch) implies a.trees[epoch]
        == b.trees[epoch] by {
        let s = a.trees[epoch];
        let t = b.trees[epoch];
        assert(s.count == t.count);
        assert forall|depth: nat, prefix: u64| #[trigger] s.at(depth, prefix) == t.at(depth, prefix) by {
            lemma_xor(forest.hash(epoch, depth, prefix), hx, hy);
        }
        assert(s.hash =~= t.hash) by {
            assert forall|depth: nat, prefix: u64| #[trigger]
                (s.hash)(depth, prefix) == (t.hash)(depth, prefix) by {
                assert(s.at(depth, prefix) == t.at(depth, prefix));
            }
        }
        assert(s =~= t);
    }
    assert(a.trees =~= b.trees);
}

/// Order independence: the same items hash identically, whatever order they
/// were inserted in.
pub proof fn law_insert_order_does_not_matter(forest: ForestView, items: Seq<Item>, others: Seq<Item>)
    requires
        items.to_multiset() == others.to_multiset(),
    ensures
        with_items(forest, items) == with_items(forest, others),
{
    let f = |f: ForestView, item: Item| with_item(f, item);
    assert(vstd::seq_lib::commutative_foldl(f)) by {
        assert forall|x: Item, y: Item, v: ForestView| #[trigger] f(f(v, x), y) == f(f(v, y), x) by {
            law_inserts_commute(v, x, y);
        }
    }
    vstd::seq_lib::lemma_fold_left_permutation(items, others, f, forest);
}

/// Folding the same digest in twice removes it.
pub proof fn law_toggle_is_self_inverse(tree: TreeView, leaf: nat, morton: u64, digest: u128)
    ensures
        tree.toggled(leaf, morton, digest).toggled(leaf, morton, digest) == tree,
{
    let twice = tree.toggled(leaf, morton, digest).toggled(leaf, morton, digest);
    assert forall|depth: nat, prefix: u64| #[trigger]
        (twice.hash)(depth, prefix) == (tree.hash)(depth, prefix) by {
        lemma_xor(tree.at(depth, prefix), digest, digest);
    }
    assert(twice.hash =~= tree.hash);
}

/// Removing what was just inserted gives the forest back, but for an empty
/// tree of the item's epoch if that epoch had none: every hash and the count
/// are as they were.
pub proof fn law_remove_undoes_insert(forest: ForestView, item: Item)
    ensures
        without_item(with_item(forest, item), item) == (ForestView {
            leaf: forest.leaf,
            trees: forest.trees.insert(key_epoch(item.0), forest.tree(key_epoch(item.0))),
        }),
        forest.trees.contains_key(key_epoch(item.0)) ==> without_item(with_item(forest, item), item)
            == forest,
        forall|epoch: u32, depth: nat, prefix: u64| #[trigger]
            without_item(with_item(forest, item), item).hash(epoch, depth, prefix) == forest.hash(
                epoch,
                depth,
                prefix,
            ),
        without_item(with_item(forest, item), item).count() == forest.count(),
{
    let epoch = key_epoch(item.0);
    let digest = item_hash(item.0, item.1);
    let after = without_item(with_item(forest, item), item);
    let tree = forest.tree(epoch);
    assert(after.trees[epoch] =~= tree) by {
        assert forall|depth: nat, prefix: u64| #[trigger]
            (after.trees[epoch].hash)(depth, prefix) == (tree.hash)(depth, prefix) by {
            lemma_xor(tree.at(depth, prefix), digest, digest);
        }
        assert(after.trees[epoch].hash =~= tree.hash);
    }
    assert(after.trees =~= forest.trees.insert(epoch, tree));
    if forest.trees.contains_key(epoch) {
        assert(forest.trees.insert(epoch, tree) =~= forest.trees);
    }
    assert forall|e: u32| #[trigger] after.tree(e) == forest.tree(e) by {}
    lemma_count_cong(after, forest, 0x1_0000_0000);
}

/// Forests with the same trees count the same.
proof fn lemma_count_cong(a: ForestView, b: ForestView, n: nat)
    requires
        forall|e: u32| #[trigger] a.tree(e) == b.tree(e),
    ensures
        a.count_below(n) == b.count_below(n),
    decreases n,
{
    if n > 0 {
        lemma_count_cong(a, b, (n - 1) as nat);
        assert(a.tree((n - 1) as u32) == b.tree((n - 1) as u32));
    }
}

/// Forests that differ in one tree differ in their counts by that tree's.
pub proof fn lemma_count_at(a: ForestView, b: ForestView, epoch: u32, n: nat)
    requires
        n <= 0x1_0000_0000,
        forall|e: u32| e != epoch ==> #[trigger] a.tree(e).count == b.tree(e).count,
    ensures
        epoch < n ==> a.count_below(n) - a.tree(epoch).count == b.count_below(n) - b.tree(
            epoch,
        ).count,
        epoch >= n ==> a.count_below(n) == b.count_below(n),
    decreases n,
{
    if n > 0 {
        lemma_count_at(a, b, epoch, (n - 1) as nat);
        let e = (n - 1) as u32;
        if e != epoch {
            assert(a.tree(e).count == b.tree(e).count);
        }
    }
}

/// A forest that has seen no epoch counts no items, and every hash is 0.
pub proof fn law_empty_forest(leaf: nat, epoch: u32, depth: nat, prefix: u64)
    ensures
        ForestView::empty(leaf).count() == 0,
        ForestView::empty(leaf).hash(epoch, depth, prefix) == 0,
{
    let forest = ForestView::empty(leaf);
    assert forall|e: u32| 0 <= e < 0x1_0000_0000 implies !#[trigger] forest.trees.contains_key(e) by {}
    lemma_count_gap(forest, 0, 0x1_0000_0000);
}

/// An insert counts one item more. A remove counts one less, unless the epoch
/// counted none. Loading an epoch not seen before adds what its record counts.
pub proof fn law_counts(
    forest: ForestView,
    epoch: u32,
    morton: u64,
    digest: u128,
    count: nat,
    entries: Seq<(u64, u128)>,
)
    ensures
        forest.inserted(epoch, morton, digest).count() == forest.count() + 1,
        forest.removed(epoch, morton, digest).count() == (if forest.tree(epoch).count == 0 {
            forest.count() as int
        } else {
            forest.count() - 1
        }),
        !forest.trees.contains_key(epoch) ==> forest.loaded(epoch, count, entries).count()
            == forest.count() + count,
{
    lemma_count_at(forest.inserted(epoch, morton, digest), forest, epoch, 0x1_0000_0000);
    lemma_count_at(forest.removed(epoch, morton, digest), forest, epoch, 0x1_0000_0000);
    lemma_count_at(forest.loaded(epoch, count, entries), forest, epoch, 0x1_0000_0000);
}

/// The exclusive or of the hashes of a list of children.
pub open spec fn list_fold(children: Seq<(u64, u128)>) -> u128
    decreases children.len(),
{
    if children.len() == 0 {
        0
    } else {
        list_fold(children.drop_last()) ^ children.last().1
    }
}

/// A node's hash is the exclusive or of its non-empty children's.
pub proof fn law_parent_is_fold_of_children(forest: ForestView, epoch: u32, depth: nat, prefix: u64)
    requires
        forest.wf(),
        is_level(depth + 3, forest.leaf),
        is_prefix(prefix, depth),
    ensures
        forest.hash(epoch, depth, prefix) == list_fold(forest.children(epoch, depth, prefix, 8)),
{
    lemma_children_list(forest, epoch, depth, prefix, 8);
    lemma_tree_wf(forest, epoch);
    assert(forest.tree(epoch).at(depth, prefix) == forest.tree(epoch).children_fold(
        depth,
        prefix,
        8,
    ));
}

/// A node has at most eight children, listed in ascending order.
pub proof fn law_children_are_few(forest: ForestView, epoch: u32, depth: nat, prefix: u64, n: nat)
    requires
        depth <= 60,
        is_prefix(prefix, depth),
        n <= 8,
    ensures
        forest.children(epoch, depth, prefix, n).len() <= n,
        forall|i: int|
            0 <= i < forest.children(epoch, depth, prefix, n).len() ==> (#[trigger] forest.children(
                epoch,
                depth,
                prefix,
                n,
            )[i]).0 <= child_prefix(prefix, depth, (n - 1) as u64),
        forall|i: int, j: int|
            0 <= i < j < forest.children(epoch, depth, prefix, n).len() ==> forest.children(
                epoch,
                depth,
                prefix,
                n,
            )[i].0 < forest.children(epoch, depth, prefix, n)[j].0,
    decreases n,
{
    if n > 0 {
        let m = (n - 1) as nat;
        law_children_are_few(forest, epoch, depth, prefix, m);
        let c = m as u64;
        lemma_child_prefix(prefix, depth, c);
        lemma_in_child(child_prefix(prefix, depth, c), depth, prefix, c);
        if m > 0 {
            let b = (m - 1) as u64;
            let earlier = child_prefix(prefix, depth, b);
            lemma_child_prefix(prefix, depth, b);
            lemma_in_child(earlier, depth, prefix, b);
            lemma_children_ascend(earlier, depth, prefix, b);
        }
    }
}

/// Every tree of a well-formed forest is well formed, also those never seen.
pub proof fn lemma_tree_wf(forest: ForestView, epoch: u32)
    requires
        forest.wf(),
    ensures
        forest.tree(epoch).wf(forest.leaf),
{
    lemma_empty_wf(forest.leaf);
}

/// Leaving out children that hash to zero does not change the fold.
proof fn lemma_children_list(forest: ForestView, epoch: u32, depth: nat, prefix: u64, n: nat)
    ensures
        list_fold(forest.children(epoch, depth, prefix, n)) == forest.tree(epoch).children_fold(
            depth,
            prefix,
            n,
        ),
    decreases n,
{
    if n > 0 {
        let m = (n - 1) as nat;
        lemma_children_list(forest, epoch, depth, prefix, m);
        let before = forest.children(epoch, depth, prefix, m);
        let child = child_prefix(prefix, depth, m as u64);
        let hash = forest.hash(epoch, depth + 3, child);
        lemma_xor(list_fold(before), 0, 0);
        assert(before.push((child, hash)).drop_last() =~= before);
    }
}

} // verus!
