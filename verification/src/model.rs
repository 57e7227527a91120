//! What a Merkle forest is, mathematically.
//!
//! A tree is the hash of each of its cells, and a count. A forest is a tree
//! for each epoch it has seen. Every operation of the forest is a function on
//! these values.

use crate::cell::{
    child_prefix, in_cell, is_leaf_depth, is_level, is_prefix, lemma_in_child, lemma_prefix_nests,
    octant,
};
use vstd::prelude::*;

verus! {

/// The tree of one epoch.
#[verifier::ext_equal]
pub struct TreeView {
    /// How many items the tree counts.
    pub count: nat,
    /// The hash of the cell at a depth, under a prefix.
    pub hash: spec_fn(nat, u64) -> u128,
}

impl TreeView {
    /// The tree with nothing in it.
    pub open spec fn empty() -> TreeView {
        TreeView { count: 0, hash: |depth: nat, prefix: u64| 0u128 }
    }

    /// The hash of the cell `(depth, prefix)`.
    pub open spec fn at(self, depth: nat, prefix: u64) -> u128 {
        (self.hash)(depth, prefix)
    }

    /// The tree with `digest` folded into every cell that holds `morton`.
    pub open spec fn toggled(self, leaf: nat, morton: u64, digest: u128) -> TreeView {
        TreeView {
            count: self.count,
            hash: |depth: nat, prefix: u64|
                if is_level(depth, leaf) && in_cell(morton, depth, prefix) {
                    self.at(depth, prefix) ^ digest
                } else {
                    self.at(depth, prefix)
                },
        }
    }

    /// The tree with the digests of `items`, each a Morton code and a digest,
    /// folded in one after another.
    pub open spec fn folded(self, leaf: nat, items: Seq<(u64, u128)>) -> TreeView
        decreases items.len(),
    {
        if items.len() == 0 {
            self
        } else {
            self.folded(leaf, items.drop_last()).toggled(leaf, items.last().0, items.last().1)
        }
    }

    /// The tree with another count.
    pub open spec fn counting(self, count: nat) -> TreeView {
        TreeView { count, hash: self.hash }
    }

    /// The exclusive or of the hashes of the first `n` children of a cell.
    pub open spec fn children_fold(self, depth: nat, prefix: u64, n: nat) -> u128
        decreases n,
    {
        if n == 0 {
            0
        } else {
            self.children_fold(depth, prefix, (n - 1) as nat) ^ self.at(
                depth + 3,
                child_prefix(prefix, depth, (n - 1) as u64),
            )
        }
    }

    /// What every tree with leaves at depth `leaf` keeps: only its levels hold
    /// hashes, only under prefixes of their depth, the root is one node, and a
    /// cell's hash is the exclusive or of its children's.
    pub open spec fn wf(self, leaf: nat) -> bool {
        &&& forall|depth: nat, prefix: u64|
            !is_level(depth, leaf) ==> #[trigger] self.at(depth, prefix) == 0
        &&& forall|depth: nat, prefix: u64|
            depth > 0 && !is_prefix(prefix, depth) ==> #[trigger] self.at(depth, prefix) == 0
        &&& forall|prefix: u64| #[trigger] self.at(0, prefix) == self.at(0, 0)
        &&& forall|depth: nat, prefix: u64|
            is_level(depth + 3, leaf) && is_prefix(prefix, depth) ==> self.at(depth, prefix)
                == #[trigger] self.children_fold(depth, prefix, 8)
    }
}

/// A tree per epoch, all with leaves at one depth.
#[verifier::ext_equal]
pub struct ForestView {
    /// The depth of the leaves, in bits.
    pub leaf: nat,
    /// The trees, by epoch.
    pub trees: Map<u32, TreeView>,
}

impl ForestView {
    /// The forest that has seen no epoch.
    pub open spec fn empty(leaf: nat) -> ForestView {
        ForestView { leaf, trees: Map::empty() }
    }

    /// The tree of `epoch`; an epoch never seen has the empty one.
    pub open spec fn tree(self, epoch: u32) -> TreeView {
        if self.trees.contains_key(epoch) {
            self.trees[epoch]
        } else {
            TreeView::empty()
        }
    }

    /// The hash of the cell `(depth, prefix)` of `epoch`.
    pub open spec fn hash(self, epoch: u32, depth: nat, prefix: u64) -> u128 {
        self.tree(epoch).at(depth, prefix)
    }

    /// The forest with one item of `epoch` more.
    pub open spec fn inserted(self, epoch: u32, morton: u64, digest: u128) -> ForestView {
        let tree = self.tree(epoch);
        ForestView {
            leaf: self.leaf,
            trees: self.trees.insert(
                epoch,
                tree.toggled(self.leaf, morton, digest).counting(tree.count + 1),
            ),
        }
    }

    /// The forest with one item of `epoch` less. An epoch never seen stays so,
    /// and a count of zero stays zero.
    pub open spec fn removed(self, epoch: u32, morton: u64, digest: u128) -> ForestView {
        if self.trees.contains_key(epoch) {
            let tree = self.trees[epoch];
            let count = if tree.count == 0 {
                0
            } else {
                (tree.count - 1) as nat
            };
            ForestView {
                leaf: self.leaf,
                trees: self.trees.insert(
                    epoch,
                    tree.toggled(self.leaf, morton, digest).counting(count),
                ),
            }
        } else {
            self
        }
    }

    /// The forest with a tree for `epoch` built from the hashes of leaves.
    pub open spec fn loaded(self, epoch: u32, count: nat, entries: Seq<(u64, u128)>) -> ForestView {
        ForestView {
            leaf: self.leaf,
            trees: self.trees.insert(
                epoch,
                TreeView::empty().folded(self.leaf, entries).counting(count),
            ),
        }
    }

    /// The non-empty ones of the first `n` children of the cell `(depth, prefix)`
    /// of `epoch`, each with its hash.
    pub open spec fn children(self, epoch: u32, depth: nat, prefix: u64, n: nat) -> Seq<(u64, u128)>
        decreases n,
    {
        if n == 0 {
            Seq::empty()
        } else {
            let before = self.children(epoch, depth, prefix, (n - 1) as nat);
            let child = child_prefix(prefix, depth, (n - 1) as u64);
            let hash = self.hash(epoch, depth + 3, child);
            if hash == 0 {
                before
            } else {
                before.push((child, hash))
            }
        }
    }

    /// Whether `epochs` lists the epochs seen, in ascending order.
    pub open spec fn lists_epochs(self, epochs: Seq<u32>) -> bool {
        &&& forall|i: int, j: int| 0 <= i < j < epochs.len() ==> epochs[i] < epochs[j]
        &&& forall|epoch: u32| self.trees.contains_key(epoch) <==> #[trigger] epochs.contains(epoch)
    }

    /// Whether `roots` lists the epochs whose root is not 0, each with its
    /// root, in ascending order.
    pub open spec fn lists_roots(self, roots: Seq<(u32, u128)>) -> bool {
        &&& forall|i: int, j: int| 0 <= i < j < roots.len() ==> roots[i].0 < roots[j].0
        &&& forall|i: int|
            0 <= i < roots.len() ==> (#[trigger] roots[i]).1 != 0 && roots[i].1 == self.hash(
                roots[i].0,
                0,
                0,
            )
        &&& forall|epoch: u32|
            #[trigger] self.hash(epoch, 0, 0) != 0 ==> roots.contains((epoch, self.hash(epoch, 0, 0)))
    }

    /// How many items the epochs below `n` count.
    pub open spec fn count_below(self, n: nat) -> nat
        decreases n,
    {
        if n == 0 {
            0
        } else {
            self.count_below((n - 1) as nat) + self.tree((n - 1) as u32).count
        }
    }

    /// How many items the forest counts.
    pub open spec fn count(self) -> nat {
        self.count_below(0x1_0000_0000)
    }

    /// Whether every epoch's count is one that a tree can hold.
    pub open spec fn counts_fit(self) -> bool {
        forall|epoch: u32| #[trigger] self.tree(epoch).count <= u64::MAX
    }

    /// What every forest keeps.
    pub open spec fn wf(self) -> bool {
        &&& is_leaf_depth(self.leaf)
        &&& self.trees.dom().finite()
        &&& forall|epoch: u32| #[trigger]
            self.trees.contains_key(epoch) ==> self.trees[epoch].wf(self.leaf)
    }
}

/// Exclusive or is associative and commutative, and undoes itself.
pub proof fn lemma_xor(a: u128, b: u128, c: u128)
    ensures
        (a ^ b) ^ c == (a ^ c) ^ b,
        (a ^ b) ^ c == a ^ (b ^ c),
        a ^ b == b ^ a,
        (a ^ b) ^ b == a,
        a ^ 0 == a,
        0 ^ a == a,
        a ^ a == 0,
{
    assert((a ^ b) ^ c == (a ^ c) ^ b) by (bit_vector);
    assert((a ^ b) ^ c == a ^ (b ^ c)) by (bit_vector);
    assert(a ^ b == b ^ a) by (bit_vector);
    assert((a ^ b) ^ b == a) by (bit_vector);
    assert(a ^ 0 == a && 0 ^ a == a && a ^ a == 0) by (bit_vector);
}

/// The empty tree is well formed.
pub proof fn lemma_empty_wf(leaf: nat)
    ensures
        TreeView::empty().wf(leaf),
{
    assert forall|depth: nat, prefix: u64| #[trigger]
        TreeView::empty().children_fold(depth, prefix, 8) == 0 by {
        lemma_children_fold_zero(TreeView::empty(), depth, prefix, 8);
    }
}

/// Children that all hash to zero fold to zero.
pub proof fn lemma_children_fold_zero(tree: TreeView, depth: nat, prefix: u64, n: nat)
    requires
        n <= 8,
        forall|c: u64| c < 8 ==> tree.at(depth + 3, #[trigger] child_prefix(prefix, depth, c)) == 0,
    ensures
        tree.children_fold(depth, prefix, n) == 0,
    decreases n,
{
    if n > 0 {
        lemma_children_fold_zero(tree, depth, prefix, (n - 1) as nat);
        lemma_xor(0, 0, 0);
        let c = (n - 1) as u64;
        assert(tree.at(depth + 3, child_prefix(prefix, depth, c)) == 0);
    }
}

/// Folding a digest in changes the fold of a cell's children by that digest if
/// the cell holds the code, and not at all otherwise.
proof fn lemma_toggle_children(
    tree: TreeView,
    leaf: nat,
    morton: u64,
    digest: u128,
    depth: nat,
    prefix: u64,
    n: nat,
)
    requires
        n <= 8,
        leaf <= 63,
        is_level(depth + 3, leaf),
        is_prefix(prefix, depth),
    ensures
        tree.toggled(leaf, morton, digest).children_fold(depth, prefix, n) == (if in_cell(
            morton,
            depth,
            prefix,
        ) && octant(morton, depth) < n {
            tree.children_fold(depth, prefix, n) ^ digest
        } else {
            tree.children_fold(depth, prefix, n)
        }),
    decreases n,
{
    if n > 0 {
        let m = (n - 1) as nat;
        lemma_toggle_children(tree, leaf, morton, digest, depth, prefix, m);
        let c = m as u64;
        lemma_in_child(morton, depth, prefix, c);
        let before = tree.children_fold(depth, prefix, m);
        let own = tree.at(depth + 3, child_prefix(prefix, depth, c));
        lemma_xor(before, digest, own);
        lemma_xor(before, own, digest);
    }
}

/// Folding a digest in keeps a tree well formed.
pub proof fn lemma_toggled_wf(tree: TreeView, leaf: nat, morton: u64, digest: u128)
    requires
        is_leaf_depth(leaf),
        tree.wf(leaf),
    ensures
        tree.toggled(leaf, morton, digest).wf(leaf),
{
    let after = tree.toggled(leaf, morton, digest);
    assert forall|depth: nat, prefix: u64|
        depth > 0 && !is_prefix(prefix, depth) implies #[trigger] after.at(depth, prefix) == 0 by {
        assert(tree.at(depth, prefix) == 0);
        if is_level(depth, leaf) {
            lemma_prefix_nests(morton, depth, depth);
        }
    }
    assert forall|prefix: u64| #[trigger] after.at(0, prefix) == after.at(0, 0) by {
        assert(tree.at(0, prefix) == tree.at(0, 0));
    }
    assert forall|depth: nat, prefix: u64|
        is_level(depth + 3, leaf) && is_prefix(prefix, depth) implies after.at(depth, prefix)
        == #[trigger] after.children_fold(depth, prefix, 8) by {
        lemma_toggle_children(tree, leaf, morton, digest, depth, prefix, 8);
        lemma_in_child(morton, depth, prefix, 0);
        assert(tree.at(depth, prefix) == tree.children_fold(depth, prefix, 8));
    }
}

/// A count has no bearing on a tree's form.
pub proof fn lemma_counting_wf(tree: TreeView, leaf: nat, count: nat)
    requires
        tree.wf(leaf),
    ensures
        tree.counting(count).wf(leaf),
{
    let after = tree.counting(count);
    assert forall|depth: nat, prefix: u64| #[trigger] after.at(depth, prefix) == tree.at(depth, prefix) by {}
    assert forall|depth: nat, prefix: u64|
        is_level(depth + 3, leaf) && is_prefix(prefix, depth) implies after.at(depth, prefix)
        == #[trigger] after.children_fold(depth, prefix, 8) by {
        lemma_children_fold_cong(tree, after, depth, prefix, 8);
        assert(tree.at(depth, prefix) == tree.children_fold(depth, prefix, 8));
    }
}

/// Trees that agree on a cell's children agree on the children's fold.
pub proof fn lemma_children_fold_cong(a: TreeView, b: TreeView, depth: nat, prefix: u64, n: nat)
    requires
        n <= 8,
        forall|c: u64|
            c < 8 ==> a.at(depth + 3, #[trigger] child_prefix(prefix, depth, c)) == b.at(
                depth + 3,
                child_prefix(prefix, depth, c),
            ),
    ensures
        a.children_fold(depth, prefix, n) == b.children_fold(depth, prefix, n),
    decreases n,
{
    if n > 0 {
        lemma_children_fold_cong(a, b, depth, prefix, (n - 1) as nat);
        let c = (n - 1) as u64;
        assert(a.at(depth + 3, child_prefix(prefix, depth, c)) == b.at(
            depth + 3,
            child_prefix(prefix, depth, c),
        ));
    }
}

/// Epochs never seen add nothing to the count.
pub proof fn lemma_count_gap(forest: ForestView, low: nat, high: nat)
    requires
        low <= high <= 0x1_0000_0000,
        forall|epoch: u32| low <= epoch < high ==> !#[trigger] forest.trees.contains_key(epoch),
    ensures
        forest.count_below(high) == forest.count_below(low),
    decreases high - low,
{
    if low < high {
        lemma_count_gap(forest, low, (high - 1) as nat);
        assert(!forest.trees.contains_key((high - 1) as u32));
    }
}

/// Counting further never counts less.
pub proof fn lemma_count_monotone(forest: ForestView, low: nat, high: nat)
    requires
        low <= high,
    ensures
        forest.count_below(low) <= forest.count_below(high),
    decreases high - low,
{
    if low < high {
        lemma_count_monotone(forest, low, (high - 1) as nat);
    }
}

} // verus!
