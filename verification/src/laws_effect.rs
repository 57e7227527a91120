//! What each operation does to a forest, cell by cell and epoch by epoch, and
//! what the listings of a forest tell of it.

use crate::cell::{child_prefix, law_children_share_out_a_cell, law_prefix_rounds_down};
use crate::laws::{lemma_count_at, lemma_tree_wf};
use crate::laws_seal::law_leaves_rebuild_the_tree;
use crate::model::{ForestView, TreeView};
use crate::seal::lists_leaves;
use vstd::arithmetic::power2::pow2;
use vstd::prelude::*;

verus! {

/// Inserting an item changes, in its epoch, the hash of each cell that holds its
/// code, by its digest, and the count, by one. All else stays: every other
/// cell, every other epoch, and the depth of the leaves.
pub proof fn law_effect_of_insert(
    forest: ForestView,
    epoch: u32,
    morton: u64,
    digest: u128,
    e: u32,
    depth: nat,
    prefix: u64,
)
    requires
        forest.leaf <= 63,
        depth <= forest.leaf,
        depth % 3 == 0,
    ensures
        ({
            let after = forest.inserted(epoch, morton, digest);
            &&& after.leaf == forest.leaf
            &&& after.hash(e, depth, prefix) == (if e == epoch && (depth == 0 || prefix == morton
                - morton as int % pow2((64 - depth) as nat) as int) {
                forest.hash(e, depth, prefix) ^ digest
            } else {
                forest.hash(e, depth, prefix)
            })
            &&& after.tree(e).count == (if e == epoch {
                forest.tree(e).count + 1
            } else {
                forest.tree(e).count
            })
            &&& after.trees.contains_key(e) <==> (e == epoch || forest.trees.contains_key(e))
        }),
{
    law_prefix_rounds_down(morton, depth);
}

/// Removing an item changes, in its epoch, the hash of each cell that holds its
/// code, by its digest, and the count, by one unless it is 0. All else stays,
/// and all of it if the epoch was never seen.
pub proof fn law_effect_of_remove(
    forest: ForestView,
    epoch: u32,
    morton: u64,
    digest: u128,
    e: u32,
    depth: nat,
    prefix: u64,
)
    requires
        forest.leaf <= 63,
        depth <= forest.leaf,
        depth % 3 == 0,
    ensures
        ({
            let after = forest.removed(epoch, morton, digest);
            let seen = forest.trees.contains_key(epoch);
            &&& after.leaf == forest.leaf
            &&& after.hash(e, depth, prefix) == (if seen && e == epoch && (depth == 0 || prefix
                == morton - morton as int % pow2((64 - depth) as nat) as int) {
                forest.hash(e, depth, prefix) ^ digest
            } else {
                forest.hash(e, depth, prefix)
            })
            &&& after.tree(e).count == (if e == epoch && forest.tree(e).count > 0 {
                forest.tree(e).count - 1
            } else {
                forest.tree(e).count as int
            })
            &&& after.trees.contains_key(e) <==> forest.trees.contains_key(e)
        }),
{
    law_prefix_rounds_down(morton, depth);
}

/// Loading a record for one epoch leaves every other epoch as it was. In its
/// own epoch it counts what the record counts, and each entry adds its hash to
/// every cell that holds its prefix; no entries add nothing.
pub proof fn law_effect_of_load(
    forest: ForestView,
    epoch: u32,
    count: nat,
    entries: Seq<(u64, u128)>,
    entry: (u64, u128),
    e: u32,
    depth: nat,
    prefix: u64,
)
    requires
        forest.leaf <= 63,
        depth <= forest.leaf,
        depth % 3 == 0,
    ensures
        ({
            let after = forest.loaded(epoch, count, entries);
            &&& after.leaf == forest.leaf
            &&& e != epoch ==> after.tree(e) == forest.tree(e)
            &&& e != epoch ==> after.hash(e, depth, prefix) == forest.hash(e, depth, prefix)
            &&& after.trees.contains_key(e) <==> (e == epoch || forest.trees.contains_key(e))
            &&& after.tree(epoch).count == count
            &&& forest.loaded(epoch, count, Seq::empty()).hash(epoch, depth, prefix) == 0
            &&& forest.loaded(epoch, count, entries.push(entry)).hash(epoch, depth, prefix) == (
            if depth == 0 || prefix == entry.0 - entry.0 as int % pow2((64 - depth) as nat) as int {
                after.hash(epoch, depth, prefix) ^ entry.1
            } else {
                after.hash(epoch, depth, prefix)
            })
        }),
{
    law_prefix_rounds_down(entry.0, depth);
    assert(entries.push(entry).drop_last() =~= entries);
    assert(entries.push(entry).last() == entry);
}

/// A forest that has seen nothing has no epochs, counts nothing, and hashes to
/// 0 everywhere. Its leaves may be at any multiple of 3 from 3 to 63 bits, and
/// at no other depth.
pub proof fn law_nothing_is_in_an_empty_forest(leaf: nat, e: u32, depth: nat, prefix: u64)
    ensures
        ForestView::empty(leaf).leaf == leaf,
        !ForestView::empty(leaf).trees.contains_key(e),
        ForestView::empty(leaf).tree(e).count == 0,
        ForestView::empty(leaf).hash(e, depth, prefix) == 0,
        ForestView::empty(leaf).wf() <==> 3 <= leaf && leaf <= 63 && leaf % 3 == 0,
{
}

/// A forest's count is what its epochs count, taken together: a forest in which
/// one epoch counts differently counts differently by as much.
pub proof fn law_count_is_the_sum_of_the_epochs(a: ForestView, b: ForestView, epoch: u32)
    requires
        forall|e: u32| e != epoch ==> #[trigger] a.tree(e).count == b.tree(e).count,
    ensures
        a.count() - a.tree(epoch).count == b.count() - b.tree(epoch).count,
{
    lemma_count_at(a, b, epoch, 0x1_0000_0000);
}

/// The children listed of a node are those of its eight with a hash other than
/// 0, each with that hash, in order.
pub proof fn law_children_listed(
    forest: ForestView,
    epoch: u32,
    depth: nat,
    prefix: u64,
    c: u64,
    n: nat,
)
    requires
        depth <= 60,
        prefix as int % pow2((64 - depth) as nat) as int == 0,
        c < n <= 8,
    ensures
        ({
            let listed = forest.children(epoch, depth, prefix, n);
            let size = pow2((61 - depth) as nat);
            let child = (prefix + c * size) as u64;
            &&& child == prefix + c * size
            &&& listed.contains((child, forest.hash(epoch, depth + 3, child))) <==> forest.hash(
                epoch,
                depth + 3,
                child,
            ) != 0
            &&& forall|i: int|
                0 <= i < listed.len() ==> {
                    let (p, h) = #[trigger] listed[i];
                    &&& prefix <= p < prefix + n * size
                    &&& (p - prefix) % (size as int) == 0
                    &&& h != 0
                    &&& h == forest.hash(epoch, depth + 3, p)
                }
            &&& forall|i: int, j: int| 0 <= i < j < listed.len() ==> listed[i].0 < listed[j].0
        }),
    decreases n,
{
    let listed = forest.children(epoch, depth, prefix, n);
    let size = pow2((61 - depth) as nat);
    vstd::arithmetic::power2::lemma_pow2_pos((61 - depth) as nat);
    let m = (n - 1) as nat;
    let before = forest.children(epoch, depth, prefix, m);
    let last = child_prefix(prefix, depth, m as u64);
    let hash = forest.hash(epoch, depth + 3, last);
    law_children_share_out_a_cell(prefix, depth, m as u64);
    law_children_share_out_a_cell(prefix, depth, c);
    let child = child_prefix(prefix, depth, c);
    assert(m * size + size == n * size) by (nonlinear_arith)
        requires
            m + 1 == n,
    ;
    assert((m * size) % size == 0) by {
        vstd::arithmetic::div_mod::lemma_mod_multiples_basic(m as int, size as int);
    }
    if m > 0 {
        let k = if c < m {
            c
        } else {
            0
        };
        law_children_listed(forest, epoch, depth, prefix, k, m);
    }
    assert forall|i: int| 0 <= i < listed.len() implies {
        let (p, h) = #[trigger] listed[i];
        &&& prefix <= p < prefix + n * size
        &&& (p - prefix) % (size as int) == 0
        &&& h != 0
        &&& h == forest.hash(epoch, depth + 3, p)
    } by {
        if i < before.len() {
            assert(listed[i] == before[i]);
        }
    }
    assert forall|i: int, j: int| 0 <= i < j < listed.len() implies listed[i].0 < listed[j].0 by {
        assert(listed[i] == before[i]);
        if j < before.len() {
            assert(listed[j] == before[j]);
        }
    }
    let own = (child, forest.hash(epoch, depth + 3, child));
    if c < m {
        if before.contains(own) {
            let i = choose|i: int| 0 <= i < before.len() && before[i] == own;
            assert(listed[i] == own);
        }
        if listed.contains(own) {
            let i = choose|i: int| 0 <= i < listed.len() && listed[i] == own;
            assert(listed[i].1 != 0);
        }
    } else {
        assert(c == m);
        if hash != 0 {
            assert(listed[before.len() as int] == own);
        }
        if listed.contains(own) {
            let i = choose|i: int| 0 <= i < listed.len() && listed[i] == own;
            assert(listed[i].1 != 0);
        }
    }
}

/// A list of roots has each epoch whose root is not 0 once, with that root, in
/// ascending order, and nothing else.
pub proof fn law_roots_listed(forest: ForestView, roots: Seq<(u32, u128)>, epoch: u32)
    requires
        forest.lists_roots(roots),
    ensures
        forest.hash(epoch, 0, 0) != 0 <==> exists|i: int|
            0 <= i < roots.len() && (#[trigger] roots[i]).0 == epoch,
        forall|i: int|
            0 <= i < roots.len() && (#[trigger] roots[i]).0 == epoch ==> roots[i].1 == forest.hash(
                epoch,
                0,
                0,
            ),
        forall|i: int, j: int| 0 <= i < j < roots.len() ==> roots[i].0 < roots[j].0,
{
    if forest.hash(epoch, 0, 0) != 0 {
        let x = (epoch, forest.hash(epoch, 0, 0));
        assert(roots.contains(x));
        let i = choose|i: int| 0 <= i < roots.len() && roots[i] == x;
        assert(roots[i].0 == epoch);
    }
}

/// A list of epochs has each epoch seen once, in ascending order, and nothing else.
pub proof fn law_epochs_listed(forest: ForestView, epochs: Seq<u32>, epoch: u32)
    requires
        forest.lists_epochs(epochs),
    ensures
        forest.trees.contains_key(epoch) <==> exists|i: int|
            0 <= i < epochs.len() && #[trigger] epochs[i] == epoch,
        forall|i: int, j: int| 0 <= i < j < epochs.len() ==> epochs[i] < epochs[j],
{
    if forest.trees.contains_key(epoch) {
        assert(epochs.contains(epoch));
    }
    if exists|i: int| 0 <= i < epochs.len() && #[trigger] epochs[i] == epoch {
        assert(epochs.contains(epoch));
    }
}

/// The entries of a seal have each leaf cell whose hash is not 0 once, with
/// that hash, in ascending order, and nothing else.
pub proof fn law_leaves_listed(
    forest: ForestView,
    epoch: u32,
    entries: Seq<(u64, u128)>,
    prefix: u64,
)
    requires
        lists_leaves(forest.tree(epoch), forest.leaf, entries),
    ensures
        forest.hash(epoch, forest.leaf, prefix) != 0 <==> exists|i: int|
            0 <= i < entries.len() && (#[trigger] entries[i]).0 == prefix,
        forall|i: int|
            0 <= i < entries.len() && (#[trigger] entries[i]).0 == prefix ==> entries[i].1
                == forest.hash(epoch, forest.leaf, prefix),
        forall|i: int, j: int| 0 <= i < j < entries.len() ==> entries[i].0 < entries[j].0,
{
    let tree = forest.tree(epoch);
    if tree.at(forest.leaf, prefix) != 0 {
        let x = (prefix, tree.at(forest.leaf, prefix));
        assert(entries.contains(x));
        let i = choose|i: int| 0 <= i < entries.len() && entries[i] == x;
        assert(entries[i].0 == prefix);
    }
}

/// One epoch's part of a restart: the epoch, what it counts, and its leaves.
pub type SealedEpoch = (u32, nat, Seq<(u64, u128)>);

/// A forest into which sealed epochs were loaded, one after another.
pub open spec fn reloaded(forest: ForestView, sealed: Seq<SealedEpoch>) -> ForestView
    decreases sealed.len(),
{
    if sealed.len() == 0 {
        forest
    } else {
        reloaded(forest, sealed.drop_last()).loaded(
            sealed.last().0,
            sealed.last().1,
            sealed.last().2,
        )
    }
}

/// Whether one of the sealed epochs is `epoch`.
pub open spec fn has_epoch(sealed: Seq<SealedEpoch>, epoch: u32) -> bool {
    exists|i: int| 0 <= i < sealed.len() && (#[trigger] sealed[i]).0 == epoch
}

/// A restart gives a forest back: loading the epochs that were sealed from it,
/// each once, into a new forest gives each of them its tree, with every hash
/// and the count, and all other epochs none. So if every epoch with a hash
/// other than 0 was sealed, every cell of every epoch has its hash again.
pub proof fn law_restart_gives_the_forest_back(
    forest: ForestView,
    sealed: Seq<SealedEpoch>,
    epoch: u32,
)
    requires
        forest.wf(),
        forall|i: int, j: int| 0 <= i < j < sealed.len() ==> sealed[i].0 != sealed[j].0,
        forall|i: int|
            0 <= i < sealed.len() ==> (#[trigger] sealed[i]).1 == forest.tree(sealed[i].0).count
                && lists_leaves(forest.tree(sealed[i].0), forest.leaf, sealed[i].2),
    ensures
        reloaded(ForestView::empty(forest.leaf), sealed).leaf == forest.leaf,
        reloaded(ForestView::empty(forest.leaf), sealed).tree(epoch) == (if has_epoch(
            sealed,
            epoch,
        ) {
            forest.tree(epoch)
        } else {
            TreeView::empty()
        }),
        (has_epoch(sealed, epoch) || forall|d: nat, p: u64| #[trigger] forest.hash(epoch, d, p) == 0)
            ==> forall|d: nat, p: u64| #[trigger]
            reloaded(ForestView::empty(forest.leaf), sealed).hash(epoch, d, p) == forest.hash(
                epoch,
                d,
                p,
            ),
    decreases sealed.len(),
{
    if sealed.len() > 0 {
        let rest = sealed.drop_last();
        let n = rest.len() as int;
        let last = sealed[n];
        assert forall|i: int| 0 <= i < n implies #[trigger] rest[i] == sealed[i] by {}
        law_restart_gives_the_forest_back(forest, rest, epoch);
        lemma_tree_wf(forest, last.0);
        law_leaves_rebuild_the_tree(forest.tree(last.0), forest.leaf, last.2);
        assert(has_epoch(sealed, epoch) <==> has_epoch(rest, epoch) || last.0 == epoch) by {
            if has_epoch(sealed, epoch) {
                let i = choose|i: int| 0 <= i < sealed.len() && (#[trigger] sealed[i]).0 == epoch;
                if i < n {
                    assert(rest[i].0 == epoch);
                }
            }
            if has_epoch(rest, epoch) {
                let i = choose|i: int| 0 <= i < rest.len() && (#[trigger] rest[i]).0 == epoch;
                assert(sealed[i].0 == epoch);
            }
            if last.0 == epoch {
                assert(sealed[n].0 == epoch);
            }
        }
    }
}

/// Whatever prefix children are asked for under, the list starts empty and goes
/// on, child by child, with each that has a hash other than 0.
pub proof fn law_children_go_on(forest: ForestView, epoch: u32, depth: nat, prefix: u64, c: u64)
    requires
        depth <= 60,
        c < 8,
    ensures
        forest.children(epoch, depth, prefix, 0) == Seq::<(u64, u128)>::empty(),
        ({
            let child = prefix | (c << ((61 - depth) as u64));
            let hash = forest.hash(epoch, depth + 3, child);
            forest.children(epoch, depth, prefix, (c + 1) as nat) == (if hash == 0 {
                forest.children(epoch, depth, prefix, c as nat)
            } else {
                forest.children(epoch, depth, prefix, c as nat).push((child, hash))
            })
        }),
{
    law_children_share_out_a_cell(prefix, depth, c);
}

} // verus!
