//! A Merkle octree per macro epoch.

use crate::bytes::be_value;
use crate::cell::{is_leaf_depth, is_level};
use crate::digest::{hashable, item_digest, item_hash};
use crate::key::{key_epoch, key_morton, split_key};
use crate::model::{lemma_count_gap, lemma_count_monotone, ForestView, TreeView};
use crate::seal::{
    check_seal, lists_leaves, read_count, read_entries, seal_bytes, seal_error, sealed_count,
    sealed_entries, write_seal,
};
use crate::tree::{EpochTree, NodeHash};
use std::collections::BTreeMap;
use vstd::prelude::*;

verus! {

/// A Merkle octree per macro epoch, keyed by the epoch bucket in the key.
#[derive(Debug)]
pub struct MerkleForest {
    leaf_depth_bits: usize,
    trees: BTreeMap<u32, EpochTree>,
}

impl View for MerkleForest {
    type V = ForestView;

    closed spec fn view(&self) -> ForestView {
        ForestView {
            leaf: self.leaf_depth_bits as nat,
            trees: self.trees@.map_values(|tree: EpochTree| tree@),
        }
    }
}

impl MerkleForest {
    #[verifier::type_invariant]
    spec fn inv(&self) -> bool {
        &&& is_leaf_depth(self.leaf_depth_bits as nat)
        &&& forall|epoch: u32| #[trigger]
            self.trees@.contains_key(epoch) ==> {
                &&& self.trees@[epoch].wf()
                &&& self.trees@[epoch].leaf() == self.leaf_depth_bits
            }
    }

    proof fn lemma_wf(&self)
        requires
            self.inv(),
        ensures
            self@.wf(),
            self@.counts_fit(),
    {
        broadcast use vstd::std_specs::btree::group_btree_axioms;

        assert(self@.trees.dom() =~= self.trees@.dom());
        assert forall|epoch: u32| #[trigger] self@.tree(epoch).count <= u64::MAX by {
            if self.trees@.contains_key(epoch) {
                self.trees@[epoch].lemma_count_fits();
            }
        }
    }

    /// A forest of no epochs, with leaves at `leaf_depth_bits`: a multiple of 3
    /// in [3, 63].
    pub fn new(leaf_depth_bits: usize) -> (forest: MerkleForest)
        requires
            is_leaf_depth(leaf_depth_bits as nat),
        ensures
            forest@ == ForestView::empty(leaf_depth_bits as nat),
            forest@.wf(),
            forest@.counts_fit(),
    {
        let forest = MerkleForest { leaf_depth_bits, trees: BTreeMap::new() };
        proof {
            forest.lemma_wf();
            assert(forest@.trees =~= Map::<u32, TreeView>::empty());
        }
        forest
    }

    /// The depth of the leaves, in bits.
    pub fn leaf_depth_bits(&self) -> (bits: usize)
        ensures
            bits == self@.leaf,
            self@.wf(),
            self@.counts_fit(),
    {
        proof {
            use_type_invariant(self);
            self.lemma_wf();
        }
        self.leaf_depth_bits
    }

    /// Folds in the digest of an item of `epoch` whose code is `morton`.
    pub fn insert_digest(&mut self, epoch: u32, morton: u64, digest: NodeHash)
        requires
            old(self)@.tree(epoch).count < u64::MAX,
        ensures
            final(self)@ == old(self)@.inserted(epoch, morton, digest),
            final(self)@.wf(),
            final(self)@.counts_fit(),
    {
        broadcast use vstd::std_specs::btree::group_btree_axioms;

        proof {
            use_type_invariant(&*self);
        }
        let mut trees: BTreeMap<u32, EpochTree> = BTreeMap::new();
        std::mem::swap(&mut trees, &mut self.trees);
        let mut tree: EpochTree = match trees.remove(&epoch) {
            Some(tree) => tree,
            None => EpochTree::new(self.leaf_depth_bits),
        };
        assert(tree@ == old(self)@.tree(epoch));
        tree.toggle(morton, digest);
        let count: u64 = tree.count();
        tree.set_count(count + 1);
        trees.insert(epoch, tree);
        self.trees = trees;
        proof {
            assert(self@.trees =~= old(self)@.inserted(epoch, morton, digest).trees);
            self.lemma_wf();
        }
    }

    /// Folds out the digest of an item of `epoch` whose code is `morton`.
    pub fn remove_digest(&mut self, epoch: u32, morton: u64, digest: NodeHash)
        ensures
            final(self)@ == old(self)@.removed(epoch, morton, digest),
            final(self)@.tree(epoch).count < u64::MAX,
            final(self)@.wf(),
            final(self)@.counts_fit(),
    {
        broadcast use vstd::std_specs::btree::group_btree_axioms;

        proof {
            use_type_invariant(&*self);
            self.lemma_wf();
        }
        let mut trees: BTreeMap<u32, EpochTree> = BTreeMap::new();
        std::mem::swap(&mut trees, &mut self.trees);
        match trees.remove(&epoch) {
            Some(removed) => {
                let mut tree: EpochTree = removed;
                tree.toggle(morton, digest);
                let count: u64 = tree.count();
                tree.set_count(count.saturating_sub(1));
                trees.insert(epoch, tree);
            },
            None => {},
        }
        self.trees = trees;
        proof {
            assert(self@.trees =~= old(self)@.removed(epoch, morton, digest).trees);
            self.lemma_wf();
        }
    }

    /// Fold an item in. O(levels) hashmap XORs; no reads of prior contents.
    pub fn insert(&mut self, key: &[u8; 20], payload: &[u8])
        requires
            hashable(20 + payload@.len()),
            old(self)@.tree(key_epoch(key@)).count < u64::MAX,
        ensures
            final(self)@ == old(self)@.inserted(
                key_epoch(key@),
                key_morton(key@),
                item_hash(key@, payload@),
            ),
            final(self)@.wf(),
            final(self)@.counts_fit(),
    {
        let (epoch, morton) = split_key(key);
        let digest: NodeHash = item_digest(key, payload);
        self.insert_digest(epoch, morton, digest);
    }

    /// Fold an item back out (e.g. superseded payload, epoch expiry).
    /// Must be called with exactly the key/payload that was inserted.
    pub fn remove(&mut self, key: &[u8; 20], payload: &[u8])
        requires
            hashable(20 + payload@.len()),
        ensures
            final(self)@ == old(self)@.removed(
                key_epoch(key@),
                key_morton(key@),
                item_hash(key@, payload@),
            ),
            final(self)@.tree(key_epoch(key@)).count < u64::MAX,
            final(self)@.wf(),
            final(self)@.counts_fit(),
    {
        let (epoch, morton) = split_key(key);
        let digest: NodeHash = item_digest(key, payload);
        self.remove_digest(epoch, morton, digest);
    }

    /// All epochs with a tree present (including ones folded back to empty).
    pub fn epochs(&self) -> (epochs: Vec<u32>)
        ensures
            self@.lists_epochs(epochs@),
            forall|i: int, j: int| 0 <= i < j < epochs@.len() ==> epochs@[i] < epochs@[j],
            forall|e: u32| self@.trees.contains_key(e) <==> #[trigger] epochs@.contains(e),
    {
        broadcast use vstd::std_specs::btree::group_btree_axioms;

        let iter = self.trees.iter();
        let ghost walked = vstd::std_specs::btree::into_iter(iter);
        proof {
            lemma_walk(&self.trees, iter);
        }
        let mut epochs: Vec<u32> = Vec::new();
        for entry in it: iter
            invariant
                it.seq().unref() == walked,
                epochs@.len() == it.index(),
                forall|i: int| 0 <= i < epochs@.len() ==> epochs@[i] == walked[i].0,
        {
            epochs.push(*entry.0);
        }
        proof {
            assert forall|epoch: u32| self@.trees.contains_key(epoch) implies #[trigger] epochs@.contains(
                epoch,
            ) by {
                let i = choose|i: int|
                    0 <= i < walked.len() && walked[i] == (epoch, self.trees@[epoch]);
                assert(epochs@[i] == epoch);
            }
        }
        epochs
    }

    /// Total items folded in across all epochs.
    pub fn len(&self) -> (total: u64)
        requires
            self@.count() <= u64::MAX,
        ensures
            total == self@.count(),
    {
        broadcast use vstd::std_specs::btree::group_btree_axioms;

        let iter = self.trees.iter();
        let ghost walked = vstd::std_specs::btree::into_iter(iter);
        proof {
            lemma_walk(&self.trees, iter);
        }
        let mut total: u64 = 0;
        for entry in it: iter
            invariant
                it.seq().unref() == walked,
                walks(walked, self.trees@),
                self@.count() <= u64::MAX,
                total == self@.count_below(reached(walked, it.index() as int)),
        {
            proof {
                lemma_reached(*self, walked, it.index() as int);
                lemma_count_monotone(
                    self@,
                    reached(walked, it.index() + 1),
                    0x1_0000_0000,
                );
            }
            total = total + entry.1.count();
        }
        proof {
            lemma_all_reached(*self, walked);
        }
        total
    }

    /// Items folded in for one epoch.
    pub fn epoch_len(&self, epoch: u32) -> (count: u64)
        ensures
            count == self@.tree(epoch).count,
    {
        broadcast use vstd::std_specs::btree::group_btree_axioms;

        match self.trees.get(&epoch) {
            Some(tree) => tree.count(),
            None => 0,
        }
    }

    /// Whether no epoch counts an item.
    pub fn is_empty(&self) -> (empty: bool)
        ensures
            empty == (self@.count() == 0),
    {
        broadcast use vstd::std_specs::btree::group_btree_axioms;

        let iter = self.trees.iter();
        let ghost walked = vstd::std_specs::btree::into_iter(iter);
        proof {
            lemma_walk(&self.trees, iter);
        }
        for entry in it: iter
            invariant
                it.seq().unref() == walked,
                walks(walked, self.trees@),
                0 == self@.count_below(reached(walked, it.index() as int)),
        {
            proof {
                lemma_reached(*self, walked, it.index() as int);
                lemma_count_monotone(
                    self@,
                    reached(walked, it.index() + 1),
                    0x1_0000_0000,
                );
            }
            if entry.1.count() != 0 {
                return false;
            }
        }
        proof {
            lemma_all_reached(*self, walked);
        }
        true
    }

    /// Root hash per epoch — the summary two peers exchange first.
    pub fn epoch_roots(&self) -> (roots: Vec<(u32, NodeHash)>)
        ensures
            self@.lists_roots(roots@),
            forall|i: int, j: int| 0 <= i < j < roots@.len() ==> roots@[i].0 < roots@[j].0,
            forall|i: int|
                0 <= i < roots@.len() ==> (#[trigger] roots@[i]).1 != 0 && roots@[i].1 == self@.hash(
                    roots@[i].0,
                    0,
                    0,
                ),
            forall|e: u32|
                #[trigger] self@.hash(e, 0, 0) != 0 ==> roots@.contains((e, self@.hash(e, 0, 0))),
    {
        broadcast use vstd::std_specs::btree::group_btree_axioms;

        proof {
            use_type_invariant(self);
        }
        let iter = self.trees.iter();
        let ghost walked = vstd::std_specs::btree::into_iter(iter);
        proof {
            lemma_walk(&self.trees, iter);
        }
        let mut roots: Vec<(u32, NodeHash)> = Vec::new();
        for entry in it: iter
            invariant
                it.seq().unref() == walked,
                walks(walked, self.trees@),
                self.inv(),
                forall|i: int, j: int| 0 <= i < j < roots@.len() ==> roots@[i].0 < roots@[j].0,
                forall|i: int, j: int|
                    0 <= i < roots@.len() && it.index() <= j < walked.len() ==> roots@[i].0
                        < walked[j].0,
                forall|i: int|
                    0 <= i < roots@.len() ==> (#[trigger] roots@[i]).1 != 0 && roots@[i].1
                        == self@.hash(roots@[i].0, 0, 0),
                forall|j: int|
                    0 <= j < it.index() ==> {
                        let e = (#[trigger] walked[j]).0;
                        self@.hash(e, 0, 0) != 0 ==> roots@.contains((e, self@.hash(e, 0, 0)))
                    },
        {
            let ghost before = roots@;
            let ghost j = it.index() as int;
            let root: NodeHash = entry.1.node_hash(0, 0);
            assert(root == self@.hash(walked[j].0, 0, 0));
            if root != 0 {
                roots.push((*entry.0, root));
                proof {
                    assert(roots@[before.len() as int] == (walked[j].0, root));
                    assert forall|x: (u32, u128)| #[trigger] before.contains(x) implies roots@.contains(
                        x,
                    ) by {
                        let i = choose|i: int| 0 <= i < before.len() && before[i] == x;
                        assert(roots@[i] == x);
                    }
                }
            }
        }
        proof {
            assert forall|epoch: u32| #[trigger] self@.hash(epoch, 0, 0) != 0 implies roots@.contains(
                (epoch, self@.hash(epoch, 0, 0)),
            ) by {
                assert(self.trees@.contains_key(epoch));
                let j = choose|j: int|
                    0 <= j < walked.len() && walked[j] == (epoch, self.trees@[epoch]);
                assert(walked[j].0 == epoch);
            }
        }
        roots
    }

    /// Serialize one epoch's tree to a compact seal record: its leaf hashes
    /// plus item count. Upper levels are omitted — they rebuild from the
    /// leaves by XOR-fold in [`Self::load_sealed_epoch`] without touching the
    /// underlying data. Returns `None` for an absent or empty epoch.
    pub fn serialize_epoch(&self, epoch: u32) -> (record: Option<Vec<u8>>)
        ensures
            self@.wf(),
            self@.counts_fit(),
            record is None <==> forall|prefix: u64| #[trigger]
                self@.hash(epoch, self@.leaf, prefix) == 0,
            record matches Some(bytes) ==> exists|entries: Seq<(u64, u128)>|
                #![trigger seal_bytes(self@.leaf, self@.tree(epoch).count, entries)]
                {
                    &&& lists_leaves(self@.tree(epoch), self@.leaf, entries)
                    &&& bytes@ == seal_bytes(self@.leaf, self@.tree(epoch).count, entries)
                },
    {
        broadcast use vstd::std_specs::btree::group_btree_axioms;

        proof {
            use_type_invariant(self);
            self.lemma_wf();
        }
        match self.trees.get(&epoch) {
            None => None,
            Some(tree) => {
                let entries: Vec<(u64, NodeHash)> = tree.leaves();
                assert(tree@ == self@.tree(epoch));
                if entries.len() == 0 {
                    return None;
                }
                assert(self@.hash(epoch, self@.leaf, entries@[0].0) != 0);
                Some(write_seal(self.leaf_depth_bits, tree.count(), &entries))
            },
        }
    }

    /// Reconstruct a sealed epoch's tree from a [`Self::serialize_epoch`]
    /// record, folding each leaf hash up through every level.
    ///
    /// Fails (leaving the forest untouched) if the record is malformed, was
    /// sealed at a different leaf depth, or the epoch is already populated —
    /// callers should then fall back to rescanning that epoch's data.
    pub fn load_sealed_epoch(&mut self, epoch: u32, bytes: &[u8]) -> (loaded: Result<(), String>)
        ensures
            match seal_error(
                bytes@,
                old(self)@.leaf,
                epoch,
                old(self)@.trees.contains_key(epoch),
            ) {
                Some(error) => {
                    &&& loaded matches Err(message) && message@ == error.text()
                    &&& final(self)@ == old(self)@
                },
                None => {
                    &&& loaded is Ok
                    &&& final(self)@ == old(self)@.loaded(epoch, sealed_count(bytes@), sealed_entries(bytes@))
                },
            },
            loaded is Ok <==> {
                &&& !old(self)@.trees.contains_key(epoch)
                &&& bytes@.len() >= 14
                &&& bytes@[0] == 1
                &&& bytes@[1] == old(self)@.leaf
                &&& bytes@.len() == 14 + 24 * be_value(bytes@.subrange(10, 14))
            },
            loaded is Err ==> final(self)@ == old(self)@,
            forall|e: u32| e != epoch ==> #[trigger] final(self)@.tree(e) == old(self)@.tree(e),
            loaded is Ok ==> final(self)@.tree(epoch).count == be_value(bytes@.subrange(2, 10)),
            final(self)@.leaf == old(self)@.leaf,
            final(self)@.wf(),
            final(self)@.counts_fit(),
    {
        broadcast use vstd::std_specs::btree::group_btree_axioms;

        proof {
            use_type_invariant(&*self);
            self.lemma_wf();
        }
        let populated: bool = self.trees.contains_key(&epoch);
        match check_seal(bytes, self.leaf_depth_bits, epoch, populated) {
            Some(error) => {
                return Err(error.message());
            },
            None => {},
        }
        let count: u64 = read_count(bytes);
        let entries: Vec<(u64, NodeHash)> = read_entries(bytes);
        let mut tree: EpochTree = EpochTree::new(self.leaf_depth_bits);
        let mut i: usize = 0;
        while i < entries.len()
            invariant
                i <= entries@.len(),
                tree.wf(),
                tree.leaf() == self.leaf_depth_bits,
                tree@ == TreeView::empty().folded(
                    self.leaf_depth_bits as nat,
                    entries@.take(i as int),
                ),
            decreases entries@.len() - i,
        {
            // Leaf prefixes have zeroed low bits, so toggling by the prefix
            // itself lands each hash in the right cell at every level.
            tree.toggle(entries[i].0, entries[i].1);
            assert(entries@.take(i + 1).drop_last() =~= entries@.take(i as int));
            i = i + 1;
        }
        assert(entries@.take(entries@.len() as int) =~= entries@);
        tree.set_count(count);
        let mut trees: BTreeMap<u32, EpochTree> = BTreeMap::new();
        std::mem::swap(&mut trees, &mut self.trees);
        trees.insert(epoch, tree);
        self.trees = trees;
        proof {
            assert(self@.trees =~= old(self)@.loaded(epoch, sealed_count(bytes@), sealed_entries(bytes@)).trees);
            self.lemma_wf();
        }
        Ok(())
    }

    /// Hash of the cell `(depth_bits, prefix)` in `epoch`; 0 if empty/absent.
    /// `depth_bits == 0` returns the epoch root.
    pub fn node_hash(&self, epoch: u32, depth_bits: usize, prefix: u64) -> (hash: NodeHash)
        requires
            is_level(depth_bits as nat, self@.leaf),
        ensures
            hash == self@.hash(epoch, depth_bits as nat, prefix),
    {
        broadcast use vstd::std_specs::btree::group_btree_axioms;

        proof {
            use_type_invariant(self);
        }
        match self.trees.get(&epoch) {
            Some(tree) => tree.node_hash(depth_bits, prefix),
            None => 0,
        }
    }

    /// The ≤ 8 non-empty children of `(depth_bits, prefix)`, one level deeper.
    /// This is the unit a sync wire protocol exchanges per descent step.
    pub fn child_hashes(&self, epoch: u32, depth_bits: usize, prefix: u64) -> (children: Vec<
        (u64, NodeHash),
    >)
        requires
            is_level((depth_bits + 3) as nat, self@.leaf),
        ensures
            children@ == self@.children(epoch, depth_bits as nat, prefix, 8),
    {
        proof {
            use_type_invariant(self);
        }
        let child_depth: usize = depth_bits + 3;
        let mut children: Vec<(u64, NodeHash)> = Vec::new();
        let mut c: u64 = 0;
        while c < 8
            invariant
                c <= 8,
                child_depth == depth_bits + 3,
                child_depth <= 63,
                is_level(child_depth as nat, self@.leaf),
                children@ == self@.children(epoch, depth_bits as nat, prefix, c as nat),
            decreases 8 - c,
        {
            let child: u64 = prefix | (c << (64 - child_depth as u64));
            let hash: NodeHash = self.node_hash(epoch, child_depth, child);
            if hash != 0 {
                children.push((child, hash));
            }
            c = c + 1;
        }
        children
    }
}

impl Clone for MerkleForest {
    fn clone(&self) -> (forest: MerkleForest)
        ensures
            forest@ == self@,
    {
        broadcast use vstd::std_specs::btree::group_btree_axioms;

        proof {
            use_type_invariant(self);
        }
        let iter = self.trees.iter();
        let ghost walked = vstd::std_specs::btree::into_iter(iter);
        proof {
            lemma_walk(&self.trees, iter);
        }
        let mut trees: BTreeMap<u32, EpochTree> = BTreeMap::new();
        for entry in it: iter
            invariant
                it.seq().unref() == walked,
                walks(walked, self.trees@),
                self.inv(),
                forall|epoch: u32| #[trigger]
                    trees@.contains_key(epoch) ==> {
                        &&& self.trees@.contains_key(epoch)
                        &&& trees@[epoch]@ == self.trees@[epoch]@
                        &&& trees@[epoch].leaf() == self.leaf_depth_bits
                    },
                forall|j: int| 0 <= j < it.index() ==> trees@.contains_key((#[trigger] walked[j]).0),
        {
            trees.insert(*entry.0, entry.1.clone());
        }
        proof {
            assert forall|epoch: u32| #[trigger] self.trees@.contains_key(epoch) implies trees@.contains_key(
                epoch,
            ) by {
                let j = choose|j: int|
                    0 <= j < walked.len() && walked[j] == (epoch, self.trees@[epoch]);
                assert(walked[j].0 == epoch);
            }
        }
        let forest = MerkleForest { leaf_depth_bits: self.leaf_depth_bits, trees };
        assert(forest@.trees =~= self@.trees);
        forest
    }
}

/// An increasing sequence of epochs ascends.
proof fn lemma_ascending(epochs: Seq<u32>)
    requires
        vstd::std_specs::btree::increasing_seq(epochs),
    ensures
        forall|i: int, j: int| 0 <= i < j < epochs.len() ==> epochs[i] < epochs[j],
{
    broadcast use vstd::std_specs::btree::group_btree_axioms;
    broadcast use vstd::laws_cmp::group_laws_cmp;

    assert forall|i: int, j: int| 0 <= i < j < epochs.len() implies epochs[i] < epochs[j] by {
        assert(vstd::std_specs::cmp::OrdSpec::cmp_spec(&epochs[i], &epochs[j]) is Less);
    }
}

/// Whether `walked` lists a map's entries in ascending order of their epochs.
spec fn walks(walked: Seq<(u32, EpochTree)>, trees: Map<u32, EpochTree>) -> bool {
    &&& forall|i: int, j: int| 0 <= i < j < walked.len() ==> walked[i].0 < walked[j].0
    &&& forall|i: int|
        0 <= i < walked.len() ==> trees.contains_key((#[trigger] walked[i]).0)
            && trees[walked[i].0] == walked[i].1
    &&& forall|epoch: u32| #[trigger]
        trees.contains_key(epoch) ==> walked.contains((epoch, trees[epoch]))
}

/// An iterator over the trees walks them in ascending order of their epochs.
proof fn lemma_walk(
    trees: &BTreeMap<u32, EpochTree>,
    iter: std::collections::btree_map::Iter<u32, EpochTree>,
)
    requires
        iter == vstd::std_specs::btree::spec_btree_map_iter(trees),
        vstd::std_specs::btree::into_iter(iter) == vstd::std_specs::iter::IteratorSpec::remaining(
            &iter,
        ).unref(),
        vstd::std_specs::btree::increasing_seq(
            vstd::std_specs::iter::IteratorSpec::remaining(&iter).map_values(
                |kv: (&u32, &EpochTree)| *kv.0,
            ),
        ),
    ensures
        walks(vstd::std_specs::btree::into_iter(iter), trees@),
{
    broadcast use vstd::std_specs::btree::group_btree_axioms;

    let walked = vstd::std_specs::btree::into_iter(iter);
    let left = vstd::std_specs::iter::IteratorSpec::remaining(&iter);
    let keys = left.map_values(|kv: (&u32, &EpochTree)| *kv.0);
    lemma_ascending(keys);
    assert forall|i: int, j: int| 0 <= i < j < walked.len() implies walked[i].0 < walked[j].0 by {
        assert(keys[i] < keys[j]);
    }
    assert forall|i: int| 0 <= i < walked.len() implies trees@.contains_key(
        (#[trigger] walked[i]).0,
    ) && trees@[walked[i].0] == walked[i].1 by {
        assert(trees@.contains_key(*left[i].0));
    }
    assert forall|epoch: u32| #[trigger] trees@.contains_key(epoch) implies walked.contains(
        (epoch, trees@[epoch]),
    ) by {
        let i = choose|i: int| 0 <= i < left.len() && left[i] == (&epoch, &trees@[epoch]);
        assert(walked[i] == (epoch, trees@[epoch]));
    }
}

/// One past the last epoch of the first `n` entries.
spec fn reached(walked: Seq<(u32, EpochTree)>, n: int) -> nat {
    if n == 0 {
        0
    } else {
        (walked[n - 1].0 + 1) as nat
    }
}

/// The next entry adds its own count.
proof fn lemma_reached(forest: MerkleForest, walked: Seq<(u32, EpochTree)>, n: int)
    requires
        walks(walked, forest.trees@),
        0 <= n < walked.len(),
    ensures
        reached(walked, n + 1) <= 0x1_0000_0000,
        forest@.count_below(reached(walked, n + 1)) == forest@.count_below(reached(walked, n))
            + walked[n].1@.count,
{
    let epoch = walked[n].0;
    assert forall|e: u32| reached(walked, n) <= e < epoch implies !#[trigger] forest@.trees.contains_key(
        e,
    ) by {
        if forest.trees@.contains_key(e) {
            let i = choose|i: int| 0 <= i < walked.len() && walked[i] == (e, forest.trees@[e]);
            if i < n - 1 {
                assert(walked[i].0 < walked[n - 1].0);
            }
            if i > n {
                assert(walked[n].0 < walked[i].0);
            }
        }
    }
    lemma_count_gap(forest@, reached(walked, n), epoch as nat);
}

/// Past the last entry there is nothing left to count.
proof fn lemma_all_reached(forest: MerkleForest, walked: Seq<(u32, EpochTree)>)
    requires
        walks(walked, forest.trees@),
    ensures
        forest@.count() == forest@.count_below(reached(walked, walked.len() as int)),
{
    let n = walked.len() as int;
    assert forall|e: u32| reached(walked, n) <= e < 0x1_0000_0000 implies !#[trigger] forest@.trees.contains_key(
        e,
    ) by {
        if forest.trees@.contains_key(e) {
            let i = choose|i: int| 0 <= i < walked.len() && walked[i] == (e, forest.trees@[e]);
            if i < n - 1 {
                assert(walked[i].0 < walked[n - 1].0);
            }
        }
    }
    lemma_count_gap(forest@, reached(walked, n), 0x1_0000_0000);
}

} // verus!
