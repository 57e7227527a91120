//! The sparse Merkle octree of a single epoch.

use crate::cell::{cell_prefix, is_leaf_depth, is_level, prefix_at};
use crate::model::{lemma_counting_wf, lemma_empty_wf, lemma_toggled_wf, TreeView};
use crate::seal::lists_leaves;
use std::collections::HashMap;
use vstd::prelude::*;

verus! {

/// XOR-foldable 128-bit node/item hash.
pub type NodeHash = u128;

/// The hash that a level holds under a prefix; a cell never present hashes to 0.
pub open spec fn level_hash(level: Map<u64, u128>, prefix: u64) -> u128 {
    if level.contains_key(prefix) {
        level[prefix]
    } else {
        0
    }
}

/// Sparse Merkle octree for a single macro epoch.
///
/// `levels[i]` holds the XOR accumulators for cells at `depth_bits = (i+1)*3`;
/// the root (depth 0) is kept separately. Cells never present hash to 0.
#[derive(Debug)]
pub struct EpochTree {
    root: NodeHash,
    count: u64,
    levels: Vec<HashMap<u64, NodeHash>>,
}

impl View for EpochTree {
    type V = TreeView;

    closed spec fn view(&self) -> TreeView {
        TreeView {
            count: self.count as nat,
            hash: |depth: nat, prefix: u64|
                if depth == 0 {
                    self.root
                } else if is_level(depth, self.leaf()) {
                    level_hash(self.levels@[depth / 3 - 1]@, prefix)
                } else {
                    0
                },
        }
    }
}

impl EpochTree {
    /// The depth of the tree's leaves.
    pub closed spec fn leaf(&self) -> nat {
        3 * self.levels@.len()
    }

    /// What every tree keeps.
    pub(crate) open spec fn wf(&self) -> bool {
        &&& is_leaf_depth(self.leaf())
        &&& self@.wf(self.leaf())
    }

    /// A tree's count is a machine word.
    pub(crate) proof fn lemma_count_fits(&self)
        ensures
            self@.count <= u64::MAX,
    {
    }

    /// An empty tree with leaves at `leaf_depth_bits`.
    pub(crate) fn new(leaf_depth_bits: usize) -> (tree: EpochTree)
        requires
            is_leaf_depth(leaf_depth_bits as nat),
        ensures
            tree.wf(),
            tree.leaf() == leaf_depth_bits,
            tree@ == TreeView::empty(),
    {
        let n: usize = leaf_depth_bits / 3;
        let mut levels: Vec<HashMap<u64, NodeHash>> = Vec::new();
        let mut i: usize = 0;
        while i < n
            invariant
                i <= n,
                levels@.len() == i,
                forall|j: int| 0 <= j < i ==> (#[trigger] levels@[j])@ == Map::<u64, u128>::empty(),
            decreases n - i,
        {
            levels.push(HashMap::new());
            i = i + 1;
        }
        let tree = EpochTree { root: 0, count: 0, levels };
        proof {
            assert(tree@.hash =~= TreeView::empty().hash);
            lemma_empty_wf(leaf_depth_bits as nat);
        }
        tree
    }

    /// XOR `digest` into every cell on the root-to-leaf path. Self-inverse:
    /// folding the same digest twice removes it.
    pub(crate) fn toggle(&mut self, morton: u64, digest: NodeHash)
        requires
            old(self).wf(),
        ensures
            final(self).wf(),
            final(self).leaf() == old(self).leaf(),
            final(self)@ == old(self)@.toggled(old(self).leaf(), morton, digest),
    {
        broadcast use vstd::std_specs::hash::group_hash_axioms;

        let n: usize = self.levels.len();
        self.root = self.root ^ digest;
        let mut i: usize = 0;
        while i < n
            invariant
                i <= n,
                n <= 21,
                self.levels@.len() == n,
                old(self).levels@.len() == n,
                self.count == old(self).count,
                self.root == old(self).root ^ digest,
                forall|j: int, p: u64|
                    0 <= j < i ==> #[trigger] level_hash(self.levels@[j]@, p) == (if cell_prefix(
                        morton,
                        (3 * j + 3) as nat,
                    ) == p {
                        level_hash(old(self).levels@[j]@, p) ^ digest
                    } else {
                        level_hash(old(self).levels@[j]@, p)
                    }),
                forall|j: int| i <= j < n ==> #[trigger] self.levels@[j] == old(self).levels@[j],
            decreases n - i,
        {
            let ghost before = self.levels@;
            let prefix: u64 = prefix_at(morton, (i + 1) * 3);
            let cell: &mut NodeHash = self.levels[i].entry(prefix).or_insert(0);
            *cell = *cell ^ digest;
            i = i + 1;
        }
        proof {
            assert(self@.hash =~= old(self)@.toggled(old(self).leaf(), morton, digest).hash) by {
                assert forall|depth: nat, prefix: u64| #[trigger]
                    self@.at(depth, prefix) == old(self)@.toggled(
                        old(self).leaf(),
                        morton,
                        digest,
                    ).at(depth, prefix) by {
                    if depth > 0 && is_level(depth, self.leaf()) {
                        let j = depth / 3 - 1;
                        assert(level_hash(self.levels@[j]@, prefix) == self@.at(depth, prefix));
                    }
                }
            }
            lemma_toggled_wf(old(self)@, old(self).leaf(), morton, digest);
        }
    }

    /// The hash of the cell `(depth_bits, prefix)`; 0 if it was never present.
    pub(crate) fn node_hash(&self, depth_bits: usize, prefix: u64) -> (hash: NodeHash)
        requires
            self.wf(),
            is_level(depth_bits as nat, self.leaf()),
        ensures
            hash == self@.at(depth_bits as nat, prefix),
    {
        broadcast use vstd::std_specs::hash::group_hash_axioms;

        if depth_bits == 0 {
            return self.root;
        }
        match self.levels[depth_bits / 3 - 1].get(&prefix) {
            Some(hash) => *hash,
            None => 0,
        }
    }

    /// How many items the tree counts.
    pub(crate) fn count(&self) -> (count: u64)
        ensures
            count == self@.count,
    {
        self.count
    }

    /// Sets how many items the tree counts.
    pub(crate) fn set_count(&mut self, count: u64)
        requires
            old(self).wf(),
        ensures
            final(self).wf(),
            final(self).leaf() == old(self).leaf(),
            final(self)@ == old(self)@.counting(count as nat),
    {
        self.count = count;
        proof {
            assert(self@.hash =~= old(self)@.hash);
            lemma_counting_wf(old(self)@, old(self).leaf(), count as nat);
        }
    }

    /// The non-empty leaves with their hashes, in ascending order of their prefixes.
    pub(crate) fn leaves(&self) -> (entries: Vec<(u64, NodeHash)>)
        requires
            self.wf(),
        ensures
            lists_leaves(self@, self.leaf(), entries@),
    {
        broadcast use vstd::std_specs::hash::group_hash_axioms;

        let last: usize = self.levels.len() - 1;
        let ghost level = self.levels@[last as int]@;
        let iter = self.levels[last].iter();
        let ghost walked = vstd::std_specs::hash::into_iter(iter);
        proof {
            lemma_walk(&self.levels@[last as int], iter);
        }
        let mut entries: Vec<(u64, NodeHash)> = Vec::new();
        for entry in it: iter
            invariant
                it.seq().unref() == walked,
                walks(walked, level),
                picks(entries@, walked, it.index() as int),
        {
            let ghost before = entries@;
            let ghost n = it.index() as int;
            if *entry.1 != 0 {
                entries.push((*entry.0, *entry.1));
                assert(entries@[before.len() as int] == walked[n]);
            }
            proof {
                lemma_picks(before, entries@, walked, n);
            }
        }
        let ghost picked = entries@;
        sort_by_prefix(&mut entries);
        proof {
            lemma_sorted_leaves(picked, entries@, walked, level);
            assert forall|prefix: u64| #[trigger] self@.at(self.leaf(), prefix) == level_hash(level, prefix) by {}
        }
        entries
    }
}

impl Clone for EpochTree {
    fn clone(&self) -> (tree: EpochTree)
        ensures
            tree@ == self@,
            tree.leaf() == self.leaf(),
    {
        let n: usize = self.levels.len();
        let mut levels: Vec<HashMap<u64, NodeHash>> = Vec::new();
        let mut i: usize = 0;
        while i < n
            invariant
                i <= n,
                n == self.levels@.len(),
                levels@.len() == i,
                forall|j: int| 0 <= j < i ==> (#[trigger] levels@[j])@ == self.levels@[j]@,
            decreases n - i,
        {
            levels.push(self.levels[i].clone());
            i = i + 1;
        }
        let tree = EpochTree { root: self.root, count: self.count, levels };
        assert(tree@.hash =~= self@.hash);
        tree
    }
}

/// `<[T]>::sort_unstable_by_key` of `std`, by the first component: the same
/// entries, in ascending order of their prefixes.
#[verifier::external_body]
fn sort_by_prefix(entries: &mut Vec<(u64, NodeHash)>)
    ensures
        final(entries)@.to_multiset() == old(entries)@.to_multiset(),
        forall|i: int, j: int|
            0 <= i < j < final(entries)@.len() ==> final(entries)@[i].0 <= final(entries)@[j].0,
{
    entries.sort_unstable_by_key(|entry| entry.0);
}

/// Whether `walked` lists a level's entries, in some order.
spec fn walks(walked: Seq<(u64, u128)>, level: Map<u64, u128>) -> bool {
    &&& walked.no_duplicates()
    &&& forall|i: int|
        0 <= i < walked.len() ==> level.contains_key((#[trigger] walked[i]).0)
            && level[walked[i].0] == walked[i].1
    &&& forall|prefix: u64| #[trigger]
        level.contains_key(prefix) ==> walked.contains((prefix, level[prefix]))
}

/// Whether `picked` holds the entries with a hash other than 0 among the first `n`.
spec fn picks(picked: Seq<(u64, u128)>, walked: Seq<(u64, u128)>, n: int) -> bool {
    &&& picked.no_duplicates()
    &&& forall|x: (u64, u128)| #[trigger]
        picked.contains(x) <==> (x.1 != 0 && walked.take(n).contains(x))
}

/// An iterator over a level walks its entries.
proof fn lemma_walk(
    level: &HashMap<u64, u128>,
    iter: std::collections::hash_map::Iter<u64, u128>,
)
    requires
        iter == vstd::std_specs::hash::spec_hash_map_iter(level),
        vstd::std_specs::hash::into_iter(iter) == vstd::std_specs::iter::IteratorSpec::remaining(
            &iter,
        ).unref(),
        vstd::std_specs::iter::IteratorSpec::remaining(&iter).no_duplicates(),
    ensures
        walks(vstd::std_specs::hash::into_iter(iter), level@),
{
    broadcast use vstd::std_specs::hash::group_hash_axioms;

    let walked = vstd::std_specs::hash::into_iter(iter);
    let left = vstd::std_specs::iter::IteratorSpec::remaining(&iter);
    assert forall|i: int, j: int| 0 <= i < walked.len() && 0 <= j < walked.len() && i != j implies walked[i]
        != walked[j] by {
        assert(left[i] != left[j]);
    }
    assert forall|i: int| 0 <= i < walked.len() implies level@.contains_key((#[trigger] walked[i]).0)
        && level@[walked[i].0] == walked[i].1 by {
        assert(level@.contains_key(*left[i].0));
    }
    assert forall|prefix: u64| #[trigger] level@.contains_key(prefix) implies walked.contains(
        (prefix, level@[prefix]),
    ) by {
        let i = choose|i: int| 0 <= i < left.len() && left[i] == (&prefix, &level@[prefix]);
        assert(walked[i] == (prefix, level@[prefix]));
    }
}

/// Picking goes on by one entry.
proof fn lemma_picks(
    before: Seq<(u64, u128)>,
    after: Seq<(u64, u128)>,
    walked: Seq<(u64, u128)>,
    n: int,
)
    requires
        picks(before, walked, n),
        walked.no_duplicates(),
        0 <= n < walked.len(),
        after == (if walked[n].1 != 0 {
            before.push(walked[n])
        } else {
            before
        }),
    ensures
        picks(after, walked, n + 1),
{
    let x = walked[n];
    let shorter = walked.take(n);
    let longer = walked.take(n + 1);
    assert(longer =~= shorter.push(x));
    assert forall|y: (u64, u128)| #[trigger] longer.contains(y) <==> (shorter.contains(y) || y == x) by {
        if shorter.contains(y) {
            let i = choose|i: int| 0 <= i < shorter.len() && shorter[i] == y;
            assert(longer[i] == y);
        }
        assert(longer[n] == x);
    }
    assert(!shorter.contains(x)) by {
        if shorter.contains(x) {
            let i = choose|i: int| 0 <= i < shorter.len() && shorter[i] == x;
            assert(walked[i] == walked[n]);
        }
    }
    assert forall|y: (u64, u128)| #[trigger] after.contains(y) <==> (y.1 != 0 && longer.contains(y)) by {
        if before.contains(y) {
            let i = choose|i: int| 0 <= i < before.len() && before[i] == y;
            assert(after[i] == y);
        }
        if x.1 != 0 {
            assert(after[before.len() as int] == x);
        }
        if after.contains(y) && !before.contains(y) {
            let i = choose|i: int| 0 <= i < after.len() && after[i] == y;
            if i < before.len() {
                assert(before[i] == y);
            }
        }
    }
    assert(!before.contains(x));
}

/// Sorted, the picked entries list the level's cells with a hash other than 0.
proof fn lemma_sorted_leaves(
    picked: Seq<(u64, u128)>,
    sorted: Seq<(u64, u128)>,
    walked: Seq<(u64, u128)>,
    level: Map<u64, u128>,
)
    requires
        walks(walked, level),
        picks(picked, walked, walked.len() as int),
        sorted.to_multiset() == picked.to_multiset(),
        forall|i: int, j: int| 0 <= i < j < sorted.len() ==> sorted[i].0 <= sorted[j].0,
    ensures
        forall|i: int, j: int| 0 <= i < j < sorted.len() ==> sorted[i].0 < sorted[j].0,
        forall|i: int|
            0 <= i < sorted.len() ==> (#[trigger] sorted[i]).1 != 0 && sorted[i].1 == level_hash(
                level,
                sorted[i].0,
            ),
        forall|prefix: u64|
            #[trigger] level_hash(level, prefix) != 0 ==> sorted.contains(
                (prefix, level_hash(level, prefix)),
            ),
{
    sorted.to_multiset_ensures();
    picked.to_multiset_ensures();
    assert(walked.take(walked.len() as int) =~= walked);
    picked.lemma_multiset_has_no_duplicates();
    sorted.lemma_multiset_has_no_duplicates_conv();
    assert forall|x: (u64, u128)| #[trigger] sorted.contains(x) <==> picked.contains(x) by {
        assert(sorted.contains(x) <==> sorted.to_multiset().count(x) > 0);
        assert(picked.contains(x) <==> picked.to_multiset().count(x) > 0);
    }
    assert forall|i: int| 0 <= i < sorted.len() implies (#[trigger] sorted[i]).1 != 0 && sorted[i].1
        == level_hash(level, sorted[i].0) by {
        assert(sorted.contains(sorted[i]));
        assert(walked.contains(sorted[i]));
    }
    assert forall|i: int, j: int| 0 <= i < j < sorted.len() implies sorted[i].0 < sorted[j].0 by {
        assert(sorted[i].0 <= sorted[j].0);
        if sorted[i].0 == sorted[j].0 {
            assert(sorted[i] == sorted[j]);
        }
    }
    assert forall|prefix: u64| #[trigger] level_hash(level, prefix) != 0 implies sorted.contains(
        (prefix, level_hash(level, prefix)),
    ) by {
        assert(level.contains_key(prefix));
        assert(picked.contains((prefix, level[prefix])));
    }
}

} // verus!
