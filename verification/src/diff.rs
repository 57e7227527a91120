//! Where two forests disagree.

use crate::cell::{
    cell_prefix, child_prefix, in_cell, is_leaf_depth, is_level, is_prefix, last_code,
    lemma_child_prefix, lemma_children_ascend, lemma_in_child, octant,
};
use crate::forest::MerkleForest;
use crate::key::{key_bytes, leaf_key_range};
use crate::model::ForestView;
use vstd::prelude::*;

verus! {

/// A leaf cell where two forests disagree, with its ready-to-scan key range.
#[derive(Debug, PartialEq, Eq)]
pub struct DivergentLeaf {
    pub epoch: u32,
    pub depth_bits: usize,
    pub prefix: u64,
    pub start_key: [u8; 20],
    pub end_key: [u8; 20],
}

impl DivergentLeaf {
    /// Whether this is the cell `(depth, prefix)` of `epoch`, with its key range.
    pub open spec fn is_cell(self, epoch: u32, depth: nat, prefix: u64) -> bool {
        &&& self.epoch == epoch
        &&& self.depth_bits == depth
        &&& self.prefix == prefix
        &&& self.start_key@ == key_bytes(epoch, prefix, 0)
        &&& self.end_key@ == key_bytes(epoch, last_code(prefix, depth), u64::MAX)
    }
}

impl Clone for DivergentLeaf {
    fn clone(&self) -> (leaf: DivergentLeaf)
        ensures
            leaf == *self,
    {
        DivergentLeaf {
            epoch: self.epoch,
            depth_bits: self.depth_bits,
            prefix: self.prefix,
            start_key: self.start_key,
            end_key: self.end_key,
        }
    }
}

/// Whether two forests have different hashes for a cell.
pub open spec fn differ(a: ForestView, b: ForestView, epoch: u32, depth: nat, prefix: u64) -> bool {
    a.hash(epoch, depth, prefix) != b.hash(epoch, depth, prefix)
}

/// Whether two forests differ on every cell that holds `leaf_prefix`, from
/// below depth `from` down to depth `leaf`.
pub open spec fn differ_below(
    a: ForestView,
    b: ForestView,
    epoch: u32,
    from: nat,
    leaf: nat,
    leaf_prefix: u64,
) -> bool {
    forall|depth: nat|
        from < depth && is_level(depth, leaf) ==> differ(
            a,
            b,
            epoch,
            depth,
            #[trigger] cell_prefix(leaf_prefix, depth),
        )
}

/// Whether a leaf cell is divergent: two forests differ on it and on every
/// cell around it, up to the root.
pub open spec fn divergent(a: ForestView, b: ForestView, epoch: u32, leaf: nat, prefix: u64) -> bool {
    &&& is_prefix(prefix, leaf)
    &&& differ(a, b, epoch, 0, 0)
    &&& differ_below(a, b, epoch, 0, leaf, prefix)
}

/// The depth at which two forests can be compared: the shallower of their leaves'.
pub open spec fn common_leaf(a: ForestView, b: ForestView) -> nat {
    if a.leaf <= b.leaf {
        a.leaf
    } else {
        b.leaf
    }
}

/// Whether a leaf comes before another in the order of epochs, then prefixes.
pub open spec fn precedes(x: DivergentLeaf, y: DivergentLeaf) -> bool {
    x.epoch < y.epoch || (x.epoch == y.epoch && x.prefix < y.prefix)
}

/// Whether `leaves` lists the divergent leaf cells of two forests, each once,
/// in order.
pub open spec fn lists_divergence(a: ForestView, b: ForestView, leaves: Seq<DivergentLeaf>) -> bool {
    let leaf = common_leaf(a, b);
    &&& forall|i: int|
        0 <= i < leaves.len() ==> (#[trigger] leaves[i]).is_cell(
            leaves[i].epoch,
            leaf,
            leaves[i].prefix,
        ) && divergent(a, b, leaves[i].epoch, leaf, leaves[i].prefix)
    &&& forall|i: int, j: int| 0 <= i < j < leaves.len() ==> precedes(leaves[i], leaves[j])
    &&& forall|epoch: u32, prefix: u64| #[trigger]
        divergent(a, b, epoch, leaf, prefix) ==> has_leaf(leaves, 0, epoch, prefix)
}

/// Whether `leaves` has a leaf at or past index `from`.
pub open spec fn has_leaf(leaves: Seq<DivergentLeaf>, from: int, epoch: u32, prefix: u64) -> bool {
    exists|i: int|
        from <= i < leaves.len() && (#[trigger] leaves[i]).epoch == epoch && leaves[i].prefix
            == prefix
}

/// Whether, from index `from` on, `leaves` lists the leaf cells in the first
/// `n` octants of the cell `(depth, prefix)` that differ all the way up to it.
spec fn lists_octants(
    a: ForestView,
    b: ForestView,
    leaves: Seq<DivergentLeaf>,
    from: int,
    epoch: u32,
    depth: nat,
    prefix: u64,
    leaf: nat,
    n: int,
) -> bool {
    &&& forall|i: int|
        from <= i < leaves.len() ==> (#[trigger] leaves[i]).is_cell(epoch, leaf, leaves[i].prefix)
            && is_prefix(leaves[i].prefix, leaf) && in_cell(leaves[i].prefix, depth, prefix)
            && octant(leaves[i].prefix, depth) < n && differ_below(
            a,
            b,
            epoch,
            depth,
            leaf,
            leaves[i].prefix,
        )
    &&& forall|i: int, j: int| from <= i < j < leaves.len() ==> precedes(leaves[i], leaves[j])
    &&& forall|q: u64|
        is_prefix(q, leaf) && in_cell(q, depth, prefix) && octant(q, depth) < n
            && #[trigger] differ_below(a, b, epoch, depth, leaf, q) ==> has_leaf(
            leaves,
            from,
            epoch,
            q,
        )
}

/// Whether, from index `from` on, `leaves` lists the leaf cells within the
/// cell `(depth, prefix)` that differ all the way up to it.
spec fn lists_cell(
    a: ForestView,
    b: ForestView,
    leaves: Seq<DivergentLeaf>,
    from: int,
    epoch: u32,
    depth: nat,
    prefix: u64,
    leaf: nat,
) -> bool {
    &&& forall|i: int|
        from <= i < leaves.len() ==> (#[trigger] leaves[i]).is_cell(epoch, leaf, leaves[i].prefix)
            && is_prefix(leaves[i].prefix, leaf) && in_cell(leaves[i].prefix, depth, prefix)
            && differ_below(a, b, epoch, depth, leaf, leaves[i].prefix)
    &&& forall|i: int, j: int| from <= i < j < leaves.len() ==> precedes(leaves[i], leaves[j])
    &&& forall|q: u64|
        is_prefix(q, leaf) && in_cell(q, depth, prefix) && #[trigger] differ_below(
            a,
            b,
            epoch,
            depth,
            leaf,
            q,
        ) ==> has_leaf(leaves, from, epoch, q)
}

/// Below a child whose hashes differ, a leaf differs all the way up to the
/// parent just when it does up to the child; below one whose hashes agree, none does.
proof fn lemma_differ_step(
    a: ForestView,
    b: ForestView,
    epoch: u32,
    depth: nat,
    prefix: u64,
    leaf: nat,
    c: u64,
    q: u64,
)
    requires
        is_leaf_depth(leaf),
        is_level(depth + 3, leaf),
        is_prefix(prefix, depth),
        c < 8,
        in_cell(q, depth + 3, child_prefix(prefix, depth, c)),
    ensures
        differ_below(a, b, epoch, depth, leaf, q) <==> (differ(
            a,
            b,
            epoch,
            depth + 3,
            child_prefix(prefix, depth, c),
        ) && differ_below(a, b, epoch, depth + 3, leaf, q)),
{
    let child = child_prefix(prefix, depth, c);
    assert(cell_prefix(q, depth + 3) == child);
    if differ_below(a, b, epoch, depth, leaf, q) {
        assert(differ(a, b, epoch, depth + 3, cell_prefix(q, depth + 3)));
    }
    if differ(a, b, epoch, depth + 3, child) && differ_below(a, b, epoch, depth + 3, leaf, q) {
        assert forall|d: nat| depth < d && is_level(d, leaf) implies differ(
            a,
            b,
            epoch,
            d,
            #[trigger] cell_prefix(q, d),
        ) by {
            if d != depth + 3 {
                assert(depth + 3 < d);
            }
        }
    }
}

/// The listing goes on by one octant.
proof fn lemma_next_octant(
    a: ForestView,
    b: ForestView,
    before: Seq<DivergentLeaf>,
    after: Seq<DivergentLeaf>,
    from: int,
    epoch: u32,
    depth: nat,
    prefix: u64,
    leaf: nat,
    c: u64,
)
    requires
        is_leaf_depth(leaf),
        is_level(depth + 3, leaf),
        is_prefix(prefix, depth),
        c < 8,
        0 <= from <= before.len() <= after.len(),
        after.take(before.len() as int) == before,
        lists_octants(a, b, before, from, epoch, depth, prefix, leaf, c as int),
        if differ(a, b, epoch, depth + 3, child_prefix(prefix, depth, c)) {
            lists_cell(
                a,
                b,
                after,
                before.len() as int,
                epoch,
                depth + 3,
                child_prefix(prefix, depth, c),
                leaf,
            )
        } else {
            after == before
        },
    ensures
        lists_octants(a, b, after, from, epoch, depth, prefix, leaf, c + 1),
{
    let child = child_prefix(prefix, depth, c);
    let n = before.len() as int;
    assert forall|i: int| 0 <= i < n implies #[trigger] after[i] == before[i] by {
        assert(after.take(n)[i] == before[i]);
    }
    assert forall|i: int| from <= i < after.len() implies (#[trigger] after[i]).is_cell(
        epoch,
        leaf,
        after[i].prefix,
    ) && is_prefix(after[i].prefix, leaf) && in_cell(after[i].prefix, depth, prefix) && octant(
        after[i].prefix,
        depth,
    ) < c + 1 && differ_below(a, b, epoch, depth, leaf, after[i].prefix) by {
        if i < n {
            assert(after[i] == before[i]);
        } else {
            lemma_in_child(after[i].prefix, depth, prefix, c);
            lemma_differ_step(a, b, epoch, depth, prefix, leaf, c, after[i].prefix);
        }
    }
    assert forall|i: int, j: int| from <= i < j < after.len() implies precedes(after[i], after[j]) by {
        if j < n {
            assert(after[i] == before[i] && after[j] == before[j]);
        } else if i < n {
            assert(after[i] == before[i]);
            let x = after[i].prefix;
            let y = after[j].prefix;
            let o = octant(x, depth);
            lemma_in_child(x, depth, prefix, o);
            lemma_children_ascend(x, depth, prefix, o);
            lemma_children_ascend(y, depth, prefix, c);
        }
    }
    assert forall|q: u64|
        is_prefix(q, leaf) && in_cell(q, depth, prefix) && octant(q, depth) < c + 1
            && #[trigger] differ_below(a, b, epoch, depth, leaf, q) implies has_leaf(
        after,
        from,
        epoch,
        q,
    ) by {
        if octant(q, depth) < c {
            assert(has_leaf(before, from, epoch, q));
            let i = choose|i: int|
                from <= i < before.len() && (#[trigger] before[i]).epoch == epoch
                    && before[i].prefix == q;
            assert(after[i] == before[i]);
        } else {
            lemma_in_child(q, depth, prefix, c);
            lemma_differ_step(a, b, epoch, depth, prefix, leaf, c, q);
            assert(has_leaf(after, n, epoch, q));
            let i = choose|i: int|
                n <= i < after.len() && (#[trigger] after[i]).epoch == epoch && after[i].prefix
                    == q;
            assert(from <= i);
        }
    }
}

/// Appends the divergent leaves within the cell `(depth_bits, prefix)`,
/// descending only into children whose hashes differ.
fn descend(
    a: &MerkleForest,
    b: &MerkleForest,
    epoch: u32,
    depth_bits: usize,
    prefix: u64,
    leaf_depth: usize,
    out: &mut Vec<DivergentLeaf>,
)
    requires
        is_leaf_depth(leaf_depth as nat),
        leaf_depth <= a@.leaf,
        leaf_depth <= b@.leaf,
        is_level(depth_bits as nat, leaf_depth as nat),
        is_prefix(prefix, depth_bits as nat),
    ensures
        old(out)@.len() <= final(out)@.len(),
        final(out)@.take(old(out)@.len() as int) == old(out)@,
        lists_cell(
            a@,
            b@,
            final(out)@,
            old(out)@.len() as int,
            epoch,
            depth_bits as nat,
            prefix,
            leaf_depth as nat,
        ),
    decreases leaf_depth - depth_bits,
{
    let ghost from = out@.len() as int;
    let ghost depth = depth_bits as nat;
    let ghost leaf = leaf_depth as nat;
    if depth_bits == leaf_depth {
        let (start_key, end_key) = leaf_key_range(epoch, prefix, depth_bits);
        out.push(DivergentLeaf { epoch, depth_bits, prefix, start_key, end_key });
        proof {
            assert(out@.take(from) =~= old(out)@);
            assert(out@[from].epoch == epoch && out@[from].prefix == prefix);
            assert forall|q: u64| is_prefix(q, leaf) && in_cell(q, depth, prefix) implies q == prefix by {}
        }
        return;
    }
    let child_depth: usize = depth_bits + 3;
    let mut c: u64 = 0;
    assert(out@.take(from) =~= old(out)@);
    while c < 8
        invariant
            c <= 8,
            is_leaf_depth(leaf),
            leaf == leaf_depth,
            depth == depth_bits,
            leaf <= a@.leaf,
            leaf <= b@.leaf,
            child_depth == depth_bits + 3,
            is_level(child_depth as nat, leaf),
            is_prefix(prefix, depth),
            from == old(out)@.len(),
            from <= out@.len(),
            out@.take(from) == old(out)@,
            lists_octants(a@, b@, out@, from, epoch, depth, prefix, leaf, c as int),
        decreases 8 - c,
    {
        let ghost before = out@;
        let child: u64 = prefix | (c << (64 - child_depth as u64));
        proof {
            lemma_child_prefix(prefix, depth, c);
            assert(before.take(before.len() as int) =~= before);
        }
        if a.node_hash(epoch, child_depth, child) != b.node_hash(epoch, child_depth, child) {
            descend(a, b, epoch, child_depth, child, leaf_depth, out);
        }
        proof {
            lemma_next_octant(a@, b@, before, out@, from, epoch, depth, prefix, leaf, c);
            assert(out@.take(from) =~= before.take(from)) by {
                assert(out@.take(before.len() as int).take(from) =~= out@.take(from));
            }
        }
        c = c + 1;
    }
    proof {
        assert forall|q: u64| octant(q, depth) < 8 by {
            lemma_in_child(q, depth, prefix, 0);
        }
        assert(lists_cell(a@, b@, out@, from, epoch, depth, prefix, leaf));
    }
}

/// The epochs of two ascending lists, in ascending order, each once.
fn merge_epochs(a: &Vec<u32>, b: &Vec<u32>) -> (merged: Vec<u32>)
    requires
        forall|i: int, j: int| 0 <= i < j < a@.len() ==> a@[i] < a@[j],
        forall|i: int, j: int| 0 <= i < j < b@.len() ==> b@[i] < b@[j],
    ensures
        forall|i: int, j: int| 0 <= i < j < merged@.len() ==> merged@[i] < merged@[j],
        forall|e: u32| #[trigger] merged@.contains(e) <==> (a@.contains(e) || b@.contains(e)),
{
    let mut merged: Vec<u32> = Vec::new();
    let mut i: usize = 0;
    let mut j: usize = 0;
    while i < a.len() || j < b.len()
        invariant
            i <= a@.len(),
            j <= b@.len(),
            forall|x: int, y: int| 0 <= x < y < a@.len() ==> a@[x] < a@[y],
            forall|x: int, y: int| 0 <= x < y < b@.len() ==> b@[x] < b@[y],
            forall|x: int, y: int| 0 <= x < y < merged@.len() ==> merged@[x] < merged@[y],
            forall|x: int, y: int| 0 <= x < merged@.len() && i <= y < a@.len() ==> merged@[x] < a@[y],
            forall|x: int, y: int| 0 <= x < merged@.len() && j <= y < b@.len() ==> merged@[x] < b@[y],
            forall|x: int|
                0 <= x < merged@.len() ==> a@.contains(#[trigger] merged@[x]) || b@.contains(
                    merged@[x],
                ),
            forall|x: int| 0 <= x < i ==> merged@.contains(#[trigger] a@[x]),
            forall|x: int| 0 <= x < j ==> merged@.contains(#[trigger] b@[x]),
        decreases a@.len() - i + b@.len() - j,
    {
        let ghost before = merged@;
        let ghost old_i = i;
        let ghost old_j = j;
        if j >= b.len() || (i < a.len() && a[i] < b[j]) {
            merged.push(a[i]);
            i = i + 1;
        } else if i >= a.len() || b[j] < a[i] {
            merged.push(b[j]);
            j = j + 1;
        } else {
            merged.push(a[i]);
            i = i + 1;
            j = j + 1;
        }
        proof {
            let n = before.len() as int;
            let new = merged@[n];
            assert(merged@ =~= before.push(new));
            assert forall|e: u32| #[trigger] before.contains(e) implies merged@.contains(e) by {
                let x = choose|x: int| 0 <= x < before.len() && before[x] == e;
                assert(merged@[x] == e);
            }
            assert(merged@.contains(new));
            if i > old_i {
                assert(a@[old_i as int] == new);
            }
            if j > old_j {
                assert(b@[old_j as int] == new);
            }
        }
    }
    proof {
        assert forall|e: u32| #[trigger] merged@.contains(e) <==> (a@.contains(e) || b@.contains(e)) by {
            if a@.contains(e) {
                let x = choose|x: int| 0 <= x < a@.len() && a@[x] == e;
                assert(merged@.contains(a@[x]));
            }
            if b@.contains(e) {
                let x = choose|x: int| 0 <= x < b@.len() && b@[x] == e;
                assert(merged@.contains(b@[x]));
            }
        }
    }
    merged
}

/// Whether `leaves` lists the divergent leaves of the first `n` of `epochs`.
spec fn lists_epochs(
    a: ForestView,
    b: ForestView,
    leaves: Seq<DivergentLeaf>,
    epochs: Seq<u32>,
    n: int,
) -> bool {
    let leaf = common_leaf(a, b);
    &&& forall|i: int|
        0 <= i < leaves.len() ==> (#[trigger] leaves[i]).is_cell(
            leaves[i].epoch,
            leaf,
            leaves[i].prefix,
        ) && divergent(a, b, leaves[i].epoch, leaf, leaves[i].prefix)
    &&& forall|i: int, j: int|
        0 <= i < leaves.len() && n <= j < epochs.len() ==> leaves[i].epoch < epochs[j]
    &&& forall|i: int, j: int| 0 <= i < j < leaves.len() ==> precedes(leaves[i], leaves[j])
    &&& forall|k: int, prefix: u64|
        0 <= k < n && #[trigger] divergent(a, b, epochs[k], leaf, prefix) ==> has_leaf(
            leaves,
            0,
            epochs[k],
            prefix,
        )
}

/// The listing goes on by one epoch.
proof fn lemma_next_epoch(
    a: ForestView,
    b: ForestView,
    before: Seq<DivergentLeaf>,
    after: Seq<DivergentLeaf>,
    epochs: Seq<u32>,
    n: int,
)
    requires
        0 <= n < epochs.len(),
        forall|i: int, j: int| 0 <= i < j < epochs.len() ==> epochs[i] < epochs[j],
        lists_epochs(a, b, before, epochs, n),
        before.len() <= after.len(),
        after.take(before.len() as int) == before,
        if differ(a, b, epochs[n], 0, 0) {
            lists_cell(a, b, after, before.len() as int, epochs[n], 0, 0, common_leaf(a, b))
        } else {
            after == before
        },
    ensures
        lists_epochs(a, b, after, epochs, n + 1),
{
    let leaf = common_leaf(a, b);
    let m = before.len() as int;
    let epoch = epochs[n];
    assert forall|i: int| 0 <= i < m implies #[trigger] after[i] == before[i] by {
        assert(after.take(m)[i] == before[i]);
    }
    assert forall|i: int| 0 <= i < after.len() implies (#[trigger] after[i]).is_cell(
        after[i].epoch,
        leaf,
        after[i].prefix,
    ) && divergent(a, b, after[i].epoch, leaf, after[i].prefix) by {
        if i < m {
            assert(after[i] == before[i]);
        }
    }
    assert forall|i: int, j: int| 0 <= i < after.len() && n + 1 <= j < epochs.len() implies after[i].epoch
        < epochs[j] by {
        if i < m {
            assert(after[i] == before[i]);
        } else {
            assert(after[i].is_cell(epoch, leaf, after[i].prefix));
        }
    }
    assert forall|i: int, j: int| 0 <= i < j < after.len() implies precedes(after[i], after[j]) by {
        if j < m {
            assert(after[i] == before[i] && after[j] == before[j]);
        } else if i < m {
            assert(after[i] == before[i]);
            assert(before[i].epoch < epochs[n]);
            assert(after[j].is_cell(epoch, leaf, after[j].prefix));
        }
    }
    assert forall|k: int, prefix: u64|
        0 <= k < n + 1 && #[trigger] divergent(a, b, epochs[k], leaf, prefix) implies has_leaf(
        after,
        0,
        epochs[k],
        prefix,
    ) by {
        if k < n {
            assert(has_leaf(before, 0, epochs[k], prefix));
            let i = choose|i: int|
                0 <= i < before.len() && (#[trigger] before[i]).epoch == epochs[k]
                    && before[i].prefix == prefix;
            assert(after[i] == before[i]);
        } else {
            assert(has_leaf(after, m, epoch, prefix));
            let i = choose|i: int|
                m <= i < after.len() && (#[trigger] after[i]).epoch == epoch && after[i].prefix
                    == prefix;
            assert(0 <= i);
        }
    }
}

/// Compare two forests and return every divergent leaf cell.
///
/// Descends only into subtrees whose hashes differ, to the shallower of the
/// two forests' leaf depths (node hashes are structure-independent, so mixed
/// depths compare correctly). Peers then exchange the rows in each returned
/// key range; because merge is idempotent set-union, over-shipping is safe.
pub fn diff_forests(a: &MerkleForest, b: &MerkleForest) -> (leaves: Vec<DivergentLeaf>)
    ensures
        lists_divergence(a@, b@, leaves@),
{
    let a_leaf: usize = a.leaf_depth_bits();
    let b_leaf: usize = b.leaf_depth_bits();
    let leaf_depth: usize = if a_leaf <= b_leaf {
        a_leaf
    } else {
        b_leaf
    };
    let epochs: Vec<u32> = merge_epochs(&a.epochs(), &b.epochs());
    let mut out: Vec<DivergentLeaf> = Vec::new();
    let mut i: usize = 0;
    while i < epochs.len()
        invariant
            i <= epochs@.len(),
            is_leaf_depth(leaf_depth as nat),
            leaf_depth == common_leaf(a@, b@),
            leaf_depth <= a@.leaf,
            leaf_depth <= b@.leaf,
            forall|x: int, y: int| 0 <= x < y < epochs@.len() ==> epochs@[x] < epochs@[y],
            lists_epochs(a@, b@, out@, epochs@, i as int),
        decreases epochs@.len() - i,
    {
        let ghost before = out@;
        let epoch: u32 = epochs[i];
        assert(before.take(before.len() as int) =~= before);
        if a.node_hash(epoch, 0, 0) != b.node_hash(epoch, 0, 0) {
            descend(a, b, epoch, 0, 0, leaf_depth, &mut out);
        }
        proof {
            lemma_next_epoch(a@, b@, before, out@, epochs@, i as int);
        }
        i = i + 1;
    }
    proof {
        let leaf = common_leaf(a@, b@);
        assert forall|epoch: u32, prefix: u64| #[trigger]
            divergent(a@, b@, epoch, leaf, prefix) implies has_leaf(out@, 0, epoch, prefix) by {
            assert(differ(a@, b@, epoch, 0, 0));
            assert(a@.trees.contains_key(epoch) || b@.trees.contains_key(epoch));
            assert(epochs@.contains(epoch));
            let k = choose|k: int| 0 <= k < epochs@.len() && epochs@[k] == epoch;
            assert(divergent(a@, b@, epochs@[k], leaf, prefix));
        }
    }
    out
}

} // verus!
