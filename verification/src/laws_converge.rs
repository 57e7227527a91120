//! What holds once the rows of divergent leaves have been exchanged.

use crate::cell::{
    cell_prefix, child_prefix, in_cell, is_level, is_prefix, lemma_child_prefix, lemma_in_child,
    lemma_prefix_nests,
};
use crate::diff::{
    common_leaf, differ, differ_below, divergent, lists_divergence, DivergentLeaf,
};
use crate::laws::lemma_tree_wf;
use crate::laws_diff::law_same_hashes_do_not_diverge;
use crate::model::{lemma_children_fold_cong, ForestView, TreeView};
use vstd::prelude::*;

verus! {

/// Trees that agree on the cells at depth `leaf` within a cell agree on that cell.
pub proof fn lemma_cells_determine(
    a: TreeView,
    a_leaf: nat,
    b: TreeView,
    b_leaf: nat,
    leaf: nat,
    depth: nat,
    prefix: u64,
)
    requires
        a.wf(a_leaf),
        b.wf(b_leaf),
        leaf <= a_leaf,
        leaf <= b_leaf,
        leaf <= 63,
        leaf % 3 == 0,
        is_level(depth, leaf),
        is_prefix(prefix, depth),
        forall|q: u64|
            is_prefix(q, leaf) && in_cell(q, depth, prefix) ==> #[trigger] a.at(leaf, q) == b.at(
                leaf,
                q,
            ),
    ensures
        a.at(depth, prefix) == b.at(depth, prefix),
    decreases leaf - depth,
{
    if depth == leaf {
        assert(a.at(leaf, prefix) == b.at(leaf, prefix));
    } else {
        assert forall|c: u64| c < 8 implies a.at(depth + 3, #[trigger] child_prefix(prefix, depth, c))
            == b.at(depth + 3, child_prefix(prefix, depth, c)) by {
            let child = child_prefix(prefix, depth, c);
            lemma_child_prefix(prefix, depth, c);
            assert forall|q: u64|
                is_prefix(q, leaf) && in_cell(q, depth + 3, child) implies #[trigger] a.at(leaf, q)
                == b.at(leaf, q) by {
                lemma_in_child(q, depth, prefix, c);
            }
            lemma_cells_determine(a, a_leaf, b, b_leaf, leaf, depth + 3, child);
        }
        lemma_children_fold_cong(a, b, depth, prefix, 8);
        assert(a.at(depth, prefix) == a.children_fold(depth, prefix, 8));
        assert(b.at(depth, prefix) == b.children_fold(depth, prefix, 8));
    }
}

/// Whether forests `a` and `b` went to `a2` and `b2` by an exchange: their
/// leaves agree where they were divergent, and are as they were elsewhere.
pub open spec fn exchanged(a: ForestView, b: ForestView, a2: ForestView, b2: ForestView) -> bool {
    let leaf = common_leaf(a, b);
    &&& a2.leaf == a.leaf
    &&& b2.leaf == b.leaf
    &&& forall|epoch: u32, prefix: u64|
        is_prefix(prefix, leaf) ==> if divergent(a, b, epoch, leaf, prefix) {
            #[trigger] a2.hash(epoch, leaf, prefix) == b2.hash(epoch, leaf, prefix)
        } else {
            &&& a2.hash(epoch, leaf, prefix) == a.hash(epoch, leaf, prefix)
            &&& b2.hash(epoch, leaf, prefix) == b.hash(epoch, leaf, prefix)
        }
}

/// A cell that agreed before an exchange agrees after it.
proof fn lemma_agreement_stays(
    a: ForestView,
    b: ForestView,
    a2: ForestView,
    b2: ForestView,
    epoch: u32,
    depth: nat,
    prefix: u64,
)
    requires
        a.wf(),
        b.wf(),
        a2.wf(),
        b2.wf(),
        exchanged(a, b, a2, b2),
        is_level(depth, common_leaf(a, b)),
        is_prefix(prefix, depth),
        !differ(a, b, epoch, depth, prefix),
    ensures
        !differ(a2, b2, epoch, depth, prefix),
{
    let leaf = common_leaf(a, b);
    assert forall|q: u64| is_prefix(q, leaf) && in_cell(q, depth, prefix) implies !#[trigger] divergent(
        a,
        b,
        epoch,
        leaf,
        q,
    ) by {
        if divergent(a, b, epoch, leaf, q) && depth > 0 {
            assert(differ(a, b, epoch, depth, cell_prefix(q, depth)));
        }
    }
    lemma_tree_wf(a, epoch);
    lemma_tree_wf(b, epoch);
    lemma_tree_wf(a2, epoch);
    lemma_tree_wf(b2, epoch);
    assert forall|q: u64| is_prefix(q, leaf) && in_cell(q, depth, prefix) implies #[trigger] a2.tree(epoch).at(
        leaf,
        q,
    ) == a.tree(epoch).at(leaf, q) by {
        assert(!divergent(a, b, epoch, leaf, q));
        assert(a2.hash(epoch, leaf, q) == a.hash(epoch, leaf, q));
    }
    assert forall|q: u64| is_prefix(q, leaf) && in_cell(q, depth, prefix) implies #[trigger] b2.tree(epoch).at(
        leaf,
        q,
    ) == b.tree(epoch).at(leaf, q) by {
        assert(!divergent(a, b, epoch, leaf, q));
        assert(a2.hash(epoch, leaf, q) == a.hash(epoch, leaf, q));
    }
    lemma_cells_determine(a2.tree(epoch), a.leaf, a.tree(epoch), a.leaf, leaf, depth, prefix);
    lemma_cells_determine(b2.tree(epoch), b.leaf, b.tree(epoch), b.leaf, leaf, depth, prefix);
}

/// A cell that differed, all the way up to the root, agrees after an exchange.
proof fn lemma_difference_settles(
    a: ForestView,
    b: ForestView,
    a2: ForestView,
    b2: ForestView,
    epoch: u32,
    depth: nat,
    prefix: u64,
)
    requires
        a.wf(),
        b.wf(),
        a2.wf(),
        b2.wf(),
        exchanged(a, b, a2, b2),
        is_level(depth, common_leaf(a, b)),
        is_prefix(prefix, depth),
        differ(a, b, epoch, 0, 0),
        differ_below(a, b, epoch, 0, depth, prefix),
    ensures
        !differ(a2, b2, epoch, depth, prefix),
    decreases common_leaf(a, b) - depth,
{
    let leaf = common_leaf(a, b);
    if depth == leaf {
        assert(divergent(a, b, epoch, leaf, prefix));
        assert(a2.hash(epoch, leaf, prefix) == b2.hash(epoch, leaf, prefix));
    } else {
        let s = a2.tree(epoch);
        let t = b2.tree(epoch);
        assert forall|c: u64| c < 8 implies s.at(depth + 3, #[trigger] child_prefix(prefix, depth, c))
            == t.at(depth + 3, child_prefix(prefix, depth, c)) by {
            let child = child_prefix(prefix, depth, c);
            lemma_child_prefix(prefix, depth, c);
            if differ(a, b, epoch, depth + 3, child) {
                assert forall|d: nat| 0 < d && is_level(d, depth + 3) implies differ(
                    a,
                    b,
                    epoch,
                    d,
                    #[trigger] cell_prefix(child, d),
                ) by {
                    if d <= depth {
                        lemma_prefix_nests(child, d, depth);
                        assert(cell_prefix(child, depth) == prefix);
                        assert(differ(a, b, epoch, d, cell_prefix(prefix, d)));
                    } else {
                        assert(d == depth + 3);
                    }
                }
                lemma_difference_settles(a, b, a2, b2, epoch, depth + 3, child);
            } else {
                lemma_agreement_stays(a, b, a2, b2, epoch, depth + 3, child);
            }
        }
        lemma_children_fold_cong(s, t, depth, prefix, 8);
        lemma_tree_wf(a2, epoch);
        lemma_tree_wf(b2, epoch);
        assert(s.at(depth, prefix) == s.children_fold(depth, prefix, 8));
        assert(t.at(depth, prefix) == t.children_fold(depth, prefix, 8));
    }
}

/// Exchanging the divergent leaves is enough: once two forests agree on each
/// of them, with the rest left as it was, every epoch's roots agree and
/// nothing is divergent any more.
pub proof fn law_exchange_converges(
    a: ForestView,
    b: ForestView,
    a2: ForestView,
    b2: ForestView,
    left: Seq<DivergentLeaf>,
)
    requires
        a.wf(),
        b.wf(),
        a2.wf(),
        b2.wf(),
        exchanged(a, b, a2, b2),
        lists_divergence(a2, b2, left),
    ensures
        forall|epoch: u32| #[trigger] a2.hash(epoch, 0, 0) == b2.hash(epoch, 0, 0),
        left.len() == 0,
{
    assert forall|epoch: u32| #[trigger] a2.hash(epoch, 0, 0) == b2.hash(epoch, 0, 0) by {
        if differ(a, b, epoch, 0, 0) {
            lemma_difference_settles(a, b, a2, b2, epoch, 0, 0);
        } else {
            lemma_agreement_stays(a, b, a2, b2, epoch, 0, 0);
        }
    }
    law_same_hashes_do_not_diverge(a2, b2, left);
}

} // verus!
