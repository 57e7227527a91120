//! What holds of the rows of stores, and of stores that exchange them.

use crate::cell::{
    cell_prefix, in_cell, is_leaf_depth, is_level, is_prefix, law_prefix_rounds_down,
    lemma_prefix_nests,
};
use crate::diff::{common_leaf, divergent, has_leaf, lists_divergence, DivergentLeaf};
use crate::digest::item_hash;
use crate::key::{key_epoch, key_morton, law_leaf_range_is_cell, lex_le};
use crate::laws::{cell_fold, law_insert_keeps_form, lemma_count_at, Item};
use crate::laws_converge::law_exchange_converges;
use crate::merge::{ingested, prevails, refolded, settled, Rows};
use crate::model::{lemma_xor, ForestView};
use vstd::arithmetic::power2::pow2;
use vstd::prelude::*;

verus! {

/// Whether a key belongs to `epoch` and lies in the cell `(depth, prefix)`.
pub open spec fn key_in_cell(key: Seq<u8>, epoch: u32, depth: nat, prefix: u64) -> bool {
    key_epoch(key) == epoch && in_cell(key_morton(key), depth, prefix)
}

/// Whether no two items have the same key.
pub open spec fn keys_differ(items: Seq<Item>) -> bool {
    forall|i: int, j: int|
        0 <= i < items.len() && 0 <= j < items.len() && i != j ==> (#[trigger] items[i]).0 != (
        #[trigger] items[j]).0
}

/// Whether `items` lists what a store holds.
pub open spec fn lists_rows(items: Seq<Item>, rows: Rows) -> bool {
    &&& keys_differ(items)
    &&& forall|i: int|
        0 <= i < items.len() ==> rows.contains_key((#[trigger] items[i]).0) && rows[items[i].0]
            == items[i].1
    &&& forall|key: Seq<u8>| #[trigger]
        rows.contains_key(key) ==> has_key(items, key)
}

/// Whether one of `items` has a key.
pub open spec fn has_key(items: Seq<Item>, key: Seq<u8>) -> bool {
    exists|i: int| 0 <= i < items.len() && (#[trigger] items[i]).0 == key
}

/// Whether every hash of a forest is the fold of the items in its cell.
pub open spec fn folds(forest: ForestView, items: Seq<Item>) -> bool {
    forall|epoch: u32, depth: nat, prefix: u64|
        is_level(depth, forest.leaf) ==> #[trigger] forest.hash(epoch, depth, prefix) == cell_fold(
            items,
            epoch,
            depth,
            prefix,
        )
}

/// Whether a forest is that of what a store holds.
pub open spec fn represents(forest: ForestView, rows: Rows) -> bool {
    &&& forest.wf()
    &&& exists|items: Seq<Item>| #[trigger] lists_rows(items, rows) && folds(forest, items)
    &&& forall|key: Seq<u8>| #[trigger]
        rows.contains_key(key) ==> forest.trees.contains_key(key_epoch(key))
}

/// Taking one item away takes its digest out of the fold.
proof fn lemma_fold_without(items: Seq<Item>, k: int, epoch: u32, depth: nat, prefix: u64)
    requires
        0 <= k < items.len(),
    ensures
        cell_fold(items, epoch, depth, prefix) == (if key_in_cell(
            items[k].0,
            epoch,
            depth,
            prefix,
        ) {
            cell_fold(items.remove(k), epoch, depth, prefix) ^ item_hash(items[k].0, items[k].1)
        } else {
            cell_fold(items.remove(k), epoch, depth, prefix)
        }),
    decreases items.len(),
{
    let n = items.len() - 1;
    if k == n {
        assert(items.remove(k) =~= items.drop_last());
    } else {
        let rest = items.drop_last();
        lemma_fold_without(rest, k, epoch, depth, prefix);
        assert(items.remove(k).drop_last() =~= rest.remove(k));
        assert(items.remove(k).last() == items.last());
        let own = item_hash(items[k].0, items[k].1);
        let last = item_hash(items.last().0, items.last().1);
        lemma_xor(cell_fold(rest.remove(k), epoch, depth, prefix), own, last);
    }
}

/// Items none of which lies in a cell fold to 0 there.
proof fn lemma_fold_of_none(items: Seq<Item>, epoch: u32, depth: nat, prefix: u64)
    requires
        forall|i: int|
            0 <= i < items.len() ==> !key_in_cell((#[trigger] items[i]).0, epoch, depth, prefix),
    ensures
        cell_fold(items, epoch, depth, prefix) == 0,
    decreases items.len(),
{
    if items.len() > 0 {
        let rest = items.drop_last();
        assert forall|i: int| 0 <= i < rest.len() implies !key_in_cell(
            (#[trigger] rest[i]).0,
            epoch,
            depth,
            prefix,
        ) by {
            assert(rest[i] == items[i]);
        }
        lemma_fold_of_none(rest, epoch, depth, prefix);
        assert(!key_in_cell(items[items.len() - 1].0, epoch, depth, prefix));
    }
}

/// Whether one of `items` has a key, with a payload of the given digest.
spec fn has_digest(items: Seq<Item>, key: Seq<u8>, digest: u128) -> bool {
    exists|i: int|
        0 <= i < items.len() && (#[trigger] items[i]).0 == key && item_hash(key, items[i].1)
            == digest
}

/// Whether every one of `xs` in a cell is among `ys`, by key and digest.
spec fn digests_within(xs: Seq<Item>, ys: Seq<Item>, epoch: u32, depth: nat, prefix: u64) -> bool {
    forall|i: int|
        0 <= i < xs.len() && key_in_cell((#[trigger] xs[i]).0, epoch, depth, prefix)
            ==> has_digest(ys, xs[i].0, item_hash(xs[i].0, xs[i].1))
}

/// Items with the same keys and digests in a cell fold to the same hash there.
proof fn lemma_fold_cong(xs: Seq<Item>, ys: Seq<Item>, epoch: u32, depth: nat, prefix: u64)
    requires
        keys_differ(xs),
        keys_differ(ys),
        digests_within(xs, ys, epoch, depth, prefix),
        digests_within(ys, xs, epoch, depth, prefix),
    ensures
        cell_fold(xs, epoch, depth, prefix) == cell_fold(ys, epoch, depth, prefix),
    decreases xs.len(),
{
    if xs.len() == 0 {
        assert forall|i: int| 0 <= i < ys.len() implies !key_in_cell(
            (#[trigger] ys[i]).0,
            epoch,
            depth,
            prefix,
        ) by {
            if key_in_cell(ys[i].0, epoch, depth, prefix) {
                assert(has_digest(xs, ys[i].0, item_hash(ys[i].0, ys[i].1)));
            }
        }
        lemma_fold_of_none(ys, epoch, depth, prefix);
    } else {
        let n = xs.len() - 1;
        let rest = xs.drop_last();
        let last = xs[n];
        assert forall|i: int| 0 <= i < n implies #[trigger] rest[i] == xs[i] by {}
        assert(keys_differ(rest));
        if !key_in_cell(last.0, epoch, depth, prefix) {
            assert forall|i: int|
                0 <= i < rest.len() && key_in_cell((#[trigger] rest[i]).0, epoch, depth, prefix) implies has_digest(
                ys,
                rest[i].0,
                item_hash(rest[i].0, rest[i].1),
            ) by {
                assert(rest[i] == xs[i]);
            }
            assert forall|i: int|
                0 <= i < ys.len() && key_in_cell((#[trigger] ys[i]).0, epoch, depth, prefix) implies has_digest(
                rest,
                ys[i].0,
                item_hash(ys[i].0, ys[i].1),
            ) by {
                let digest = item_hash(ys[i].0, ys[i].1);
                assert(has_digest(xs, ys[i].0, digest));
                let j = choose|j: int|
                    0 <= j < xs.len() && (#[trigger] xs[j]).0 == ys[i].0 && item_hash(
                        ys[i].0,
                        xs[j].1,
                    ) == digest;
                assert(j != n);
                assert(rest[j] == xs[j]);
            }
            lemma_fold_cong(rest, ys, epoch, depth, prefix);
        } else {
            let digest = item_hash(last.0, last.1);
            assert(has_digest(ys, xs[n].0, item_hash(xs[n].0, xs[n].1)));
            let k = choose|k: int|
                0 <= k < ys.len() && (#[trigger] ys[k]).0 == last.0 && item_hash(last.0, ys[k].1)
                    == digest;
            let others = ys.remove(k);
            assert forall|i: int| 0 <= i < others.len() implies #[trigger] others[i] == ys[if i < k {
                i
            } else {
                i + 1
            }] by {}
            assert(keys_differ(others));
            assert forall|i: int|
                0 <= i < rest.len() && key_in_cell((#[trigger] rest[i]).0, epoch, depth, prefix) implies has_digest(
                others,
                rest[i].0,
                item_hash(rest[i].0, rest[i].1),
            ) by {
                assert(rest[i] == xs[i]);
                let own = item_hash(xs[i].0, xs[i].1);
                assert(has_digest(ys, xs[i].0, own));
                let j = choose|j: int|
                    0 <= j < ys.len() && (#[trigger] ys[j]).0 == xs[i].0 && item_hash(
                        xs[i].0,
                        ys[j].1,
                    ) == own;
                assert(xs[i].0 != xs[n].0);
                assert(j != k);
                let at = if j < k {
                    j
                } else {
                    j - 1
                };
                assert(others[at] == ys[j]);
            }
            assert forall|i: int|
                0 <= i < others.len() && key_in_cell((#[trigger] others[i]).0, epoch, depth, prefix) implies has_digest(
                rest,
                others[i].0,
                item_hash(others[i].0, others[i].1),
            ) by {
                let at = if i < k {
                    i
                } else {
                    i + 1
                };
                assert(others[i] == ys[at]);
                let own = item_hash(ys[at].0, ys[at].1);
                assert(has_digest(xs, ys[at].0, own));
                let j = choose|j: int|
                    0 <= j < xs.len() && (#[trigger] xs[j]).0 == ys[at].0 && item_hash(
                        ys[at].0,
                        xs[j].1,
                    ) == own;
                assert(ys[at].0 != ys[k].0);
                assert(j != n);
                assert(rest[j] == xs[j]);
            }
            lemma_fold_cong(rest, others, epoch, depth, prefix);
            lemma_fold_without(ys, k, epoch, depth, prefix);
        }
    }
}

/// Whether two stores hold the same keys in a cell, with payloads of the same
/// digests.
pub open spec fn same_in_cell(a: Rows, b: Rows, epoch: u32, depth: nat, prefix: u64) -> bool {
    forall|key: Seq<u8>|
        #![trigger a.contains_key(key)]
        #![trigger b.contains_key(key)]
        key_in_cell(key, epoch, depth, prefix) ==> {
            &&& a.contains_key(key) <==> b.contains_key(key)
            &&& a.contains_key(key) ==> item_hash(key, a[key]) == item_hash(key, b[key])
        }
}

/// Listed rows that are the same in a cell are so by key and digest.
proof fn lemma_digests_within(
    xs: Seq<Item>,
    a: Rows,
    ys: Seq<Item>,
    b: Rows,
    epoch: u32,
    depth: nat,
    prefix: u64,
)
    requires
        lists_rows(xs, a),
        lists_rows(ys, b),
        same_in_cell(a, b, epoch, depth, prefix),
    ensures
        digests_within(xs, ys, epoch, depth, prefix),
{
    assert forall|i: int|
        0 <= i < xs.len() && key_in_cell((#[trigger] xs[i]).0, epoch, depth, prefix) implies has_digest(
        ys,
        xs[i].0,
        item_hash(xs[i].0, xs[i].1),
    ) by {
        let key = xs[i].0;
        assert(a.contains_key(key));
        assert(b.contains_key(key));
        assert(has_key(ys, key));
        let j = choose|j: int| 0 <= j < ys.len() && (#[trigger] ys[j]).0 == key;
        assert(b[key] == ys[j].1);
    }
}

/// A forest depends on nothing but what the store holds, and not on the depth
/// of its leaves: where two stores hold the same rows in a cell that both
/// forests have, the hashes of that cell are the same.
pub proof fn law_same_rows_same_hash(
    f: ForestView,
    a: Rows,
    g: ForestView,
    b: Rows,
    epoch: u32,
    depth: nat,
    prefix: u64,
)
    requires
        represents(f, a),
        represents(g, b),
        is_level(depth, f.leaf),
        is_level(depth, g.leaf),
        same_in_cell(a, b, epoch, depth, prefix),
    ensures
        f.hash(epoch, depth, prefix) == g.hash(epoch, depth, prefix),
{
    let xs = choose|items: Seq<Item>| #[trigger] lists_rows(items, a) && folds(f, items);
    let ys = choose|items: Seq<Item>| #[trigger] lists_rows(items, b) && folds(g, items);
    lemma_digests_within(xs, a, ys, b, epoch, depth, prefix);
    lemma_digests_within(ys, b, xs, a, epoch, depth, prefix);
    lemma_fold_cong(xs, ys, epoch, depth, prefix);
    assert(f.hash(epoch, depth, prefix) == cell_fold(xs, epoch, depth, prefix));
    assert(g.hash(epoch, depth, prefix) == cell_fold(ys, epoch, depth, prefix));
}

/// A cell in which a store holds nothing hashes to 0: missing and empty
/// compare equal.
pub proof fn law_empty_cell_hashes_to_zero(
    forest: ForestView,
    rows: Rows,
    epoch: u32,
    depth: nat,
    prefix: u64,
)
    requires
        represents(forest, rows),
        is_level(depth, forest.leaf),
        forall|key: Seq<u8>| #[trigger]
            rows.contains_key(key) ==> !key_in_cell(key, epoch, depth, prefix),
    ensures
        forest.hash(epoch, depth, prefix) == 0,
{
    let items = choose|items: Seq<Item>| #[trigger] lists_rows(items, rows) && folds(forest, items);
    lemma_fold_of_none(items, epoch, depth, prefix);
    assert(forest.hash(epoch, depth, prefix) == cell_fold(items, epoch, depth, prefix));
}

/// A forest that has seen no epoch is that of a store that holds nothing.
pub proof fn law_empty_forest_represents_no_rows(leaf: nat)
    requires
        is_leaf_depth(leaf),
    ensures
        represents(ForestView::empty(leaf), Map::empty()),
{
    let none = Seq::<Item>::empty();
    assert(lists_rows(none, Map::empty()));
    assert(folds(ForestView::empty(leaf), none));
}

/// Taking a row in keeps the forest that of what the store holds.
pub proof fn law_ingest_keeps_the_forest_true(
    forest: ForestView,
    rows: Rows,
    key: Seq<u8>,
    payload: Seq<u8>,
)
    requires
        represents(forest, rows),
    ensures
        ({
            let held = if rows.contains_key(key) {
                Some(rows[key])
            } else {
                None
            };
            represents(refolded(forest, key, held, payload), ingested(rows, key, payload))
        }),
{
    let (epoch, morton) = (key_epoch(key), key_morton(key));
    let digest = item_hash(key, payload);
    let items = choose|items: Seq<Item>| #[trigger] lists_rows(items, rows) && folds(forest, items);
    let after = ingested(rows, key, payload);
    if !rows.contains_key(key) {
        let more = items.push((key, payload));
        let next = forest.inserted(epoch, morton, digest);
        law_insert_keeps_form(forest, epoch, morton, digest);
        assert(more.drop_last() =~= items);
        assert(folds(next, more)) by {
            assert forall|e: u32, d: nat, p: u64| is_level(d, next.leaf) implies #[trigger] next.hash(
                e,
                d,
                p,
            ) == cell_fold(more, e, d, p) by {
                assert(forest.hash(e, d, p) == cell_fold(items, e, d, p));
            }
        }
        assert(lists_rows(more, after)) by {
            assert forall|i: int| 0 <= i < items.len() implies #[trigger] more[i] == items[i] by {}
            assert(more[items.len() as int] == (key, payload));
            assert forall|k: Seq<u8>| #[trigger] after.contains_key(k) implies has_key(more, k) by {
                if k == key {
                    assert(more[items.len() as int].0 == k);
                } else {
                    assert(has_key(items, k));
                    let i = choose|i: int| 0 <= i < items.len() && (#[trigger] items[i]).0 == k;
                    assert(more[i].0 == k);
                }
            }
        }
    } else if prevails(key, payload, rows[key]) {
        assert(has_key(items, key));
        let k = choose|k: int| 0 <= k < items.len() && (#[trigger] items[k]).0 == key;
        let old_digest = item_hash(key, rows[key]);
        let less = items.remove(k);
        let more = less.push((key, payload));
        let between = forest.removed(epoch, morton, old_digest);
        let next = between.inserted(epoch, morton, digest);
        law_insert_keeps_form(forest, epoch, morton, old_digest);
        law_insert_keeps_form(between, epoch, morton, digest);
        assert(more.drop_last() =~= less);
        assert(forest.trees.contains_key(epoch));
        assert(folds(next, more)) by {
            assert forall|e: u32, d: nat, p: u64| is_level(d, next.leaf) implies #[trigger] next.hash(
                e,
                d,
                p,
            ) == cell_fold(more, e, d, p) by {
                assert(forest.hash(e, d, p) == cell_fold(items, e, d, p));
                lemma_fold_without(items, k, e, d, p);
                lemma_xor(cell_fold(less, e, d, p), old_digest, old_digest);
            }
        }
        assert forall|i: int| 0 <= i < less.len() implies #[trigger] less[i] == items[if i < k {
            i
        } else {
            i + 1
        }] by {}
        assert(lists_rows(more, after)) by {
            assert forall|i: int| 0 <= i < less.len() implies #[trigger] more[i] == less[i] by {}
            assert(more[less.len() as int] == (key, payload));
            assert forall|i: int| 0 <= i < less.len() implies (#[trigger] less[i]).0 != key by {
                assert(items[k].0 == key);
            }
            assert forall|x: Seq<u8>| #[trigger] after.contains_key(x) implies has_key(more, x) by {
                if x == key {
                    assert(more[less.len() as int].0 == x);
                } else {
                    assert(has_key(items, x));
                    let i = choose|i: int| 0 <= i < items.len() && (#[trigger] items[i]).0 == x;
                    let at = if i < k {
                        i
                    } else {
                        i - 1
                    };
                    assert(less[at] == items[i]);
                    assert(more[at].0 == x);
                }
            }
        }
    } else {
        assert(after =~= rows);
    }
}

/// A row that a store has already taken in changes nothing when it comes again.
pub proof fn law_ingest_is_idempotent(rows: Rows, key: Seq<u8>, payload: Seq<u8>)
    ensures
        ingested(ingested(rows, key, payload), key, payload) == ingested(rows, key, payload),
{
    assert(ingested(ingested(rows, key, payload), key, payload) =~= ingested(rows, key, payload));
}

/// Rows can come in either order, as long as payloads in conflict have
/// different digests.
pub proof fn law_ingests_commute(rows: Rows, k: Seq<u8>, p: Seq<u8>, l: Seq<u8>, q: Seq<u8>)
    requires
        k == l && item_hash(k, p) == item_hash(k, q) ==> p == q,
    ensures
        ingested(ingested(rows, k, p), l, q) == ingested(ingested(rows, l, q), k, p),
{
    assert(ingested(ingested(rows, k, p), l, q) =~= ingested(ingested(rows, l, q), k, p));
}

/// What a store holds once it has taken in those rows of a peer whose keys
/// `asked` covers.
pub open spec fn pulled(mine: Rows, theirs: Rows, asked: spec_fn(Seq<u8>) -> bool) -> Rows {
    Map::new(
        |key: Seq<u8>| mine.contains_key(key) || (theirs.contains_key(key) && asked(key)),
        |key: Seq<u8>|
            if theirs.contains_key(key) && asked(key) {
                if mine.contains_key(key) {
                    settled(key, mine[key], theirs[key])
                } else {
                    theirs[key]
                }
            } else {
                mine[key]
            },
    )
}

/// An exchange comes to the same whether a store merges the peer's rows as
/// they were, or as they are once the peer has merged this store's.
pub proof fn law_exchange_order_does_not_matter(a: Rows, b: Rows, asked: spec_fn(Seq<u8>) -> bool)
    ensures
        pulled(a, pulled(b, a, asked), asked) == pulled(a, b, asked),
{
    assert(pulled(a, pulled(b, a, asked), asked) =~= pulled(a, b, asked));
}

/// Whether every key is 20 bytes long.
pub open spec fn keys_fit(rows: Rows) -> bool {
    forall|key: Seq<u8>| #[trigger] rows.contains_key(key) ==> key.len() == 20
}

/// Whether a key lies in the range of one of `leaves`.
pub open spec fn in_ranges(leaves: Seq<DivergentLeaf>, key: Seq<u8>) -> bool {
    exists|i: int|
        0 <= i < leaves.len() && lex_le((#[trigger] leaves[i]).start_key@, key) && lex_le(
            key,
            leaves[i].end_key@,
        )
}

/// The ranges of the divergent leaves hold the keys of the divergent cells,
/// and no others.
proof fn lemma_ranges(f: ForestView, g: ForestView, leaves: Seq<DivergentLeaf>, key: Seq<u8>)
    requires
        f.wf(),
        g.wf(),
        lists_divergence(f, g, leaves),
        key.len() == 20,
    ensures
        in_ranges(leaves, key) <==> divergent(
            f,
            g,
            key_epoch(key),
            common_leaf(f, g),
            cell_prefix(key_morton(key), common_leaf(f, g)),
        ),
{
    let leaf = common_leaf(f, g);
    let epoch = key_epoch(key);
    let home = cell_prefix(key_morton(key), leaf);
    lemma_prefix_nests(key_morton(key), leaf, leaf);
    if in_ranges(leaves, key) {
        let i = choose|i: int|
            0 <= i < leaves.len() && lex_le((#[trigger] leaves[i]).start_key@, key) && lex_le(
                key,
                leaves[i].end_key@,
            );
        assert(divergent(f, g, leaves[i].epoch, leaf, leaves[i].prefix));
        law_leaf_range_is_cell(key, leaves[i].epoch, leaves[i].prefix, leaf);
    }
    if divergent(f, g, epoch, leaf, home) {
        assert(has_leaf(leaves, 0, epoch, home));
        let i = choose|i: int|
            0 <= i < leaves.len() && (#[trigger] leaves[i]).epoch == epoch && leaves[i].prefix
                == home;
        law_leaf_range_is_cell(key, epoch, home, leaf);
    }
}

/// Two stores that exchange the rows in the key ranges of their divergent
/// leaves converge: after one round both ways, every epoch's roots agree, and
/// no divergent leaf is left. A key with different payloads on the two sides
/// is no exception.
pub proof fn law_exchanged_rows_converge(
    f: ForestView,
    a: Rows,
    g: ForestView,
    b: Rows,
    leaves: Seq<DivergentLeaf>,
    f2: ForestView,
    g2: ForestView,
    left: Seq<DivergentLeaf>,
)
    requires
        represents(f, a),
        represents(g, b),
        keys_fit(a),
        keys_fit(b),
        lists_divergence(f, g, leaves),
        f2.leaf == f.leaf,
        g2.leaf == g.leaf,
        represents(f2, pulled(a, b, |key: Seq<u8>| in_ranges(leaves, key))),
        represents(g2, pulled(b, a, |key: Seq<u8>| in_ranges(leaves, key))),
        lists_divergence(f2, g2, left),
    ensures
        forall|epoch: u32| #[trigger] f2.hash(epoch, 0, 0) == g2.hash(epoch, 0, 0),
        left.len() == 0,
{
    let leaf = common_leaf(f, g);
    let asked = |key: Seq<u8>| in_ranges(leaves, key);
    let a2 = pulled(a, b, asked);
    let b2 = pulled(b, a, asked);
    assert forall|epoch: u32, prefix: u64| is_prefix(prefix, leaf) implies if divergent(
        f,
        g,
        epoch,
        leaf,
        prefix,
    ) {
        #[trigger] f2.hash(epoch, leaf, prefix) == g2.hash(epoch, leaf, prefix)
    } else {
        &&& f2.hash(epoch, leaf, prefix) == f.hash(epoch, leaf, prefix)
        &&& g2.hash(epoch, leaf, prefix) == g.hash(epoch, leaf, prefix)
    } by {
        assert forall|key: Seq<u8>|
            key_in_cell(key, epoch, leaf, prefix) && (a.contains_key(key) || b.contains_key(key)) implies #[trigger] asked(
            key,
        ) == divergent(f, g, epoch, leaf, prefix) by {
            lemma_ranges(f, g, leaves, key);
        }
        if divergent(f, g, epoch, leaf, prefix) {
            assert(same_in_cell(a2, b2, epoch, leaf, prefix));
            law_same_rows_same_hash(f2, a2, g2, b2, epoch, leaf, prefix);
        } else {
            assert(same_in_cell(a2, a, epoch, leaf, prefix));
            assert(same_in_cell(b2, b, epoch, leaf, prefix));
            law_same_rows_same_hash(f2, a2, f, a, epoch, leaf, prefix);
            law_same_rows_same_hash(g2, b2, g, b, epoch, leaf, prefix);
        }
    }
    law_exchange_converges(f, g, f2, g2, left);
}

/// What a store holds once it has taken a row in: under the row's key, a payload
/// of the larger digest of the two, or the one held where they are the same;
/// under every other key, what it held.
pub proof fn law_effect_of_ingest(rows: Rows, key: Seq<u8>, payload: Seq<u8>, k: Seq<u8>)
    ensures
        ({
            let after = ingested(rows, key, payload);
            &&& after.contains_key(k) <==> (k == key || rows.contains_key(k))
            &&& k != key && rows.contains_key(k) ==> after[k] == rows[k]
            &&& !rows.contains_key(key) ==> after[key] == payload
            &&& rows.contains_key(key) && item_hash(key, payload) > item_hash(key, rows[key])
                ==> after[key] == payload
            &&& rows.contains_key(key) && item_hash(key, payload) <= item_hash(key, rows[key])
                ==> after[key] == rows[key]
        }),
{
}

/// What taking a row in does to the forest, where `held` is the payload that the
/// store held under its key: a new row's digest is folded into the cells that
/// hold its key; a payload that wins has its digest folded in and the other's
/// out; one that does not changes nothing. Every other cell and every other
/// epoch stay as they were.
pub proof fn law_effect_of_ingest_on_the_forest(
    forest: ForestView,
    key: Seq<u8>,
    held: Option<Seq<u8>>,
    payload: Seq<u8>,
    e: u32,
    depth: nat,
    prefix: u64,
)
    requires
        forest.leaf <= 63,
        depth <= forest.leaf,
        depth % 3 == 0,
        held is Some ==> forest.trees.contains_key(key_epoch(key)),
    ensures
        ({
            let after = refolded(forest, key, held, payload);
            let code = key_morton(key) as int;
            let there = e == key_epoch(key) && (depth == 0 || prefix == code - code % pow2(
                (64 - depth) as nat,
            ) as int);
            let digest = item_hash(key, payload);
            &&& after.leaf == forest.leaf
            &&& !there ==> after.hash(e, depth, prefix) == forest.hash(e, depth, prefix)
            &&& there && held is None ==> after.hash(e, depth, prefix) == forest.hash(
                e,
                depth,
                prefix,
            ) ^ digest
            &&& there && held is Some && digest > item_hash(key, held->0)
                ==> after.hash(e, depth, prefix) == (forest.hash(e, depth, prefix) ^ item_hash(
                key,
                held->0,
            )) ^ digest
            &&& held is Some && digest <= item_hash(key, held->0)
                ==> after == forest
        }),
{
    law_prefix_rounds_down(key_morton(key), depth);
}

/// What taking a row in does to the counts: a new key raises its epoch's count,
/// and the forest's, by one; a row under a key that is held, and counted,
/// leaves every count as it is, whether it wins or not.
pub proof fn law_ingest_counts(
    forest: ForestView,
    key: Seq<u8>,
    held: Option<Seq<u8>>,
    payload: Seq<u8>,
    e: u32,
)
    requires
        held is Some ==> forest.tree(key_epoch(key)).count > 0,
    ensures
        ({
            let after = refolded(forest, key, held, payload);
            let more = if held is None {
                1int
            } else {
                0int
            };
            &&& after.count() == forest.count() + more
            &&& after.tree(key_epoch(key)).count == forest.tree(key_epoch(key)).count + more
            &&& e != key_epoch(key) ==> after.tree(e).count == forest.tree(e).count
        }),
{
    let after = refolded(forest, key, held, payload);
    lemma_count_at(after, forest, key_epoch(key), 0x1_0000_0000);
}

/// Taking a row in keeps the forest's counts those of the store: what it counts
/// for each epoch is the number of keys of that epoch that the store holds,
/// before and after.
pub proof fn law_ingest_keeps_the_counts_true(
    forest: ForestView,
    rows: Rows,
    key: Seq<u8>,
    payload: Seq<u8>,
)
    requires
        rows.dom().finite(),
        forall|e: u32| #[trigger]
            forest.tree(e).count == rows.dom().filter(|k: Seq<u8>| key_epoch(k) == e).len(),
    ensures
        ({
            let held = if rows.contains_key(key) {
                Some(rows[key])
            } else {
                None
            };
            let after = refolded(forest, key, held, payload);
            let rows_after = ingested(rows, key, payload);
            &&& rows_after.dom().finite()
            &&& forall|e: u32| #[trigger]
                after.tree(e).count == rows_after.dom().filter(
                    |k: Seq<u8>| key_epoch(k) == e,
                ).len()
        }),
{
    let held = if rows.contains_key(key) {
        Some(rows[key])
    } else {
        None
    };
    let epoch = key_epoch(key);
    let after = refolded(forest, key, held, payload);
    let rows_after = ingested(rows, key, payload);
    let own = rows.dom().filter(|k: Seq<u8>| key_epoch(k) == epoch);
    assert(rows_after.dom() =~= rows.dom().insert(key));
    assert(forest.tree(epoch).count == own.len());
    rows.dom().lemma_len_filter(|k: Seq<u8>| key_epoch(k) == epoch);
    if rows.contains_key(key) {
        assert(own.contains(key));
        if own.len() == 0 {
            assert(own =~= Set::empty());
        }
    }
    assert forall|e: u32| #[trigger] after.tree(e).count == rows_after.dom().filter(
        |k: Seq<u8>| key_epoch(k) == e,
    ).len() by {
        law_ingest_counts(forest, key, held, payload, e);
        let before_keys = rows.dom().filter(|k: Seq<u8>| key_epoch(k) == e);
        let after_keys = rows_after.dom().filter(|k: Seq<u8>| key_epoch(k) == e);
        assert(forest.tree(e).count == before_keys.len());
        rows.dom().lemma_len_filter(|k: Seq<u8>| key_epoch(k) == e);
        if e == epoch {
            assert(after_keys =~= before_keys.insert(key));
            if rows.contains_key(key) {
                assert(after_keys =~= before_keys);
            }
        } else {
            assert(after_keys =~= before_keys);
        }
    }
}

} // verus!
