//! What holds of stores that pull from each other.

use crate::cell::{
    cell_prefix, child_prefix, is_level, is_prefix, last_code, lemma_child_prefix,
    lemma_in_child, lemma_prefix_nests,
};
use crate::diff::{lists_divergence, DivergentLeaf};
use crate::digest::item_hash;
use crate::key::{key_bytes, key_epoch, key_morton, law_leaf_range_is_cell, lex_le};
use crate::laws::{lemma_tree_wf, Item};
use crate::laws_diff::law_same_hashes_do_not_diverge;
use crate::laws_merge::{
    has_key, key_in_cell, keys_differ, law_empty_cell_hashes_to_zero, law_same_rows_same_hash,
    pulled, represents, same_in_cell,
};
use crate::laws_round::{
    law_finished_round_fetched_what_differs, on_course, wanted_of, wanted_path,
};
use crate::merge::{applies, ingested, refolded, settled, Rows};
use crate::model::{lemma_children_fold_cong, lemma_children_fold_zero, ForestView};
use crate::round::{is_goal, WorkItem};
use vstd::prelude::*;

verus! {

/// Whether every row of the peer's that would change this store shows in the
/// hashes, down to depth `goal`: each cell around it is worth looking into.
/// Only digests that cancel each other out, or different rows that fold to the
/// same hash, can make this false.
pub open spec fn rows_show(
    local: ForestView,
    mine: Rows,
    remote: ForestView,
    theirs: Rows,
    goal: nat,
) -> bool {
    forall|key: Seq<u8>, depth: nat|
        #![trigger theirs.contains_key(key), is_level(depth, goal)]
        theirs.contains_key(key) && is_level(depth, goal) && applies(mine, key, theirs[key])
            ==> wanted_of(
            local,
            remote,
            key_epoch(key),
            depth,
            cell_prefix(key_morton(key), depth),
        )
}

/// The keys that a pull round asks for: those of the leaves worth fetching.
pub open spec fn pull_asks(local: ForestView, remote: ForestView, goal: nat) -> spec_fn(Seq<u8>) -> bool {
    |key: Seq<u8>|
        wanted_path(
            local,
            remote,
            key_epoch(key),
            goal,
            cell_prefix(key_morton(key), goal),
        )
}

/// What two stores hold between them.
pub open spec fn union(mine: Rows, theirs: Rows) -> Rows {
    pulled(mine, theirs, |key: Seq<u8>| true)
}

/// A pull round takes in everything that the peer has and this store lacks,
/// just when all of it shows in the hashes.
pub proof fn law_pull_takes_in_everything(
    local: ForestView,
    mine: Rows,
    remote: ForestView,
    theirs: Rows,
    goal: nat,
)
    requires
        goal <= 63,
    ensures
        pulled(mine, theirs, pull_asks(local, remote, goal)) == union(mine, theirs) <==> rows_show(
            local,
            mine,
            remote,
            theirs,
            goal,
        ),
{
    let asked = pull_asks(local, remote, goal);
    if rows_show(local, mine, remote, theirs, goal) {
        assert forall|key: Seq<u8>| #[trigger] theirs.contains_key(key) && !asked(key) implies !applies(
            mine,
            key,
            theirs[key],
        ) by {
            let d = lemma_unasked_key(local, remote, goal, key);
            assert(is_level(d, goal));
        }
        assert(pulled(mine, theirs, asked) =~= union(mine, theirs));
    }
    if pulled(mine, theirs, asked) == union(mine, theirs) {
        assert forall|key: Seq<u8>, depth: nat|
            #![trigger theirs.contains_key(key), is_level(depth, goal)]
            theirs.contains_key(key) && is_level(depth, goal) && applies(mine, key, theirs[key]) implies wanted_of(
            local,
            remote,
            key_epoch(key),
            depth,
            cell_prefix(key_morton(key), depth),
        ) by {
            let one = pulled(mine, theirs, asked);
            let all = union(mine, theirs);
            assert(all.contains_key(key) && all[key] == theirs[key]);
            if !asked(key) {
                assert(one.contains_key(key) <==> mine.contains_key(key));
                assert(mine.contains_key(key) ==> one[key] == mine[key]);
            }
            lemma_asked_path(local, remote, goal, key, depth);
        }
    }
}

/// The rows that a finished round has fetched are those that it was to ask
/// for: a key lies in the range of a fetched leaf just when its leaf is worth
/// fetching.
pub proof fn law_round_fetches_what_a_pull_asks_for(
    local: ForestView,
    remote: ForestView,
    goal: nat,
    fetched: Seq<WorkItem>,
    key: Seq<u8>,
)
    requires
        is_goal(goal),
        on_course(local, remote, goal, Seq::empty(), fetched),
        key.len() == 20,
    ensures
        pull_asks(local, remote, goal)(key) <==> exists|i: int|
            0 <= i < fetched.len() && lex_le(
                key_bytes((#[trigger] fetched[i]).epoch, fetched[i].prefix, 0),
                key,
            ) && lex_le(
                key,
                key_bytes(fetched[i].epoch, last_code(fetched[i].prefix, goal), u64::MAX),
            ),
{
    let epoch = key_epoch(key);
    let home = cell_prefix(key_morton(key), goal);
    lemma_prefix_nests(key_morton(key), goal, goal);
    law_finished_round_fetched_what_differs(local, remote, goal, fetched);
    if wanted_path(local, remote, epoch, goal, home) {
        let item = WorkItem { epoch, depth_bits: goal as usize, prefix: home };
        assert(fetched.contains(item));
        let i = choose|i: int| 0 <= i < fetched.len() && fetched[i] == item;
        assert(fetched[i].prefix == home);
        law_leaf_range_is_cell(key, epoch, home, goal);
    }
    if exists|i: int|
        0 <= i < fetched.len() && lex_le(
            key_bytes((#[trigger] fetched[i]).epoch, fetched[i].prefix, 0),
            key,
        ) && lex_le(
            key,
            key_bytes(fetched[i].epoch, last_code(fetched[i].prefix, goal), u64::MAX),
        ) {
        let i = choose|i: int|
            0 <= i < fetched.len() && lex_le(
                key_bytes((#[trigger] fetched[i]).epoch, fetched[i].prefix, 0),
                key,
            ) && lex_le(
                key,
                key_bytes(fetched[i].epoch, last_code(fetched[i].prefix, goal), u64::MAX),
            );
        law_leaf_range_is_cell(key, fetched[i].epoch, fetched[i].prefix, goal);
    }
}

/// What a store holds once it has taken in rows one after another.
pub open spec fn ingested_all(rows: Rows, items: Seq<Item>) -> Rows
    decreases items.len(),
{
    if items.len() == 0 {
        rows
    } else {
        ingested(ingested_all(rows, items.drop_last()), items.last().0, items.last().1)
    }
}

/// What a store holds under each key once it has taken in rows with different keys.
proof fn lemma_ingested_all(mine: Rows, items: Seq<Item>)
    requires
        keys_differ(items),
    ensures
        forall|key: Seq<u8>| #[trigger]
            ingested_all(mine, items).contains_key(key) <==> mine.contains_key(key) || has_key(
                items,
                key,
            ),
        forall|i: int|
            0 <= i < items.len() ==> ingested_all(mine, items)[(#[trigger] items[i]).0] == (
            if mine.contains_key(items[i].0) {
                settled(items[i].0, mine[items[i].0], items[i].1)
            } else {
                items[i].1
            }),
        forall|key: Seq<u8>|
            !has_key(items, key) ==> #[trigger] ingested_all(mine, items)[key] == mine[key],
    decreases items.len(),
{
    if items.len() > 0 {
        let rest = items.drop_last();
        let n = rest.len() as int;
        assert forall|i: int| 0 <= i < n implies #[trigger] rest[i] == items[i] by {}
        lemma_ingested_all(mine, rest);
        let before = ingested_all(mine, rest);
        let (key, payload) = items[n];
        assert(!has_key(rest, key)) by {
            if has_key(rest, key) {
                let i = choose|i: int| 0 <= i < rest.len() && (#[trigger] rest[i]).0 == key;
                assert(items[i].0 != items[n].0);
            }
        }
        assert forall|k: Seq<u8>| #[trigger] has_key(items, k) <==> has_key(rest, k) || k == key by {
            if has_key(items, k) {
                let i = choose|i: int| 0 <= i < items.len() && (#[trigger] items[i]).0 == k;
                if i < n {
                    assert(rest[i].0 == k);
                }
            }
            if has_key(rest, k) {
                let i = choose|i: int| 0 <= i < rest.len() && (#[trigger] rest[i]).0 == k;
                assert(items[i].0 == k);
            }
            if k == key {
                assert(items[n].0 == k);
            }
        }
        assert(before[key] == mine[key]);
        assert forall|i: int| 0 <= i < items.len() implies ingested_all(mine, items)[(
        #[trigger] items[i]).0] == (if mine.contains_key(items[i].0) {
            settled(items[i].0, mine[items[i].0], items[i].1)
        } else {
            items[i].1
        }) by {
            if i < n {
                assert(rest[i] == items[i]);
                assert(items[i].0 != items[n].0);
            }
        }
    }
}

/// Pulling is taking in each row asked for, in any order.
pub proof fn law_pull_is_ingest_of_each_row(
    mine: Rows,
    theirs: Rows,
    asked: spec_fn(Seq<u8>) -> bool,
    items: Seq<Item>,
)
    requires
        keys_differ(items),
        forall|i: int|
            0 <= i < items.len() ==> theirs.contains_key((#[trigger] items[i]).0)
                && theirs[items[i].0] == items[i].1 && asked(items[i].0),
        forall|key: Seq<u8>| #[trigger]
            theirs.contains_key(key) && asked(key) ==> has_key(items, key),
    ensures
        ingested_all(mine, items) == pulled(mine, theirs, asked),
{
    lemma_ingested_all(mine, items);
    let all = ingested_all(mine, items);
    let one = pulled(mine, theirs, asked);
    assert forall|key: Seq<u8>| #[trigger] has_key(items, key) implies theirs.contains_key(key)
        && asked(key) by {
        let i = choose|i: int| 0 <= i < items.len() && (#[trigger] items[i]).0 == key;
        assert(theirs.contains_key(items[i].0));
    }
    assert forall|key: Seq<u8>| #[trigger] all.contains_key(key) implies all[key] == one[key] by {
        if has_key(items, key) {
            let i = choose|i: int| 0 <= i < items.len() && (#[trigger] items[i]).0 == key;
            assert(theirs[items[i].0] == items[i].1);
        }
    }
    assert(all =~= one);
}

/// A pull leaves alone the rows of a cell that is not worth looking into.
proof fn lemma_unwanted_cell_stays(
    local: ForestView,
    mine: Rows,
    remote: ForestView,
    theirs: Rows,
    goal: nat,
    epoch: u32,
    depth: nat,
    prefix: u64,
)
    requires
        goal <= 63,
        is_level(depth, goal),
        is_prefix(prefix, depth),
        !wanted_of(local, remote, epoch, depth, prefix),
    ensures
        same_in_cell(
            pulled(mine, theirs, pull_asks(local, remote, goal)),
            mine,
            epoch,
            depth,
            prefix,
        ),
{
    let asked = pull_asks(local, remote, goal);
    assert forall|key: Seq<u8>| key_in_cell(key, epoch, depth, prefix) implies !#[trigger] asked(key) by {
        let home = cell_prefix(key_morton(key), goal);
        lemma_prefix_nests(key_morton(key), depth, goal);
        if asked(key) && depth > 0 {
            assert(wanted_of(local, remote, epoch, depth, cell_prefix(home, depth)));
        }
    }
    assert forall|key: Seq<u8>| key_in_cell(key, epoch, depth, prefix) implies (#[trigger] pulled(
        mine,
        theirs,
        asked,
    ).contains_key(key) <==> mine.contains_key(key)) by {
        assert(!asked(key));
    }
}

/// A key that a pull does not ask for lies in a cell not worth looking into.
proof fn lemma_unasked_key(local: ForestView, remote: ForestView, goal: nat, key: Seq<u8>) -> (depth: nat)
    requires
        goal <= 63,
        !pull_asks(local, remote, goal)(key),
    ensures
        is_level(depth, goal),
        !wanted_of(
            local,
            remote,
            key_epoch(key),
            depth,
            cell_prefix(key_morton(key), depth),
        ),
        is_prefix(cell_prefix(key_morton(key), depth), depth),
        key_in_cell(key, key_epoch(key), depth, cell_prefix(key_morton(key), depth)),
{
    let epoch = key_epoch(key);
    let code = key_morton(key);
    let home = cell_prefix(code, goal);
    lemma_prefix_nests(code, goal, goal);
    if wanted_of(local, remote, epoch, 0, 0) {
        let d = choose|d: nat|
            0 < d && is_level(d, goal) && !wanted_of(
                local,
                remote,
                epoch,
                d,
                #[trigger] cell_prefix(home, d),
            );
        lemma_prefix_nests(code, d, goal);
        lemma_prefix_nests(code, d, d);
        d
    } else {
        0
    }
}

/// A key that a second pull asks for, where the peer has not changed, is one
/// that the first pull asked for: a cell whose rows the first pull left alone
/// has kept its hash.
proof fn lemma_second_pull_asks_for_no_more(
    local: ForestView,
    mine: Rows,
    remote: ForestView,
    theirs: Rows,
    local2: ForestView,
    goal: nat,
    key: Seq<u8>,
)
    requires
        goal <= 63,
        is_level(goal, local.leaf),
        local2.leaf == local.leaf,
        represents(local, mine),
        represents(local2, pulled(mine, theirs, pull_asks(local, remote, goal))),
        pull_asks(local2, remote, goal)(key),
    ensures
        pull_asks(local, remote, goal)(key),
{
    if !pull_asks(local, remote, goal)(key) {
        let mine2 = pulled(mine, theirs, pull_asks(local, remote, goal));
        let epoch = key_epoch(key);
        let d = lemma_unasked_key(local, remote, goal, key);
        let q = cell_prefix(key_morton(key), d);
        lemma_unwanted_cell_stays(local, mine, remote, theirs, goal, epoch, d, q);
        law_same_rows_same_hash(local2, mine2, local, mine, epoch, d, q);
        lemma_asked_path(local2, remote, goal, key, d);
    }
}

/// Every cell around a key that a pull asks for is worth looking into.
proof fn lemma_asked_path(local: ForestView, remote: ForestView, goal: nat, key: Seq<u8>, depth: nat)
    requires
        goal <= 63,
        is_level(depth, goal),
        pull_asks(local, remote, goal)(key),
    ensures
        wanted_of(local, remote, key_epoch(key), depth, cell_prefix(key_morton(key), depth)),
{
    let home = cell_prefix(key_morton(key), goal);
    lemma_prefix_nests(key_morton(key), depth, goal);
    if depth > 0 {
        assert(wanted_of(local, remote, key_epoch(key), depth, cell_prefix(home, depth)));
    }
}

/// Whether a pull from a peer changes nothing: no row that it asks for applies.
pub open spec fn idle(
    local: ForestView,
    mine: Rows,
    remote: ForestView,
    theirs: Rows,
    goal: nat,
) -> bool {
    forall|key: Seq<u8>| #[trigger]
        theirs.contains_key(key) && pull_asks(local, remote, goal)(key) ==> !applies(
            mine,
            key,
            theirs[key],
        )
}

/// How many of the rows that a store takes in, one after another, change it.
pub open spec fn applied_count(rows: Rows, items: Seq<Item>) -> nat
    decreases items.len(),
{
    if items.len() == 0 {
        0
    } else {
        let (key, payload) = items.last();
        let before = ingested_all(rows, items.drop_last());
        applied_count(rows, items.drop_last()) + (if applies(before, key, payload) {
            1nat
        } else {
            0nat
        })
    }
}

/// A second pull from a peer that has not changed applies no row, whatever the
/// digests are: each row that it asks for is held, or has lost, already.
pub proof fn law_second_pull_applies_no_row(
    local: ForestView,
    mine: Rows,
    remote: ForestView,
    theirs: Rows,
    local2: ForestView,
    goal: nat,
)
    requires
        goal <= 63,
        is_level(goal, local.leaf),
        local2.leaf == local.leaf,
        represents(local, mine),
        represents(local2, pulled(mine, theirs, pull_asks(local, remote, goal))),
    ensures
        ({
            let mine2 = pulled(mine, theirs, pull_asks(local, remote, goal));
            &&& idle(local2, mine2, remote, theirs, goal)
            &&& pulled(mine2, theirs, pull_asks(local2, remote, goal)) == mine2
        }),
{
    let mine2 = pulled(mine, theirs, pull_asks(local, remote, goal));
    let again = pull_asks(local2, remote, goal);
    assert forall|key: Seq<u8>| #[trigger] theirs.contains_key(key) && again(key) implies !applies(
        mine2,
        key,
        theirs[key],
    ) by {
        lemma_second_pull_asks_for_no_more(local, mine, remote, theirs, local2, goal, key);
    }
    assert(pulled(mine2, theirs, again) =~= mine2);
}

/// An idle pull counts no applied row, and leaves the store's rows and its
/// forest as they are, whatever rows it asks for come, in whatever order and
/// however often.
pub proof fn law_idle_pull_changes_nothing(
    local: ForestView,
    mine: Rows,
    remote: ForestView,
    theirs: Rows,
    goal: nat,
    items: Seq<Item>,
)
    requires
        idle(local, mine, remote, theirs, goal),
        forall|i: int|
            0 <= i < items.len() ==> theirs.contains_key((#[trigger] items[i]).0)
                && theirs[items[i].0] == items[i].1 && pull_asks(local, remote, goal)(items[i].0),
    ensures
        applied_count(mine, items) == 0,
        ingested_all(mine, items) == mine,
        forall|i: int|
            0 <= i < items.len() ==> mine.contains_key((#[trigger] items[i]).0) && refolded(
                local,
                items[i].0,
                Some(mine[items[i].0]),
                items[i].1,
            ) == local,
    decreases items.len(),
{
    if items.len() > 0 {
        let rest = items.drop_last();
        let n = rest.len() as int;
        assert forall|i: int| 0 <= i < n implies #[trigger] rest[i] == items[i] by {}
        law_idle_pull_changes_nothing(local, mine, remote, theirs, goal, rest);
        assert(theirs.contains_key(items[n].0));
        assert(ingested_all(mine, items) =~= mine);
        assert forall|i: int| 0 <= i < items.len() implies mine.contains_key((#[trigger] items[i]).0)
            && refolded(local, items[i].0, Some(mine[items[i].0]), items[i].1) == local by {
            if i < n {
                assert(rest[i] == items[i]);
            }
        }
    }
}

/// Pulling again from a peer that has not changed counts no applied row, and
/// leaves the store's rows and its forest, roots and all, as they are.
pub proof fn law_repeated_pull_changes_nothing(
    local: ForestView,
    mine: Rows,
    remote: ForestView,
    theirs: Rows,
    local2: ForestView,
    goal: nat,
    items: Seq<Item>,
)
    requires
        goal <= 63,
        is_level(goal, local.leaf),
        local2.leaf == local.leaf,
        represents(local, mine),
        represents(local2, pulled(mine, theirs, pull_asks(local, remote, goal))),
        forall|i: int|
            0 <= i < items.len() ==> theirs.contains_key((#[trigger] items[i]).0)
                && theirs[items[i].0] == items[i].1 && pull_asks(local2, remote, goal)(items[i].0),
    ensures
        ({
            let mine2 = pulled(mine, theirs, pull_asks(local, remote, goal));
            &&& applied_count(mine2, items) == 0
            &&& ingested_all(mine2, items) == mine2
            &&& forall|i: int|
                0 <= i < items.len() ==> mine2.contains_key((#[trigger] items[i]).0) && refolded(
                    local2,
                    items[i].0,
                    Some(mine2[items[i].0]),
                    items[i].1,
                ) == local2
        }),
{
    let mine2 = pulled(mine, theirs, pull_asks(local, remote, goal));
    law_second_pull_applies_no_row(local, mine, remote, theirs, local2, goal);
    law_idle_pull_changes_nothing(local2, mine2, remote, theirs, goal, items);
}

/// Whether payloads in conflict have different digests.
pub open spec fn conflicts_settle(a: Rows, b: Rows) -> bool {
    forall|key: Seq<u8>|
        #![trigger a.contains_key(key), b.contains_key(key)]
        a.contains_key(key) && b.contains_key(key) && item_hash(key, a[key]) == item_hash(
            key,
            b[key],
        ) ==> a[key] == b[key]
}

/// Two stores that pull from each other, one after the other, then hold the
/// same rows: all those of either.
pub proof fn law_mutual_pulls_converge(
    local: ForestView,
    mine: Rows,
    remote: ForestView,
    theirs: Rows,
    local2: ForestView,
    goal: nat,
)
    requires
        goal <= 63,
        rows_show(local, mine, remote, theirs, goal),
        conflicts_settle(mine, theirs),
        ({
            let mine2 = pulled(mine, theirs, pull_asks(local, remote, goal));
            rows_show(remote, theirs, local2, mine2, goal)
        }),
    ensures
        ({
            let mine2 = pulled(mine, theirs, pull_asks(local, remote, goal));
            let theirs2 = pulled(theirs, mine2, pull_asks(remote, local2, goal));
            mine2 == union(mine, theirs) && theirs2 == union(mine, theirs)
        }),
{
    law_pull_takes_in_everything(local, mine, remote, theirs, goal);
    let mine2 = union(mine, theirs);
    law_pull_takes_in_everything(remote, theirs, local2, mine2, goal);
    assert forall|key: Seq<u8>| #[trigger] mine.contains_key(key) && theirs.contains_key(key) && item_hash(
        key,
        mine[key],
    ) == item_hash(key, theirs[key]) implies mine[key] == theirs[key] by {}
    assert(union(theirs, mine2) =~= mine2);
}

/// Whether no rows hide, down to depth `goal`, from a store whose forest is
/// `other`: a cell that holds rows and yet hashes to 0 hashes to 0 there too.
/// Only digests that cancel each other out can make this false.
pub open spec fn nothing_hidden(forest: ForestView, rows: Rows, other: ForestView, goal: nat) -> bool {
    forall|key: Seq<u8>, depth: nat|
        #![trigger rows.contains_key(key), is_level(depth, goal)]
        rows.contains_key(key) && is_level(depth, goal) ==> {
            let epoch = key_epoch(key);
            let prefix = cell_prefix(key_morton(key), depth);
            forest.hash(epoch, depth, prefix) == 0 ==> other.hash(epoch, depth, prefix) == 0
        }
}

/// A cell that does not hash to 0 holds a row around which no smaller cell
/// hashes to 0 either.
proof fn lemma_showing_row(
    forest: ForestView,
    rows: Rows,
    goal: nat,
    epoch: u32,
    depth: nat,
    prefix: u64,
) -> (key: Seq<u8>)
    requires
        represents(forest, rows),
        goal <= 63,
        is_level(goal, forest.leaf),
        is_level(depth, goal),
        is_prefix(prefix, depth),
        forest.hash(epoch, depth, prefix) != 0,
    ensures
        rows.contains_key(key),
        key_in_cell(key, epoch, depth, prefix),
        cell_prefix(key_morton(key), depth) == prefix,
        forall|d: nat|
            depth <= d && is_level(d, goal) ==> forest.hash(
                epoch,
                d,
                #[trigger] cell_prefix(key_morton(key), d),
            ) != 0,
    decreases goal - depth,
{
    if depth == goal {
        if forall|k: Seq<u8>| #[trigger] rows.contains_key(k) ==> !key_in_cell(k, epoch, depth, prefix) {
            law_empty_cell_hashes_to_zero(forest, rows, epoch, depth, prefix);
        }
        choose|k: Seq<u8>| #[trigger] rows.contains_key(k) && key_in_cell(k, epoch, depth, prefix)
    } else {
        let tree = forest.tree(epoch);
        lemma_tree_wf(forest, epoch);
        assert(tree.at(depth, prefix) == tree.children_fold(depth, prefix, 8));
        if forall|c: u64| c < 8 ==> tree.at(depth + 3, #[trigger] child_prefix(prefix, depth, c)) == 0 {
            lemma_children_fold_zero(tree, depth, prefix, 8);
        }
        let c = choose|c: u64|
            c < 8 && tree.at(depth + 3, #[trigger] child_prefix(prefix, depth, c)) != 0;
        let child = child_prefix(prefix, depth, c);
        lemma_child_prefix(prefix, depth, c);
        let key = lemma_showing_row(forest, rows, goal, epoch, depth + 3, child);
        lemma_in_child(key_morton(key), depth, prefix, c);
        assert forall|d: nat| depth <= d && is_level(d, goal) implies forest.hash(
            epoch,
            d,
            #[trigger] cell_prefix(key_morton(key), d),
        ) != 0 by {
            if d > depth {
                assert(depth + 3 <= d);
            }
        }
        key
    }
}

/// Whether two stores have pulled from each other, one after the other, down to
/// depth `goal`, with no rows hidden from either: `local` from `remote`, which
/// makes it `local2`, then `remote` from `local2`, which makes it `remote2`.
pub open spec fn mutually_pulled(
    local: ForestView,
    mine: Rows,
    remote: ForestView,
    theirs: Rows,
    local2: ForestView,
    remote2: ForestView,
    goal: nat,
) -> bool {
    let mine2 = pulled(mine, theirs, pull_asks(local, remote, goal));
    let theirs2 = pulled(theirs, mine2, pull_asks(remote, local2, goal));
    &&& goal <= 63
    &&& is_level(goal, local.leaf)
    &&& is_level(goal, remote.leaf)
    &&& local2.leaf == local.leaf
    &&& remote2.leaf == remote.leaf
    &&& represents(local, mine)
    &&& represents(remote, theirs)
    &&& represents(local2, mine2)
    &&& represents(remote2, theirs2)
    &&& nothing_hidden(remote, theirs, local, goal)
    &&& nothing_hidden(local2, mine2, remote, goal)
}

/// A key of the peer's that the peer asks for in turn was asked for before: a
/// cell whose hashes agreed still has hashes that agree.
proof fn lemma_asked_in_turn(
    local: ForestView,
    mine: Rows,
    remote: ForestView,
    theirs: Rows,
    local2: ForestView,
    goal: nat,
    key: Seq<u8>,
)
    requires
        goal <= 63,
        is_level(goal, local.leaf),
        local2.leaf == local.leaf,
        represents(local, mine),
        represents(local2, pulled(mine, theirs, pull_asks(local, remote, goal))),
        nothing_hidden(remote, theirs, local, goal),
        theirs.contains_key(key),
        pull_asks(remote, local2, goal)(key),
    ensures
        pull_asks(local, remote, goal)(key),
{
    if !pull_asks(local, remote, goal)(key) {
        let mine2 = pulled(mine, theirs, pull_asks(local, remote, goal));
        let epoch = key_epoch(key);
        let d = lemma_unasked_key(local, remote, goal, key);
        let q = cell_prefix(key_morton(key), d);
        assert(is_level(d, goal));
        assert(remote.hash(epoch, d, q) == local.hash(epoch, d, q));
        lemma_unwanted_cell_stays(local, mine, remote, theirs, goal, epoch, d, q);
        law_same_rows_same_hash(local2, mine2, local, mine, epoch, d, q);
        lemma_asked_path(remote, local2, goal, key, d);
    }
}

/// Whether every cell strictly around a cell is worth looking into.
spec fn wanted_above(
    local: ForestView,
    remote: ForestView,
    epoch: u32,
    depth: nat,
    prefix: u64,
) -> bool {
    forall|d: nat|
        d < depth && d % 3 == 0 ==> wanted_of(
            local,
            remote,
            epoch,
            d,
            #[trigger] cell_prefix(prefix, d),
        )
}

/// A pull that comes to a leaf, and finds it worth looking into, asks for all
/// of its keys.
proof fn lemma_leaf_is_asked_for(
    local: ForestView,
    remote: ForestView,
    goal: nat,
    epoch: u32,
    prefix: u64,
)
    requires
        goal <= 63,
        is_level(goal, goal),
        is_prefix(prefix, goal),
        wanted_above(local, remote, epoch, goal, prefix),
        wanted_of(local, remote, epoch, goal, prefix),
    ensures
        forall|key: Seq<u8>|
            key_in_cell(key, epoch, goal, prefix) ==> #[trigger] pull_asks(local, remote, goal)(key),
{
    assert forall|key: Seq<u8>| key_in_cell(key, epoch, goal, prefix) implies #[trigger] pull_asks(
        local,
        remote,
        goal,
    )(key) by {
        assert(cell_prefix(key_morton(key), goal) == prefix);
        assert forall|d: nat| 0 < d && is_level(d, goal) implies wanted_of(
            local,
            remote,
            epoch,
            d,
            #[trigger] cell_prefix(prefix, d),
        ) by {}
        if goal > 0 {
            assert(cell_prefix(prefix, 0) == 0);
        }
    }
}

/// A pull that looks into a cell comes to its children.
proof fn lemma_wanted_above_child(
    local: ForestView,
    remote: ForestView,
    epoch: u32,
    depth: nat,
    prefix: u64,
    c: u64,
)
    requires
        depth <= 60,
        depth % 3 == 0,
        is_prefix(prefix, depth),
        c < 8,
        wanted_above(local, remote, epoch, depth, prefix),
        wanted_of(local, remote, epoch, depth, prefix),
    ensures
        wanted_above(local, remote, epoch, depth + 3, child_prefix(prefix, depth, c)),
{
    let child = child_prefix(prefix, depth, c);
    lemma_child_prefix(prefix, depth, c);
    assert forall|d: nat| d < depth + 3 && d % 3 == 0 implies wanted_of(
        local,
        remote,
        epoch,
        d,
        #[trigger] cell_prefix(child, d),
    ) by {
        assert(d <= depth);
        lemma_prefix_nests(child, d, depth);
        assert(cell_prefix(child, depth) == prefix);
        if d < depth {
            assert(wanted_of(local, remote, epoch, d, cell_prefix(prefix, d)));
        }
    }
}

/// A cell that the peer, pulling in turn, comes to and does not look into has
/// hashes that agree once it has pulled.
proof fn lemma_unwanted_cell_agrees(
    local: ForestView,
    mine: Rows,
    remote: ForestView,
    theirs: Rows,
    local2: ForestView,
    remote2: ForestView,
    goal: nat,
    epoch: u32,
    depth: nat,
    prefix: u64,
)
    requires
        mutually_pulled(local, mine, remote, theirs, local2, remote2, goal),
        is_level(depth, goal),
        is_prefix(prefix, depth),
        wanted_above(remote, local2, epoch, depth, prefix),
        !wanted_of(remote, local2, epoch, depth, prefix),
    ensures
        local2.hash(epoch, depth, prefix) == remote2.hash(epoch, depth, prefix),
{
    let mine2 = pulled(mine, theirs, pull_asks(local, remote, goal));
    let theirs2 = pulled(theirs, mine2, pull_asks(remote, local2, goal));
    lemma_unwanted_cell_stays(remote, theirs, local2, mine2, goal, epoch, depth, prefix);
    law_same_rows_same_hash(remote2, theirs2, remote, theirs, epoch, depth, prefix);
    if local2.hash(epoch, depth, prefix) != remote.hash(epoch, depth, prefix) {
        let key = lemma_showing_row(remote, theirs, goal, epoch, depth, prefix);
        lemma_showing_row_was_pulled(
            local,
            mine,
            remote,
            theirs,
            local2,
            remote2,
            goal,
            depth,
            prefix,
            key,
        );
    }
}

/// No row of the peer's shows in a cell that hashes to 0 after the first pull.
proof fn lemma_showing_row_was_pulled(
    local: ForestView,
    mine: Rows,
    remote: ForestView,
    theirs: Rows,
    local2: ForestView,
    remote2: ForestView,
    goal: nat,
    depth: nat,
    prefix: u64,
    key: Seq<u8>,
)
    requires
        mutually_pulled(local, mine, remote, theirs, local2, remote2, goal),
        is_level(depth, goal),
        is_prefix(prefix, depth),
        wanted_above(remote, local2, key_epoch(key), depth, prefix),
        local2.hash(key_epoch(key), depth, prefix) == 0,
        remote.hash(key_epoch(key), depth, prefix) != 0,
        cell_prefix(key_morton(key), depth) == prefix,
        forall|d: nat|
            depth <= d && is_level(d, goal) ==> remote.hash(
                key_epoch(key),
                d,
                #[trigger] cell_prefix(key_morton(key), d),
            ) != 0,
    ensures
        !theirs.contains_key(key),
{
    let epoch = key_epoch(key);
    let code = key_morton(key);
    let mine2 = pulled(mine, theirs, pull_asks(local, remote, goal));
    assert(is_level(depth, goal));
    if mine2.contains_key(key) {
        assert(remote.hash(epoch, depth, cell_prefix(code, depth)) == 0);
    } else if theirs.contains_key(key) {
        let d = lemma_unasked_key(local, remote, goal, key);
        let q = cell_prefix(code, d);
        assert(is_level(d, goal));
        assert(remote.hash(epoch, d, q) == local.hash(epoch, d, q));
        lemma_unwanted_cell_stays(local, mine, remote, theirs, goal, epoch, d, q);
        law_same_rows_same_hash(local2, mine2, local, mine, epoch, d, q);
        assert(local2.hash(epoch, d, q) == remote.hash(epoch, d, q));
        if d < depth {
            lemma_prefix_nests(code, d, depth);
            assert(wanted_of(remote, local2, epoch, d, cell_prefix(prefix, d)));
        } else if d > depth {
            let k = lemma_showing_row(local2, mine2, goal, epoch, d, q);
            lemma_prefix_nests(code, depth, d);
            lemma_prefix_nests(key_morton(k), depth, d);
            assert(mine2.contains_key(k) && is_level(depth, goal));
            assert(cell_prefix(key_morton(k), depth) == prefix);
            assert(remote.hash(key_epoch(k), depth, cell_prefix(key_morton(k), depth)) == 0);
        }
    }
}

/// A cell that the peer, pulling in turn, comes to has hashes that agree once
/// it has pulled.
proof fn lemma_reached_cell_agrees(
    local: ForestView,
    mine: Rows,
    remote: ForestView,
    theirs: Rows,
    local2: ForestView,
    remote2: ForestView,
    goal: nat,
    epoch: u32,
    depth: nat,
    prefix: u64,
)
    requires
        mutually_pulled(local, mine, remote, theirs, local2, remote2, goal),
        is_level(depth, goal),
        is_prefix(prefix, depth),
        wanted_above(remote, local2, epoch, depth, prefix),
    ensures
        local2.hash(epoch, depth, prefix) == remote2.hash(epoch, depth, prefix),
    decreases goal - depth,
{
    let mine2 = pulled(mine, theirs, pull_asks(local, remote, goal));
    let again = pull_asks(remote, local2, goal);
    let theirs2 = pulled(theirs, mine2, again);
    if !wanted_of(remote, local2, epoch, depth, prefix) {
        lemma_unwanted_cell_agrees(
            local,
            mine,
            remote,
            theirs,
            local2,
            remote2,
            goal,
            epoch,
            depth,
            prefix,
        );
    } else if depth == goal {
        lemma_leaf_is_asked_for(remote, local2, goal, epoch, prefix);
        assert forall|key: Seq<u8>|
            key_in_cell(key, epoch, goal, prefix) && #[trigger] theirs.contains_key(key) implies pull_asks(
            local,
            remote,
            goal,
        )(key) by {
            assert(again(key));
            lemma_asked_in_turn(local, mine, remote, theirs, local2, goal, key);
        }
        assert(same_in_cell(mine2, theirs2, epoch, goal, prefix)) by {
            assert forall|key: Seq<u8>| key_in_cell(key, epoch, goal, prefix) implies (
            #[trigger] mine2.contains_key(key) <==> theirs2.contains_key(key)) && (
            mine2.contains_key(key) ==> item_hash(key, mine2[key]) == item_hash(key, theirs2[key])) by {
                assert(again(key));
            }
        }
        law_same_rows_same_hash(local2, mine2, remote2, theirs2, epoch, goal, prefix);
    } else {
        let s = local2.tree(epoch);
        let t = remote2.tree(epoch);
        assert forall|c: u64| c < 8 implies s.at(depth + 3, #[trigger] child_prefix(prefix, depth, c))
            == t.at(depth + 3, child_prefix(prefix, depth, c)) by {
            let child = child_prefix(prefix, depth, c);
            lemma_child_prefix(prefix, depth, c);
            lemma_wanted_above_child(remote, local2, epoch, depth, prefix, c);
            lemma_reached_cell_agrees(
                local,
                mine,
                remote,
                theirs,
                local2,
                remote2,
                goal,
                epoch,
                depth + 3,
                child,
            );
        }
        lemma_children_fold_cong(s, t, depth, prefix, 8);
        lemma_tree_wf(local2, epoch);
        lemma_tree_wf(remote2, epoch);
        assert(s.at(depth, prefix) == s.children_fold(depth, prefix, 8));
        assert(t.at(depth, prefix) == t.children_fold(depth, prefix, 8));
    }
}

/// Once two stores have pulled from each other, their forests agree: every
/// epoch's roots are the same, and no divergent leaf is left. Payloads in
/// conflict are no exception, nor are different cells that happen to have the
/// same hash; only rows are that hide in a cell that hashes to 0.
pub proof fn law_mutual_pulls_agree(
    local: ForestView,
    mine: Rows,
    remote: ForestView,
    theirs: Rows,
    local2: ForestView,
    remote2: ForestView,
    goal: nat,
    left: Seq<DivergentLeaf>,
)
    requires
        mutually_pulled(local, mine, remote, theirs, local2, remote2, goal),
        lists_divergence(local2, remote2, left),
    ensures
        forall|epoch: u32| #[trigger] local2.hash(epoch, 0, 0) == remote2.hash(epoch, 0, 0),
        left.len() == 0,
{
    assert forall|epoch: u32| #[trigger] local2.hash(epoch, 0, 0) == remote2.hash(epoch, 0, 0) by {
        lemma_reached_cell_agrees(
            local,
            mine,
            remote,
            theirs,
            local2,
            remote2,
            goal,
            epoch,
            0,
            0,
        );
    }
    law_same_hashes_do_not_diverge(local2, remote2, left);
}

/// Whether two stores are at rest: a pull either way applies no row, and no rows
/// are hidden from either.
pub open spec fn at_rest(
    local: ForestView,
    mine: Rows,
    remote: ForestView,
    theirs: Rows,
    goal: nat,
) -> bool {
    &&& goal <= 63
    &&& is_level(goal, local.leaf)
    &&& is_level(goal, remote.leaf)
    &&& represents(local, mine)
    &&& represents(remote, theirs)
    &&& idle(local, mine, remote, theirs, goal)
    &&& idle(remote, theirs, local, mine, goal)
    &&& nothing_hidden(local, mine, remote, goal)
    &&& nothing_hidden(remote, theirs, local, goal)
}

/// Where a pull comes to a cell that only the peer has anything in, the pull is
/// not idle.
proof fn lemma_one_sided_cell_is_pulled(
    local: ForestView,
    mine: Rows,
    remote: ForestView,
    theirs: Rows,
    goal: nat,
    epoch: u32,
    depth: nat,
    prefix: u64,
)
    requires
        goal <= 63,
        is_level(goal, local.leaf),
        is_level(goal, remote.leaf),
        represents(local, mine),
        represents(remote, theirs),
        nothing_hidden(local, mine, remote, goal),
        is_level(depth, goal),
        is_prefix(prefix, depth),
        wanted_above(local, remote, epoch, depth, prefix),
        local.hash(epoch, depth, prefix) == 0,
        remote.hash(epoch, depth, prefix) != 0,
    ensures
        !idle(local, mine, remote, theirs, goal),
{
    assert forall|key: Seq<u8>| #[trigger] mine.contains_key(key) implies !key_in_cell(
        key,
        epoch,
        depth,
        prefix,
    ) by {
        assert(is_level(depth, goal));
    }
    let key = lemma_showing_row(remote, theirs, goal, epoch, depth, prefix);
    let code = key_morton(key);
    let home = cell_prefix(code, goal);
    assert forall|d: nat| is_level(d, goal) implies wanted_of(
        local,
        remote,
        epoch,
        d,
        #[trigger] cell_prefix(code, d),
    ) by {
        let q = cell_prefix(code, d);
        if d < depth {
            lemma_prefix_nests(code, d, depth);
            assert(wanted_of(local, remote, epoch, d, cell_prefix(prefix, d)));
        } else {
            assert forall|k: Seq<u8>| #[trigger] mine.contains_key(k) implies !key_in_cell(
                k,
                epoch,
                d,
                q,
            ) by {
                lemma_prefix_nests(key_morton(k), depth, d);
                lemma_prefix_nests(code, depth, d);
            }
            law_empty_cell_hashes_to_zero(local, mine, epoch, d, q);
            assert(remote.hash(epoch, d, cell_prefix(code, d)) != 0);
        }
    }
    assert(pull_asks(local, remote, goal)(key)) by {
        lemma_prefix_nests(code, goal, goal);
        assert(wanted_of(local, remote, epoch, 0, cell_prefix(code, 0)));
        assert forall|d: nat| 0 < d && is_level(d, goal) implies wanted_of(
            local,
            remote,
            epoch,
            d,
            #[trigger] cell_prefix(home, d),
        ) by {
            lemma_prefix_nests(code, d, goal);
            assert(wanted_of(local, remote, epoch, d, cell_prefix(code, d)));
        }
    }
    assert(theirs.contains_key(key));
    assert(!mine.contains_key(key));
}

/// Stores at rest agree on every cell that a pull either way comes to.
proof fn lemma_cell_at_rest_agrees(
    local: ForestView,
    mine: Rows,
    remote: ForestView,
    theirs: Rows,
    goal: nat,
    epoch: u32,
    depth: nat,
    prefix: u64,
)
    requires
        at_rest(local, mine, remote, theirs, goal),
        is_level(depth, goal),
        is_prefix(prefix, depth),
        wanted_above(local, remote, epoch, depth, prefix),
        wanted_above(remote, local, epoch, depth, prefix),
    ensures
        local.hash(epoch, depth, prefix) == remote.hash(epoch, depth, prefix),
    decreases goal - depth,
{
    let ours = local.hash(epoch, depth, prefix);
    let other = remote.hash(epoch, depth, prefix);
    if ours == other {
    } else if ours == 0 {
        lemma_one_sided_cell_is_pulled(local, mine, remote, theirs, goal, epoch, depth, prefix);
    } else if other == 0 {
        lemma_one_sided_cell_is_pulled(remote, theirs, local, mine, goal, epoch, depth, prefix);
    } else if depth == goal {
        lemma_leaf_is_asked_for(local, remote, goal, epoch, prefix);
        lemma_leaf_is_asked_for(remote, local, goal, epoch, prefix);
        assert forall|key: Seq<u8>|
            key_in_cell(key, epoch, goal, prefix) && #[trigger] theirs.contains_key(key) implies !applies(
            mine,
            key,
            theirs[key],
        ) by {
            assert(pull_asks(local, remote, goal)(key));
        }
        assert forall|key: Seq<u8>|
            key_in_cell(key, epoch, goal, prefix) && #[trigger] mine.contains_key(key) implies !applies(
            theirs,
            key,
            mine[key],
        ) by {
            assert(pull_asks(remote, local, goal)(key));
        }
        assert(same_in_cell(mine, theirs, epoch, goal, prefix));
        law_same_rows_same_hash(local, mine, remote, theirs, epoch, goal, prefix);
    } else {
        let s = local.tree(epoch);
        let t = remote.tree(epoch);
        assert forall|c: u64| c < 8 implies s.at(depth + 3, #[trigger] child_prefix(prefix, depth, c))
            == t.at(depth + 3, child_prefix(prefix, depth, c)) by {
            lemma_wanted_above_child(local, remote, epoch, depth, prefix, c);
            lemma_wanted_above_child(remote, local, epoch, depth, prefix, c);
            lemma_child_prefix(prefix, depth, c);
            lemma_cell_at_rest_agrees(
                local,
                mine,
                remote,
                theirs,
                goal,
                epoch,
                depth + 3,
                child_prefix(prefix, depth, c),
            );
        }
        lemma_children_fold_cong(s, t, depth, prefix, 8);
        lemma_tree_wf(local, epoch);
        lemma_tree_wf(remote, epoch);
        assert(s.at(depth, prefix) == s.children_fold(depth, prefix, 8));
        assert(t.at(depth, prefix) == t.children_fold(depth, prefix, 8));
    }
}

/// Once two nodes that pull from each other apply no more rows, they agree:
/// every epoch's roots are the same, and no divergent leaf is left. Only rows
/// that hide in a cell that hashes to 0 could keep them apart.
pub proof fn law_nodes_at_rest_agree(
    local: ForestView,
    mine: Rows,
    remote: ForestView,
    theirs: Rows,
    goal: nat,
    left: Seq<DivergentLeaf>,
)
    requires
        at_rest(local, mine, remote, theirs, goal),
        lists_divergence(local, remote, left),
    ensures
        forall|epoch: u32| #[trigger] local.hash(epoch, 0, 0) == remote.hash(epoch, 0, 0),
        left.len() == 0,
{
    assert forall|epoch: u32| #[trigger] local.hash(epoch, 0, 0) == remote.hash(epoch, 0, 0) by {
        lemma_cell_at_rest_agrees(local, mine, remote, theirs, goal, epoch, 0, 0);
    }
    law_same_hashes_do_not_diverge(local, remote, left);
}

/// Merging loses nothing: every key of either store stays, with a payload
/// whose digest is no smaller than before, and nothing else comes in.
pub proof fn law_union_loses_nothing(a: Rows, b: Rows, key: Seq<u8>)
    ensures
        union(a, b).contains_key(key) <==> a.contains_key(key) || b.contains_key(key),
        a.contains_key(key) ==> item_hash(key, union(a, b)[key]) >= item_hash(key, a[key]),
        b.contains_key(key) ==> item_hash(key, union(a, b)[key]) >= item_hash(key, b[key]),
        union(a, b).contains_key(key) ==> (a.contains_key(key) && union(a, b)[key] == a[key]) || (
        b.contains_key(key) && union(a, b)[key] == b[key]),
{
}

/// What the last of a chain of stores holds, once each has pulled from the one
/// before it, in order.
pub open spec fn carried(stores: Seq<Rows>) -> Rows
    decreases stores.len(),
{
    if stores.len() == 0 {
        Map::empty()
    } else if stores.len() == 1 {
        stores[0]
    } else {
        union(stores.last(), carried(stores.drop_last()))
    }
}

/// What has reached one node reaches every node connected to it: along a chain
/// of pulls, every key of every store comes to the last one, with a payload
/// whose digest is no smaller, and all that comes is from the stores.
pub proof fn law_chain_of_pulls_carries_everything(stores: Seq<Rows>, key: Seq<u8>)
    ensures
        forall|i: int|
            0 <= i < stores.len() && (#[trigger] stores[i]).contains_key(key) ==> carried(
                stores,
            ).contains_key(key) && item_hash(key, carried(stores)[key]) >= item_hash(
                key,
                stores[i][key],
            ),
        carried(stores).contains_key(key) ==> exists|i: int|
            0 <= i < stores.len() && (#[trigger] stores[i]).contains_key(key) && stores[i][key]
                == carried(stores)[key],
    decreases stores.len(),
{
    if stores.len() > 1 {
        let rest = stores.drop_last();
        let n = rest.len() as int;
        assert forall|i: int| 0 <= i < n implies #[trigger] rest[i] == stores[i] by {}
        law_chain_of_pulls_carries_everything(rest, key);
        law_union_loses_nothing(stores[n], carried(rest), key);
        assert forall|i: int| 0 <= i < stores.len() && (#[trigger] stores[i]).contains_key(key) implies carried(
            stores,
        ).contains_key(key) && item_hash(key, carried(stores)[key]) >= item_hash(
            key,
            stores[i][key],
        ) by {
            if i < n {
                assert(rest[i] == stores[i]);
            }
        }
        if carried(stores).contains_key(key) {
            if stores[n].contains_key(key) && carried(stores)[key] == stores[n][key] {
            } else {
                let i = choose|i: int|
                    0 <= i < rest.len() && (#[trigger] rest[i]).contains_key(key) && rest[i][key]
                        == carried(rest)[key];
                assert(rest[i] == stores[i]);
            }
        }
    }
}

/// Merging stores is associative, commutative where conflicts settle, and
/// idempotent.
pub proof fn law_union_is_a_semilattice(a: Rows, b: Rows, c: Rows)
    ensures
        union(a, a) == a,
        union(union(a, b), c) == union(a, union(b, c)),
        conflicts_settle(a, b) ==> union(a, b) == union(b, a),
{
    assert(union(a, a) =~= a);
    assert(union(union(a, b), c) =~= union(a, union(b, c)));
    if conflicts_settle(a, b) {
        assert(union(a, b) =~= union(b, a));
    }
}

} // verus!
