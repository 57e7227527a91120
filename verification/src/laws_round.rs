//! What holds of a sync round against a peer that answers from its forest.
//!
//! A round keeps on course: the nodes that it has yet to look into and the
//! leaves that it has fetched cover, without overlap, exactly the leaves that
//! are worth fetching.

use crate::bytes::be_value;
use crate::cell::{
    cell_prefix, child_prefix, in_cell, is_level, is_prefix, law_prefix_rounds_down,
    lemma_child_prefix, lemma_in_child, lemma_prefix_nests, octant,
};
use crate::model::ForestView;
use crate::round::{is_goal, wanted, wanted_children, wanted_roots, WorkItem};
use crate::service::{child_list, root_list};
use crate::wire::{hash_value, ChildHash, EpochRoot};
use vstd::arithmetic::power2::pow2;
use vstd::prelude::*;

verus! {

/// Whether a node is worth looking into, going by the peer's forest.
pub open spec fn wanted_of(
    local: ForestView,
    remote: ForestView,
    epoch: u32,
    depth: nat,
    prefix: u64,
) -> bool {
    wanted(local, epoch, depth, prefix, remote.hash(epoch, depth, prefix))
}

/// Whether a node is reached from the root through nodes worth looking into,
/// and is one itself.
pub open spec fn wanted_path(
    local: ForestView,
    remote: ForestView,
    epoch: u32,
    depth: nat,
    prefix: u64,
) -> bool {
    &&& is_prefix(prefix, depth)
    &&& wanted_of(local, remote, epoch, 0, 0)
    &&& forall|d: nat|
        0 < d && is_level(d, depth) ==> wanted_of(
            local,
            remote,
            epoch,
            d,
            #[trigger] cell_prefix(prefix, d),
        )
}

/// Whether one of `items` is a cell of `epoch` that holds `code`.
pub open spec fn covered(items: Seq<WorkItem>, epoch: u32, code: u64) -> bool {
    exists|i: int|
        0 <= i < items.len() && (#[trigger] items[i]).epoch == epoch && in_cell(
            code,
            items[i].depth_bits as nat,
            items[i].prefix,
        )
}

/// Whether two cells have no code in common.
pub open spec fn apart(x: WorkItem, y: WorkItem) -> bool {
    x.epoch == y.epoch ==> forall|code: u64|
        #![trigger in_cell(code, x.depth_bits as nat, x.prefix)]
        !(in_cell(code, x.depth_bits as nat, x.prefix) && in_cell(
            code,
            y.depth_bits as nat,
            y.prefix,
        ))
}

/// Whether a node may be looked into before another: breadth comes first.
pub open spec fn in_turn(x: WorkItem, y: WorkItem) -> bool {
    x.depth_bits <= y.depth_bits <= x.depth_bits + 3
}

/// Whether a round that descends to depth `goal`, with `work` to look into and
/// `fetched` already fetched, is on course.
pub open spec fn on_course(
    local: ForestView,
    remote: ForestView,
    goal: nat,
    work: Seq<WorkItem>,
    fetched: Seq<WorkItem>,
) -> bool {
    &&& forall|i: int|
        0 <= i < work.len() ==> is_level((#[trigger] work[i]).depth_bits as nat, goal)
            && wanted_path(
            local,
            remote,
            work[i].epoch,
            work[i].depth_bits as nat,
            work[i].prefix,
        )
    &&& forall|i: int|
        0 <= i < fetched.len() ==> (#[trigger] fetched[i]).depth_bits == goal && wanted_path(
            local,
            remote,
            fetched[i].epoch,
            goal,
            fetched[i].prefix,
        )
    &&& forall|epoch: u32, prefix: u64| #[trigger]
        wanted_path(local, remote, epoch, goal, prefix) ==> covered(work, epoch, prefix) || covered(
            fetched,
            epoch,
            prefix,
        )
    &&& forall|i: int, j: int| 0 <= i < j < work.len() ==> apart(work[i], work[j])
    &&& forall|i: int, j: int| 0 <= i < j < fetched.len() ==> apart(fetched[i], fetched[j])
    &&& forall|i: int, j: int|
        0 <= i < fetched.len() && 0 <= j < work.len() ==> apart(fetched[i], work[j])
    &&& forall|i: int, j: int| 0 <= i < j < work.len() ==> in_turn(work[i], work[j])
}

/// The roots worth looking into are those of the epochs whose root is.
proof fn lemma_wanted_roots(local: ForestView, roots: Seq<EpochRoot>)
    requires
        forall|i: int, j: int| 0 <= i < j < roots.len() ==> roots[i].epoch < roots[j].epoch,
    ensures
        forall|i: int|
            0 <= i < wanted_roots(local, roots).len() ==> {
                let item = #[trigger] wanted_roots(local, roots)[i];
                &&& item.depth_bits == 0
                &&& item.prefix == 0
                &&& exists|j: int|
                    0 <= j < roots.len() && (#[trigger] roots[j]).epoch == item.epoch && wanted(
                        local,
                        item.epoch,
                        0,
                        0,
                        hash_value(roots[j].hash@),
                    )
            },
        forall|j: int|
            0 <= j < roots.len() && wanted(
                local,
                (#[trigger] roots[j]).epoch,
                0,
                0,
                hash_value(roots[j].hash@),
            ) ==> covered(wanted_roots(local, roots), roots[j].epoch, 0),
        forall|i: int, j: int|
            0 <= i < j < wanted_roots(local, roots).len() ==> wanted_roots(local, roots)[i].epoch
                < wanted_roots(local, roots)[j].epoch,
    decreases roots.len(),
{
    if roots.len() > 0 {
        let rest = roots.drop_last();
        let n = rest.len() as int;
        assert forall|i: int| 0 <= i < n implies #[trigger] rest[i] == roots[i] by {}
        lemma_wanted_roots(local, rest);
        let before = wanted_roots(local, rest);
        let after = wanted_roots(local, roots);
        let root = roots[n];
        assert forall|i: int| 0 <= i < after.len() implies {
            let item = #[trigger] after[i];
            &&& item.depth_bits == 0
            &&& item.prefix == 0
            &&& exists|j: int|
                0 <= j < roots.len() && (#[trigger] roots[j]).epoch == item.epoch && wanted(
                    local,
                    item.epoch,
                    0,
                    0,
                    hash_value(roots[j].hash@),
                )
        } by {
            if i < before.len() {
                let item = before[i];
                assert(after[i] == item);
                let j = choose|j: int|
                    0 <= j < rest.len() && (#[trigger] rest[j]).epoch == item.epoch && wanted(
                        local,
                        item.epoch,
                        0,
                        0,
                        hash_value(rest[j].hash@),
                    );
                assert(rest[j] == roots[j]);
            } else {
                assert(roots[n].epoch == after[i].epoch);
            }
        }
        assert forall|j: int|
            0 <= j < roots.len() && wanted(
                local,
                (#[trigger] roots[j]).epoch,
                0,
                0,
                hash_value(roots[j].hash@),
            ) implies covered(after, roots[j].epoch, 0) by {
            if j < n {
                assert(rest[j] == roots[j]);
                assert(covered(before, rest[j].epoch, 0));
                let i = choose|i: int|
                    0 <= i < before.len() && (#[trigger] before[i]).epoch == roots[j].epoch
                        && in_cell(0, before[i].depth_bits as nat, before[i].prefix);
                assert(after[i] == before[i]);
            } else {
                assert(after[before.len() as int].epoch == roots[j].epoch);
            }
        }
        assert forall|i: int, j: int| 0 <= i < j < after.len() implies after[i].epoch < after[j].epoch by {
            let k = choose|k: int|
                0 <= k < rest.len() && (#[trigger] rest[k]).epoch == before[i].epoch && wanted(
                    local,
                    before[i].epoch,
                    0,
                    0,
                    hash_value(rest[k].hash@),
                );
            assert(after[i] == before[i]);
            if j < before.len() {
                assert(after[j] == before[j]);
            } else {
                assert(rest[k] == roots[k]);
                assert(roots[k].epoch < roots[n].epoch);
            }
        }
    }
}

/// A round starts on course.
pub proof fn law_round_starts_on_course(
    local: ForestView,
    remote: ForestView,
    goal: nat,
    roots: Seq<EpochRoot>,
)
    requires
        is_goal(goal),
        remote.lists_roots(root_list(roots)),
    ensures
        on_course(local, remote, goal, wanted_roots(local, roots), Seq::empty()),
{
    let list = root_list(roots);
    let work = wanted_roots(local, roots);
    assert forall|i: int, j: int| 0 <= i < j < roots.len() implies roots[i].epoch < roots[j].epoch by {
        assert(list[i].0 < list[j].0);
    }
    assert forall|j: int| 0 <= j < roots.len() implies hash_value((#[trigger] roots[j]).hash@)
        == remote.hash(roots[j].epoch, 0, 0) by {
        assert(list[j] == (roots[j].epoch, hash_value(roots[j].hash@)));
    }
    lemma_wanted_roots(local, roots);
    assert forall|i: int| 0 <= i < work.len() implies is_level(
        (#[trigger] work[i]).depth_bits as nat,
        goal,
    ) && wanted_path(local, remote, work[i].epoch, work[i].depth_bits as nat, work[i].prefix) by {
        let item = work[i];
        let j = choose|j: int|
            0 <= j < roots.len() && (#[trigger] roots[j]).epoch == item.epoch && wanted(
                local,
                item.epoch,
                0,
                0,
                hash_value(roots[j].hash@),
            );
        assert(hash_value(roots[j].hash@) == remote.hash(roots[j].epoch, 0, 0));
    }
    assert forall|epoch: u32, prefix: u64| #[trigger]
        wanted_path(local, remote, epoch, goal, prefix) implies covered(work, epoch, prefix) by {
        let root = remote.hash(epoch, 0, 0);
        assert(root != 0);
        assert(list.contains((epoch, root)));
        let j = choose|j: int| 0 <= j < list.len() && list[j] == (epoch, root);
        assert(roots[j].epoch == epoch && hash_value(roots[j].hash@) == root);
        assert(covered(work, roots[j].epoch, 0));
        let i = choose|i: int|
            0 <= i < work.len() && (#[trigger] work[i]).epoch == epoch && in_cell(
                0,
                work[i].depth_bits as nat,
                work[i].prefix,
            );
        assert(in_cell(prefix, work[i].depth_bits as nat, work[i].prefix));
    }
    assert forall|i: int, j: int| 0 <= i < j < work.len() implies in_turn(work[i], work[j]) by {
        assert(work[i].depth_bits == 0);
        assert(work[j].depth_bits == 0);
    }
}

/// The nodes worth looking into among a list of prefixes and hashes.
spec fn wanted_list(local: ForestView, epoch: u32, depth: usize, list: Seq<(u64, u128)>) -> Seq<WorkItem>
    decreases list.len(),
{
    if list.len() == 0 {
        Seq::empty()
    } else {
        let before = wanted_list(local, epoch, depth, list.drop_last());
        let (prefix, theirs) = list.last();
        if wanted(local, epoch, depth as nat, prefix, theirs) {
            before.push(WorkItem { epoch, depth_bits: depth, prefix })
        } else {
            before
        }
    }
}

/// A reply is gone through by its prefixes and hashes.
proof fn lemma_wanted_children(local: ForestView, epoch: u32, depth: usize, children: Seq<ChildHash>)
    ensures
        wanted_children(local, epoch, depth, children) == wanted_list(
            local,
            epoch,
            depth,
            child_list(children),
        ),
    decreases children.len(),
{
    if children.len() > 0 {
        lemma_wanted_children(local, epoch, depth, children.drop_last());
        assert(child_list(children).drop_last() =~= child_list(children.drop_last()));
        assert(child_list(children).last() == (
            children.last().prefix,
            hash_value(children.last().hash@),
        ));
    }
}

/// Whether `items` lists those of the first `n` children of the cell
/// `(depth, prefix)` that are worth looking into.
spec fn lists_wanted(
    local: ForestView,
    remote: ForestView,
    items: Seq<WorkItem>,
    epoch: u32,
    depth: nat,
    prefix: u64,
    n: nat,
) -> bool {
    &&& forall|i: int|
        0 <= i < items.len() ==> {
            let item = #[trigger] items[i];
            let c = octant(item.prefix, depth);
            &&& item.epoch == epoch
            &&& item.depth_bits == depth + 3
            &&& c < n
            &&& item.prefix == child_prefix(prefix, depth, c)
            &&& wanted_of(local, remote, epoch, depth + 3, item.prefix)
        }
    &&& forall|i: int, j: int|
        0 <= i < j < items.len() ==> octant(items[i].prefix, depth) < octant(items[j].prefix, depth)
    &&& forall|c: u64|
        c < n && wanted_of(
            local,
            remote,
            epoch,
            depth + 3,
            #[trigger] child_prefix(prefix, depth, c),
        ) ==> exists|i: int|
            0 <= i < items.len() && (#[trigger] items[i]).prefix == child_prefix(prefix, depth, c)
}

/// Going through the children that a forest lists finds those worth looking into.
proof fn lemma_lists_wanted(
    local: ForestView,
    remote: ForestView,
    epoch: u32,
    depth: usize,
    prefix: u64,
    n: nat,
)
    requires
        depth <= 60,
        is_prefix(prefix, depth as nat),
        n <= 8,
    ensures
        lists_wanted(
            local,
            remote,
            wanted_list(
                local,
                epoch,
                (depth + 3) as usize,
                remote.children(epoch, depth as nat, prefix, n),
            ),
            epoch,
            depth as nat,
            prefix,
            n,
        ),
    decreases n,
{
    if n > 0 {
        let m = (n - 1) as nat;
        let c = m as u64;
        lemma_lists_wanted(local, remote, epoch, depth, prefix, m);
        let child = child_prefix(prefix, depth as nat, c);
        let hash = remote.hash(epoch, (depth + 3) as nat, child);
        lemma_child_prefix(prefix, depth as nat, c);
        let shorter = remote.children(epoch, depth as nat, prefix, m);
        let longer = remote.children(epoch, depth as nat, prefix, n);
        let before = wanted_list(local, epoch, (depth + 3) as usize, shorter);
        let after = wanted_list(local, epoch, (depth + 3) as usize, longer);
        assert(shorter.push((child, hash)).drop_last() =~= shorter);
        assert(after == (if wanted_of(local, remote, epoch, (depth + 3) as nat, child) {
            before.push(WorkItem { epoch, depth_bits: (depth + 3) as usize, prefix: child })
        } else {
            before
        }));
        assert forall|k: u64|
            k < n && wanted_of(
                local,
                remote,
                epoch,
                (depth + 3) as nat,
                #[trigger] child_prefix(prefix, depth as nat, k),
            ) implies exists|i: int|
            0 <= i < after.len() && (#[trigger] after[i]).prefix == child_prefix(
                prefix,
                depth as nat,
                k,
            ) by {
            if k < m {
                let i = choose|i: int|
                    0 <= i < before.len() && (#[trigger] before[i]).prefix == child_prefix(
                        prefix,
                        depth as nat,
                        k,
                    );
                assert(after[i] == before[i]);
            } else {
                assert(after[before.len() as int].prefix == child);
            }
        }
        assert forall|i: int, j: int| 0 <= i < j < after.len() implies octant(
            after[i].prefix,
            depth as nat,
        ) < octant(after[j].prefix, depth as nat) by {
            assert(after[i] == before[i]);
            if j < before.len() {
                assert(after[j] == before[j]);
            }
        }
        assert forall|i: int| 0 <= i < after.len() implies {
            let item = #[trigger] after[i];
            let k = octant(item.prefix, depth as nat);
            &&& item.epoch == epoch
            &&& item.depth_bits == depth + 3
            &&& k < n
            &&& item.prefix == child_prefix(prefix, depth as nat, k)
            &&& wanted_of(local, remote, epoch, (depth + 3) as nat, item.prefix)
        } by {
            if i < before.len() {
                assert(after[i] == before[i]);
            }
        }
    }
}

/// Looking into the first node keeps a round on course.
pub proof fn law_descent_stays_on_course(
    local: ForestView,
    remote: ForestView,
    goal: nat,
    work: Seq<WorkItem>,
    fetched: Seq<WorkItem>,
    children: Seq<ChildHash>,
)
    requires
        is_goal(goal),
        on_course(local, remote, goal, work, fetched),
        work.len() > 0,
        work[0].depth_bits != goal,
        child_list(children) == remote.children(
            work[0].epoch,
            work[0].depth_bits as nat,
            work[0].prefix,
            8,
        ),
    ensures
        on_course(
            local,
            remote,
            goal,
            work.subrange(1, work.len() as int) + wanted_children(
                local,
                work[0].epoch,
                (work[0].depth_bits + 3) as usize,
                children,
            ),
            fetched,
        ),
{
    let item = work[0];
    let (epoch, depth, prefix) = (item.epoch, item.depth_bits as nat, item.prefix);
    let rest = work.subrange(1, work.len() as int);
    let below = wanted_children(local, epoch, (item.depth_bits + 3) as usize, children);
    let next = rest + below;
    let r = rest.len() as int;
    lemma_wanted_children(local, epoch, (item.depth_bits + 3) as usize, children);
    assert(is_level(work[0].depth_bits as nat, goal));
    assert(wanted_path(local, remote, epoch, depth, prefix));
    lemma_lists_wanted(local, remote, epoch, item.depth_bits, prefix, 8);
    assert(lists_wanted(local, remote, below, epoch, depth, prefix, 8));
    assert forall|i: int| 0 <= i < r implies #[trigger] next[i] == work[i + 1] by {}
    assert forall|i: int| r <= i < next.len() implies #[trigger] next[i] == below[i - r] by {}
    assert forall|i: int| 0 <= i < below.len() implies is_level(
        (#[trigger] below[i]).depth_bits as nat,
        goal,
    ) && wanted_path(local, remote, epoch, depth + 3, below[i].prefix) by {
        let child = below[i].prefix;
        let c = octant(child, depth);
        lemma_child_prefix(prefix, depth, c);
        assert forall|d: nat| 0 < d && is_level(d, depth + 3) implies wanted_of(
            local,
            remote,
            epoch,
            d,
            #[trigger] cell_prefix(child, d),
        ) by {
            if d <= depth {
                lemma_prefix_nests(child, d, depth);
                assert(cell_prefix(child, depth) == prefix);
                assert(wanted_of(local, remote, epoch, d, cell_prefix(prefix, d)));
            } else {
                assert(d == depth + 3);
            }
        }
    }
    assert forall|i: int| 0 <= i < next.len() implies is_level(
        (#[trigger] next[i]).depth_bits as nat,
        goal,
    ) && wanted_path(local, remote, next[i].epoch, next[i].depth_bits as nat, next[i].prefix) by {
        if i < r {
            assert(next[i] == work[i + 1]);
        } else {
            assert(next[i] == below[i - r]);
        }
    }
    assert forall|i: int, code: u64|
        0 <= i < below.len() && in_cell(code, depth + 3, (#[trigger] below[i]).prefix) implies #[trigger] in_cell(
        code,
        depth,
        prefix,
    ) && octant(code, depth) == octant(below[i].prefix, depth) by {
        lemma_in_child(code, depth, prefix, octant(below[i].prefix, depth));
    }
    assert forall|e: u32, p: u64| #[trigger]
        wanted_path(local, remote, e, goal, p) implies covered(next, e, p) || covered(fetched, e, p) by {
        if !covered(fetched, e, p) {
            assert(covered(work, e, p));
            let i = choose|i: int|
                0 <= i < work.len() && (#[trigger] work[i]).epoch == e && in_cell(
                    p,
                    work[i].depth_bits as nat,
                    work[i].prefix,
                );
            if i > 0 {
                assert(next[i - 1] == work[i]);
            } else {
                let c = octant(p, depth);
                lemma_in_child(p, depth, prefix, 0);
                lemma_in_child(p, depth, prefix, c);
                let child = child_prefix(prefix, depth, c);
                assert(wanted_of(local, remote, e, depth + 3, cell_prefix(p, depth + 3)));
                let k = choose|k: int| 0 <= k < below.len() && (#[trigger] below[k]).prefix == child;
                assert(next[r + k] == below[k]);
            }
        }
    }
    assert forall|i: int, j: int| 0 <= i < j < next.len() implies apart(next[i], next[j]) by {
        if j < r {
            assert(apart(work[i + 1], work[j + 1]));
        } else if i < r {
            assert(next[j] == below[j - r]);
            assert(next[i] == work[i + 1]);
            assert(apart(work[0], work[i + 1]));
            let x = next[i];
            let y = next[j];
            assert forall|code: u64|
                x.epoch == y.epoch implies !(#[trigger] in_cell(code, x.depth_bits as nat, x.prefix)
                && in_cell(code, y.depth_bits as nat, y.prefix)) by {
                if in_cell(code, y.depth_bits as nat, y.prefix) {
                    assert(in_cell(code, depth, prefix));
                    assert(in_cell(code, work[0].depth_bits as nat, work[0].prefix));
                }
            }
        } else {
            let x = below[i - r];
            let y = below[j - r];
            assert(next[i] == x && next[j] == y);
            assert(octant(x.prefix, depth) < octant(y.prefix, depth));
            assert forall|code: u64| !(#[trigger] in_cell(code, x.depth_bits as nat, x.prefix)
                && in_cell(code, y.depth_bits as nat, y.prefix)) by {
                if in_cell(code, x.depth_bits as nat, x.prefix) && in_cell(
                    code,
                    y.depth_bits as nat,
                    y.prefix,
                ) {
                    lemma_in_child(code, depth, prefix, octant(x.prefix, depth));
                    lemma_in_child(code, depth, prefix, octant(y.prefix, depth));
                }
            }
        }
    }
    assert forall|i: int, j: int| 0 <= i < fetched.len() && 0 <= j < next.len() implies apart(
        fetched[i],
        next[j],
    ) by {
        if j < r {
            assert(next[j] == work[j + 1]);
            assert(apart(fetched[i], work[j + 1]));
        } else {
            assert(next[j] == below[j - r]);
            assert(apart(fetched[i], work[0]));
            let x = fetched[i];
            let y = next[j];
            assert forall|code: u64|
                x.epoch == y.epoch implies !(#[trigger] in_cell(code, x.depth_bits as nat, x.prefix)
                && in_cell(code, y.depth_bits as nat, y.prefix)) by {
                if in_cell(code, y.depth_bits as nat, y.prefix) {
                    assert(in_cell(code, depth, prefix));
                }
            }
        }
    }
    assert forall|i: int, j: int| 0 <= i < j < next.len() implies in_turn(next[i], next[j]) by {
        if j < r {
            assert(in_turn(work[i + 1], work[j + 1]));
        } else {
            assert(next[j] == below[j - r]);
            if i < r {
                assert(next[i] == work[i + 1]);
                assert(in_turn(work[0], work[i + 1]));
            } else {
                assert(next[i] == below[i - r]);
            }
        }
    }
}

/// Fetching the first leaf keeps a round on course.
pub proof fn law_fetch_stays_on_course(
    local: ForestView,
    remote: ForestView,
    goal: nat,
    work: Seq<WorkItem>,
    fetched: Seq<WorkItem>,
)
    requires
        is_goal(goal),
        on_course(local, remote, goal, work, fetched),
        work.len() > 0,
        work[0].depth_bits == goal,
    ensures
        on_course(
            local,
            remote,
            goal,
            work.subrange(1, work.len() as int),
            fetched.push(work[0]),
        ),
{
    let rest = work.subrange(1, work.len() as int);
    let more = fetched.push(work[0]);
    let n = fetched.len() as int;
    assert forall|i: int| 0 <= i < rest.len() implies #[trigger] rest[i] == work[i + 1] by {}
    assert forall|i: int| 0 <= i < n implies #[trigger] more[i] == fetched[i] by {}
    assert(more[n] == work[0]);
    assert forall|e: u32, p: u64| #[trigger]
        wanted_path(local, remote, e, goal, p) implies covered(rest, e, p) || covered(more, e, p) by {
        if covered(fetched, e, p) {
            let i = choose|i: int|
                0 <= i < fetched.len() && (#[trigger] fetched[i]).epoch == e && in_cell(
                    p,
                    fetched[i].depth_bits as nat,
                    fetched[i].prefix,
                );
            assert(more[i] == fetched[i]);
        } else {
            assert(covered(work, e, p));
            let i = choose|i: int|
                0 <= i < work.len() && (#[trigger] work[i]).epoch == e && in_cell(
                    p,
                    work[i].depth_bits as nat,
                    work[i].prefix,
                );
            if i > 0 {
                assert(rest[i - 1] == work[i]);
            } else {
                assert(more[n] == work[0]);
            }
        }
    }
    assert forall|i: int, j: int| 0 <= i < more.len() && 0 <= j < rest.len() implies apart(
        more[i],
        rest[j],
    ) by {
        assert(rest[j] == work[j + 1]);
        if i < n {
            assert(apart(fetched[i], work[j + 1]));
        } else {
            assert(apart(work[0], work[j + 1]));
        }
    }
    assert forall|i: int, j: int| 0 <= i < j < more.len() implies apart(more[i], more[j]) by {
        if j < n {
            assert(apart(fetched[i], fetched[j]));
        } else {
            assert(apart(fetched[i], work[0]));
        }
    }
    assert forall|i: int, j: int| 0 <= i < j < rest.len() implies apart(rest[i], rest[j]) by {
        assert(apart(work[i + 1], work[j + 1]));
    }
}

/// All descents come before all fetches: when a round first fetches a leaf,
/// only leaves are left.
pub proof fn law_fetches_come_last(
    local: ForestView,
    remote: ForestView,
    goal: nat,
    work: Seq<WorkItem>,
    fetched: Seq<WorkItem>,
    i: int,
)
    requires
        on_course(local, remote, goal, work, fetched),
        0 <= i < work.len(),
        work[0].depth_bits == goal,
    ensures
        work[i].depth_bits == goal,
{
    assert(is_level(work[i].depth_bits as nat, goal));
    if i > 0 {
        assert(in_turn(work[0], work[i]));
    }
}

/// A finished round has fetched exactly the leaves that are worth fetching,
/// each once.
pub proof fn law_finished_round_fetched_what_differs(
    local: ForestView,
    remote: ForestView,
    goal: nat,
    fetched: Seq<WorkItem>,
)
    requires
        is_goal(goal),
        on_course(local, remote, goal, Seq::empty(), fetched),
    ensures
        forall|epoch: u32, prefix: u64| #[trigger]
            wanted_path(local, remote, epoch, goal, prefix) <==> fetched.contains(
                WorkItem { epoch, depth_bits: goal as usize, prefix },
            ),
        fetched.no_duplicates(),
{
    assert forall|epoch: u32, prefix: u64| #[trigger]
        wanted_path(local, remote, epoch, goal, prefix) <==> fetched.contains(
            WorkItem { epoch, depth_bits: goal as usize, prefix },
        ) by {
        let item = WorkItem { epoch, depth_bits: goal as usize, prefix };
        if wanted_path(local, remote, epoch, goal, prefix) {
            assert(covered(fetched, epoch, prefix));
            let i = choose|i: int|
                0 <= i < fetched.len() && (#[trigger] fetched[i]).epoch == epoch && in_cell(
                    prefix,
                    fetched[i].depth_bits as nat,
                    fetched[i].prefix,
                );
            assert(fetched[i] == item);
        }
        if fetched.contains(item) {
            let i = choose|i: int| 0 <= i < fetched.len() && fetched[i] == item;
            assert(fetched[i].prefix == prefix);
        }
    }
    assert forall|i: int, j: int| 0 <= i < fetched.len() && 0 <= j < fetched.len() && i != j implies fetched[i]
        != fetched[j] by {
        let (x, y) = if i < j {
            (fetched[i], fetched[j])
        } else {
            (fetched[j], fetched[i])
        };
        assert(apart(x, y));
        assert(is_prefix(x.prefix, goal));
        if x == y {
            assert(in_cell(x.prefix, x.depth_bits as nat, x.prefix));
        }
    }
}

/// A round against a peer whose every root is 0 or the same as ours has
/// nothing to look into.
pub proof fn law_nothing_to_pull(local: ForestView, remote: ForestView, roots: Seq<EpochRoot>)
    requires
        remote.lists_roots(root_list(roots)),
        forall|epoch: u32| #[trigger]
            remote.hash(epoch, 0, 0) == 0 || remote.hash(epoch, 0, 0) == local.hash(epoch, 0, 0),
    ensures
        wanted_roots(local, roots).len() == 0,
{
    law_round_starts_on_course(local, remote, 3, roots);
    let work = wanted_roots(local, roots);
    if work.len() > 0 {
        let epoch = work[0].epoch;
        assert(wanted_of(local, remote, epoch, 0, 0));
        assert(remote.hash(epoch, 0, 0) == 0 || remote.hash(epoch, 0, 0) == local.hash(epoch, 0, 0));
    }
}

/// What a round queues of the roots that a peer sends: those, in the order that
/// they came, whose hash is not 0 and is not the root that this node has for
/// the epoch.
pub proof fn law_roots_queued(local: ForestView, roots: Seq<EpochRoot>)
    ensures
        wanted_roots(local, roots) == roots.filter(
            |root: EpochRoot|
                be_value(root.hash@) as u128 != 0 && be_value(root.hash@) as u128 != local.hash(
                    root.epoch,
                    0,
                    0,
                ),
        ).map_values(
            |root: EpochRoot| WorkItem { epoch: root.epoch, depth_bits: 0, prefix: 0 },
        ),
    decreases roots.len(),
{
    reveal(Seq::filter);
    let keep = |root: EpochRoot|
        be_value(root.hash@) as u128 != 0 && be_value(root.hash@) as u128 != local.hash(
            root.epoch,
            0,
            0,
        );
    let item = |root: EpochRoot| WorkItem { epoch: root.epoch, depth_bits: 0, prefix: 0 };
    if roots.len() > 0 {
        law_roots_queued(local, roots.drop_last());
        let rest = roots.drop_last().filter(keep);
        assert(rest.push(roots.last()).map_values(item) =~= rest.map_values(item).push(
            item(roots.last()),
        ));
    }
    assert(wanted_roots(local, roots) =~= roots.filter(keep).map_values(item));
}

/// What a round queues of the children that a peer sends, at whatever depth:
/// those, in the order that they came, whose hash is not 0 and is not the hash
/// that this node has for the same cell.
pub proof fn law_children_queued(
    local: ForestView,
    epoch: u32,
    depth: usize,
    children: Seq<ChildHash>,
)
    ensures
        wanted_children(local, epoch, depth, children) == children.filter(
            |child: ChildHash|
                be_value(child.hash@) as u128 != 0 && be_value(child.hash@) as u128 != local.hash(
                    epoch,
                    depth as nat,
                    child.prefix,
                ),
        ).map_values(
            |child: ChildHash| WorkItem { epoch, depth_bits: depth, prefix: child.prefix },
        ),
    decreases children.len(),
{
    reveal(Seq::filter);
    let keep = |child: ChildHash|
        be_value(child.hash@) as u128 != 0 && be_value(child.hash@) as u128 != local.hash(
            epoch,
            depth as nat,
            child.prefix,
        );
    let item = |child: ChildHash| WorkItem { epoch, depth_bits: depth, prefix: child.prefix };
    if children.len() > 0 {
        law_children_queued(local, epoch, depth, children.drop_last());
        let rest = children.drop_last().filter(keep);
        assert(rest.push(children.last()).map_values(item) =~= rest.map_values(item).push(
            item(children.last()),
        ));
    }
    assert(wanted_children(local, epoch, depth, children) =~= children.filter(keep).map_values(item));
}

/// A round looks into nothing that agrees: of every node that it has queued,
/// and of every leaf that it has fetched, the hashes of the two forests differ,
/// and so do those of every cell around it up to the root; and the peer has
/// something in each.
pub proof fn law_round_skips_what_agrees(
    local: ForestView,
    remote: ForestView,
    goal: nat,
    work: Seq<WorkItem>,
    fetched: Seq<WorkItem>,
    i: int,
    depth: nat,
    prefix: u64,
)
    requires
        goal <= 63,
        on_course(local, remote, goal, work, fetched),
        0 <= i < (work + fetched).len(),
        depth <= (work + fetched)[i].depth_bits,
        depth % 3 == 0,
        prefix == (work + fetched)[i].prefix - (work + fetched)[i].prefix as int % pow2(
            (64 - depth) as nat,
        ) as int,
    ensures
        ({
            let epoch = (work + fetched)[i].epoch;
            &&& remote.hash(epoch, depth, prefix) != local.hash(epoch, depth, prefix)
            &&& remote.hash(epoch, depth, prefix) != 0
        }),
{
    let item = (work + fetched)[i];
    if i < work.len() {
        assert(item == work[i]);
    } else {
        assert(item == fetched[i - work.len()]);
    }
    assert(wanted_path(local, remote, item.epoch, item.depth_bits as nat, item.prefix));
    law_prefix_rounds_down(item.prefix, depth);
    if depth > 0 {
        assert(wanted_of(local, remote, item.epoch, depth, cell_prefix(item.prefix, depth)));
    }
}

/// A finished round has fetched a leaf cell just when the peer has something in
/// it and in every cell around it, and the two forests' hashes differ for each
/// of these.
pub proof fn law_finished_round_fetched_exactly(
    local: ForestView,
    remote: ForestView,
    goal: nat,
    fetched: Seq<WorkItem>,
    epoch: u32,
    prefix: u64,
)
    requires
        is_goal(goal),
        on_course(local, remote, goal, Seq::empty(), fetched),
    ensures
        (exists|i: int|
            0 <= i < fetched.len() && (#[trigger] fetched[i]).epoch == epoch && fetched[i].prefix
                == prefix) <==> (prefix as int % pow2((64 - goal) as nat) as int == 0
            && forall|d: nat, p: u64|
            #![trigger remote.hash(epoch, d, p)]
            d <= goal && d % 3 == 0 && p == prefix - prefix as int % pow2((64 - d) as nat) as int
                ==> remote.hash(epoch, d, p) != 0 && remote.hash(epoch, d, p) != local.hash(
                epoch,
                d,
                p,
            )),
        forall|i: int| 0 <= i < fetched.len() ==> (#[trigger] fetched[i]).depth_bits == goal,
        forall|i: int, j: int|
            0 <= i < j < fetched.len() ==> (#[trigger] fetched[i]).epoch != (
            #[trigger] fetched[j]).epoch || fetched[i].prefix != fetched[j].prefix,
{
    law_finished_round_fetched_what_differs(local, remote, goal, fetched);
    law_prefix_rounds_down(prefix, goal);
    let item = WorkItem { epoch, depth_bits: goal as usize, prefix };
    assert(fetched.contains(item) <==> exists|i: int|
        0 <= i < fetched.len() && (#[trigger] fetched[i]).epoch == epoch && fetched[i].prefix
            == prefix) by {
        if fetched.contains(item) {
            let i = choose|i: int| 0 <= i < fetched.len() && fetched[i] == item;
            assert(fetched[i].epoch == epoch && fetched[i].prefix == prefix);
        }
        if exists|i: int|
            0 <= i < fetched.len() && (#[trigger] fetched[i]).epoch == epoch && fetched[i].prefix
                == prefix {
            let i = choose|i: int|
                0 <= i < fetched.len() && (#[trigger] fetched[i]).epoch == epoch
                    && fetched[i].prefix == prefix;
            assert(fetched[i] == item);
        }
    }
    if wanted_path(local, remote, epoch, goal, prefix) {
        assert forall|d: nat, p: u64|
            #![trigger remote.hash(epoch, d, p)]
            d <= goal && d % 3 == 0 && p == prefix - prefix as int % pow2((64 - d) as nat) as int implies remote.hash(
            epoch,
            d,
            p,
        ) != 0 && remote.hash(epoch, d, p) != local.hash(epoch, d, p) by {
            law_prefix_rounds_down(prefix, d);
            if d > 0 {
                assert(wanted_of(local, remote, epoch, d, cell_prefix(prefix, d)));
            }
        }
    } else if is_prefix(prefix, goal) {
        if wanted_of(local, remote, epoch, 0, 0) {
            let d = choose|d: nat|
                0 < d && is_level(d, goal) && !wanted_of(
                    local,
                    remote,
                    epoch,
                    d,
                    #[trigger] cell_prefix(prefix, d),
                );
            law_prefix_rounds_down(prefix, d);
            let p = cell_prefix(prefix, d);
            assert(remote.hash(epoch, d, p) == 0 || remote.hash(epoch, d, p) == local.hash(
                epoch,
                d,
                p,
            ));
        } else {
            law_prefix_rounds_down(prefix, 0);
            assert(remote.hash(epoch, 0, 0) == 0 || remote.hash(epoch, 0, 0) == local.hash(
                epoch,
                0,
                0,
            ));
        }
    }
    assert forall|i: int, j: int| 0 <= i < j < fetched.len() implies (#[trigger] fetched[i]).epoch
        != (#[trigger] fetched[j]).epoch || fetched[i].prefix != fetched[j].prefix by {
        assert(fetched[i] != fetched[j]);
    }
}

} // verus!
