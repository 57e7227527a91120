//! The pulling side of a sync round.
//!
//! A round compares epoch roots, descends only into divergent octants, and
//! fetches the rows of divergent leaf cells. [`SyncRound`] decides what to ask
//! the peer for next; its caller asks, and hands back what the peer answers.

use crate::bytes::be_value;
use crate::cell::{is_level, last_code};
use crate::forest::MerkleForest;
use crate::key::{key_bytes, key_from_bytes, leaf_key_range};
use crate::laws_round::{law_children_queued, law_roots_queued};
use crate::model::ForestView;
use crate::tree::NodeHash;
use crate::wire::{
    hash_from_bytes, hash_value, ChildHash, EpochRoot, SyncChildrenRequest, SyncChildrenResponse,
    SyncError, SyncFetchRequest, SyncRootsResponse, MERKLE_LEAF_DEPTH_BITS,
};
use std::collections::VecDeque;
use vstd::prelude::*;

verus! {

/// Outcome of one pull round against one peer.
#[derive(Debug, Clone, Copy, PartialEq, Eq)]
pub struct SyncStats {
    /// Divergent leaf cells fetched.
    pub leaves_fetched: usize,
    /// Rows the peer shipped (including ones we already had).
    pub rows_received: u64,
    /// Rows that actually changed this store.
    pub rows_applied: u64,
}

impl Default for SyncStats {
    fn default() -> (stats: SyncStats)
        ensures
            stats == (SyncStats { leaves_fetched: 0, rows_received: 0, rows_applied: 0 }),
    {
        SyncStats { leaves_fetched: 0, rows_received: 0, rows_applied: 0 }
    }
}

/// A divergent tree node that the round has yet to look into.
#[derive(Debug, Clone, Copy, PartialEq, Eq)]
pub struct WorkItem {
    pub epoch: u32,
    pub depth_bits: usize,
    pub prefix: u64,
}

/// What a round is: the depth it descends to, the nodes that it has yet to
/// look into, in the order that it will, and what it has done so far.
#[verifier::ext_equal]
pub struct RoundView {
    pub descend_to: nat,
    pub work: Seq<WorkItem>,
    pub stats: SyncStats,
}

/// Whether a node is worth looking into: the peer's hash differs from ours and
/// is not 0. Cells that the peer doesn't have contain nothing to pull.
pub open spec fn wanted(local: ForestView, epoch: u32, depth: nat, prefix: u64, theirs: u128) -> bool {
    theirs != 0 && theirs != local.hash(epoch, depth, prefix)
}

/// The nodes worth looking into among the roots of a reply.
pub open spec fn wanted_roots(local: ForestView, roots: Seq<EpochRoot>) -> Seq<WorkItem>
    decreases roots.len(),
{
    if roots.len() == 0 {
        Seq::empty()
    } else {
        let before = wanted_roots(local, roots.drop_last());
        let root = roots.last();
        if wanted(local, root.epoch, 0, 0, hash_value(root.hash@)) {
            before.push(WorkItem { epoch: root.epoch, depth_bits: 0, prefix: 0 })
        } else {
            before
        }
    }
}

/// The nodes worth looking into among the children of a reply, which are at
/// depth `depth` of `epoch`.
pub open spec fn wanted_children(
    local: ForestView,
    epoch: u32,
    depth: usize,
    children: Seq<ChildHash>,
) -> Seq<WorkItem>
    decreases children.len(),
{
    if children.len() == 0 {
        Seq::empty()
    } else {
        let before = wanted_children(local, epoch, depth, children.drop_last());
        let child = children.last();
        if wanted(local, epoch, depth as nat, child.prefix, hash_value(child.hash@)) {
            before.push(WorkItem { epoch, depth_bits: depth, prefix: child.prefix })
        } else {
            before
        }
    }
}

/// Whether every root of a reply has a hash of the right length.
pub open spec fn roots_readable(roots: Seq<EpochRoot>) -> bool {
    forall|i: int| 0 <= i < roots.len() ==> (#[trigger] roots[i]).hash@.len() == 16
}

/// Whether every child of a reply has a hash of the right length.
pub open spec fn children_readable(children: Seq<ChildHash>) -> bool {
    forall|i: int| 0 <= i < children.len() ==> (#[trigger] children[i]).hash@.len() == 16
}

/// Why a round cannot start from a reply; `None` if it can.
pub open spec fn start_error(leaf_depth_bits: u32, roots: Seq<EpochRoot>) -> Option<SyncError> {
    if leaf_depth_bits < 3 || leaf_depth_bits % 3 != 0 {
        Some(SyncError::LeafDepth { leaf_depth_bits })
    } else if !roots_readable(roots) {
        Some(SyncError::HashLength)
    } else {
        None
    }
}

/// The depth that a round descends to: the shallower of the two nodes' leaves.
pub open spec fn shallower(leaf_depth_bits: u32) -> nat {
    if leaf_depth_bits <= MERKLE_LEAF_DEPTH_BITS {
        leaf_depth_bits as nat
    } else {
        MERKLE_LEAF_DEPTH_BITS as nat
    }
}

/// Whether a round can descend to a depth.
pub open spec fn is_goal(depth: nat) -> bool {
    3 <= depth <= MERKLE_LEAF_DEPTH_BITS && depth % 3 == 0
}

/// One pull round: fetches everything the peer has that this store lacks.
///
/// Cost is proportional to the divergence, not the data: matching subtrees
/// are skipped at the highest level where their hashes agree. Descends to the
/// shallower of the two nodes' leaf depths (hashes are structure-independent,
/// so mixed depths compare correctly). Works through divergent nodes
/// breadth-first.
#[derive(Debug)]
pub struct SyncRound {
    descend_to: usize,
    work: VecDeque<WorkItem>,
    stats: SyncStats,
}

/// What a round needs next.
#[derive(Debug)]
pub enum Step {
    /// The children of a divergent node.
    Children(Descent),
    /// The rows of a divergent leaf cell.
    Fetch(LeafFetch),
    /// Nothing more: the round is over.
    Done(SyncStats),
}

/// A round that waits for the children of a divergent node.
#[derive(Debug)]
pub struct Descent {
    round: SyncRound,
    item: WorkItem,
}

/// A round that waits for the rows of a divergent leaf cell.
#[derive(Debug)]
pub struct LeafFetch {
    round: SyncRound,
    item: WorkItem,
}

impl View for SyncRound {
    type V = RoundView;

    closed spec fn view(&self) -> RoundView {
        RoundView { descend_to: self.descend_to as nat, work: self.work@, stats: self.stats }
    }
}

impl SyncRound {
    #[verifier::type_invariant]
    spec fn inv(&self) -> bool {
        &&& is_goal(self.descend_to as nat)
        &&& forall|i: int|
            0 <= i < self.work@.len() ==> is_level(
                (#[trigger] self.work@[i]).depth_bits as nat,
                self.descend_to as nat,
            )
        &&& self.stats.rows_applied <= self.stats.rows_received
    }

    /// Starts a round from the peer's roots.
    pub fn start(local: &MerkleForest, reply: &SyncRootsResponse) -> (round: Result<
        SyncRound,
        SyncError,
    >)
        requires
            local@.leaf == MERKLE_LEAF_DEPTH_BITS,
        ensures
            match start_error(reply.leaf_depth_bits, reply.roots@) {
                Some(error) => round == Err::<SyncRound, SyncError>(error),
                None => {
                    &&& round matches Ok(started)
                    &&& started@ == (RoundView {
                        descend_to: shallower(reply.leaf_depth_bits),
                        work: wanted_roots(local@, reply.roots@),
                        stats: SyncStats { leaves_fetched: 0, rows_received: 0, rows_applied: 0 },
                    })
                },
            },
            round is Ok <==> reply.leaf_depth_bits >= 3 && reply.leaf_depth_bits % 3 == 0
                && forall|i: int|
                0 <= i < reply.roots@.len() ==> (#[trigger] reply.roots@[i]).hash@.len() == 16,
            reply.leaf_depth_bits < 3 || reply.leaf_depth_bits % 3 != 0 ==> round == Err::<
                SyncRound,
                SyncError,
            >(SyncError::LeafDepth { leaf_depth_bits: reply.leaf_depth_bits }),
            round matches Err(error) ==> (error == SyncError::HashLength <==> (
            reply.leaf_depth_bits >= 3 && reply.leaf_depth_bits % 3 == 0)),
            round matches Ok(started) ==> started@.work == reply.roots@.filter(
                |root: EpochRoot|
                    be_value(root.hash@) as u128 != 0 && be_value(root.hash@) as u128
                        != local@.hash(root.epoch, 0, 0),
            ).map_values(
                |root: EpochRoot| WorkItem { epoch: root.epoch, depth_bits: 0, prefix: 0 },
            ),
            round matches Ok(started) ==> started@.descend_to == (if reply.leaf_depth_bits < 15 {
                reply.leaf_depth_bits as int
            } else {
                15
            }),
    {
        let remote_leaf: u32 = reply.leaf_depth_bits;
        if remote_leaf < 3 || remote_leaf % 3 != 0 {
            return Err(SyncError::LeafDepth { leaf_depth_bits: remote_leaf });
        }
        let descend_to: usize = if remote_leaf <= MERKLE_LEAF_DEPTH_BITS as u32 {
            remote_leaf as usize
        } else {
            MERKLE_LEAF_DEPTH_BITS
        };
        let mut work: VecDeque<WorkItem> = VecDeque::new();
        let mut i: usize = 0;
        assert(reply.roots@.take(0) =~= Seq::<EpochRoot>::empty());
        while i < reply.roots.len()
            invariant
                i <= reply.roots@.len(),
                remote_leaf == reply.leaf_depth_bits,
                !(remote_leaf < 3 || remote_leaf % 3 != 0),
                local@.leaf == MERKLE_LEAF_DEPTH_BITS,
                roots_readable(reply.roots@.take(i as int)),
                work@ == wanted_roots(local@, reply.roots@.take(i as int)),
                forall|j: int| 0 <= j < work@.len() ==> (#[trigger] work@[j]).depth_bits == 0,
            decreases reply.roots@.len() - i,
        {
            let root: &EpochRoot = &reply.roots[i];
            let theirs: NodeHash = match hash_from_bytes(root.hash.as_slice()) {
                Ok(hash) => hash,
                Err(error) => {
                    assert(reply.roots@[i as int].hash@.len() != 16);
                    return Err(error);
                },
            };
            assert(reply.roots@.take(i + 1).drop_last() =~= reply.roots@.take(i as int));
            if theirs != 0 && theirs != local.node_hash(root.epoch, 0, 0) {
                work.push_back(WorkItem { epoch: root.epoch, depth_bits: 0, prefix: 0 });
            }
            assert forall|j: int| 0 <= j < i + 1 implies (#[trigger] reply.roots@.take(i + 1)[j]).hash@.len()
                == 16 by {
                if j < i {
                    assert(reply.roots@.take(i as int)[j].hash@.len() == 16);
                }
            }
            i = i + 1;
        }
        proof {
            assert(reply.roots@.take(reply.roots@.len() as int) =~= reply.roots@);
            law_roots_queued(local@, reply.roots@);
        }
        Ok(SyncRound { descend_to, work, stats: SyncStats::default() })
    }

    /// What the round needs next.
    pub fn next(self) -> (step: Step)
        requires
            self@.stats.leaves_fetched < usize::MAX,
        ensures
            self@.stats.rows_applied <= self@.stats.rows_received,
            if self@.work.len() == 0 {
                step == Step::Done(self@.stats)
            } else {
                let item = self@.work[0];
                let rest = self@.work.subrange(1, self@.work.len() as int);
                if item.depth_bits == self@.descend_to {
                    &&& step matches Step::Fetch(fetch)
                    &&& fetch.item() == item
                    &&& fetch.round() == (RoundView {
                        work: rest,
                        stats: SyncStats {
                            leaves_fetched: (self@.stats.leaves_fetched + 1) as usize,
                            ..self@.stats
                        },
                        ..self@
                    })
                } else {
                    &&& step matches Step::Children(descent)
                    &&& descent.item() == item
                    &&& descent.round() == (RoundView { work: rest, ..self@ })
                }
            },
    {
        proof {
            use_type_invariant(&self);
        }
        let SyncRound { descend_to, work: queue, stats } = self;
        let mut work: VecDeque<WorkItem> = queue;
        match work.pop_front() {
            None => Step::Done(stats),
            Some(item) => {
                if item.depth_bits == descend_to {
                    let more: SyncStats = SyncStats {
                        leaves_fetched: stats.leaves_fetched + 1,
                        rows_received: stats.rows_received,
                        rows_applied: stats.rows_applied,
                    };
                    Step::Fetch(LeafFetch { round: SyncRound { descend_to, work, stats: more }, item })
                } else {
                    Step::Children(Descent { round: SyncRound { descend_to, work, stats }, item })
                }
            },
        }
    }

    /// What the round has done so far.
    pub fn stats(&self) -> (stats: SyncStats)
        ensures
            stats == self@.stats,
            stats.rows_applied <= stats.rows_received,
    {
        proof {
            use_type_invariant(self);
        }
        self.stats
    }
}

impl Descent {
    /// The round, without the node that it looks into.
    pub closed spec fn round(&self) -> RoundView {
        self.round@
    }

    /// The node that the round looks into.
    pub closed spec fn item(&self) -> WorkItem {
        self.item
    }

    #[verifier::type_invariant]
    spec fn inv(&self) -> bool {
        &&& is_goal(self.round@.descend_to)
        &&& is_level(self.item.depth_bits as nat, self.round@.descend_to)
        &&& self.item.depth_bits < self.round@.descend_to
    }

    /// What to ask the peer for.
    pub fn request(&self) -> (request: SyncChildrenRequest)
        ensures
            request.epoch == self.item().epoch,
            request.depth_bits == self.item().depth_bits,
            request.prefix == self.item().prefix,
            request.depth_bits % 3 == 0,
            request.depth_bits + 3 <= self.round().descend_to <= MERKLE_LEAF_DEPTH_BITS,
    {
        proof {
            use_type_invariant(self);
        }
        SyncChildrenRequest {
            epoch: self.item.epoch,
            depth_bits: self.item.depth_bits as u32,
            prefix: self.item.prefix,
        }
    }

    /// Goes on from the peer's reply.
    pub fn reply(self, local: &MerkleForest, reply: &SyncChildrenResponse) -> (round: Result<
        SyncRound,
        SyncError,
    >)
        requires
            local@.leaf == MERKLE_LEAF_DEPTH_BITS,
        ensures
            if children_readable(reply.children@) {
                &&& round matches Ok(next)
                &&& next@ == (RoundView {
                    work: self.round().work + wanted_children(
                        local@,
                        self.item().epoch,
                        (self.item().depth_bits + 3) as usize,
                        reply.children@,
                    ),
                    ..self.round()
                })
            } else {
                round == Err::<SyncRound, SyncError>(SyncError::HashLength)
            },
            round is Ok <==> forall|i: int|
                0 <= i < reply.children@.len() ==> (#[trigger] reply.children@[i]).hash@.len() == 16,
            round matches Ok(next) ==> next@.work == self.round().work + reply.children@.filter(
                |child: ChildHash|
                    be_value(child.hash@) as u128 != 0 && be_value(child.hash@) as u128
                        != local@.hash(
                        self.item().epoch,
                        ((self.item().depth_bits + 3) as usize) as nat,
                        child.prefix,
                    ),
            ).map_values(
                |child: ChildHash|
                    WorkItem {
                        epoch: self.item().epoch,
                        depth_bits: (self.item().depth_bits + 3) as usize,
                        prefix: child.prefix,
                    },
            ),
    {
        proof {
            use_type_invariant(&self);
            use_type_invariant(&self.round);
        }
        let ghost before = self.round();
        let Descent { round: SyncRound { descend_to, work: queue, stats }, item } = self;
        let epoch: u32 = item.epoch;
        let depth: usize = item.depth_bits + 3;
        let mut work: VecDeque<WorkItem> = queue;
        let mut i: usize = 0;
        assert(reply.children@.take(0) =~= Seq::<ChildHash>::empty());
        assert(before.work + wanted_children(local@, epoch, depth, reply.children@.take(0))
            =~= before.work);
        while i < reply.children.len()
            invariant
                i <= reply.children@.len(),
                local@.leaf == MERKLE_LEAF_DEPTH_BITS,
                is_goal(descend_to as nat),
                is_level(depth as nat, descend_to as nat),
                children_readable(reply.children@.take(i as int)),
                work@ == before.work + wanted_children(
                    local@,
                    epoch,
                    depth,
                    reply.children@.take(i as int),
                ),
                forall|j: int|
                    0 <= j < work@.len() ==> is_level(
                        (#[trigger] work@[j]).depth_bits as nat,
                        descend_to as nat,
                    ),
            decreases reply.children@.len() - i,
        {
            let child: &ChildHash = &reply.children[i];
            let theirs: NodeHash = match hash_from_bytes(child.hash.as_slice()) {
                Ok(hash) => hash,
                Err(error) => {
                    assert(reply.children@[i as int].hash@.len() != 16);
                    return Err(error);
                },
            };
            let ghost old_work = work@;
            assert(reply.children@.take(i + 1).drop_last() =~= reply.children@.take(i as int));
            if theirs != 0 && theirs != local.node_hash(epoch, depth, child.prefix) {
                work.push_back(WorkItem { epoch, depth_bits: depth, prefix: child.prefix });
            }
            assert(work@ =~= before.work + wanted_children(
                local@,
                epoch,
                depth,
                reply.children@.take(i + 1),
            ));
            assert forall|j: int| 0 <= j < i + 1 implies (#[trigger] reply.children@.take(
                i + 1,
            )[j]).hash@.len() == 16 by {
                if j < i {
                    assert(reply.children@.take(i as int)[j].hash@.len() == 16);
                }
            }
            i = i + 1;
        }
        proof {
            assert(reply.children@.take(reply.children@.len() as int) =~= reply.children@);
            law_children_queued(local@, epoch, depth, reply.children@);
        }
        Ok(SyncRound { descend_to, work, stats })
    }
}

impl LeafFetch {
    /// The round, without the leaf cell whose rows it waits for.
    pub closed spec fn round(&self) -> RoundView {
        self.round@
    }

    /// The leaf cell whose rows the round waits for.
    pub closed spec fn item(&self) -> WorkItem {
        self.item
    }

    #[verifier::type_invariant]
    spec fn inv(&self) -> bool {
        &&& is_goal(self.round@.descend_to)
        &&& self.item.depth_bits == self.round@.descend_to
    }

    /// What to ask the peer for: the rows of the leaf cell's key range.
    pub fn request(&self) -> (request: SyncFetchRequest)
        ensures
            request.start_key@ == key_bytes(self.item().epoch, self.item().prefix, 0),
            request.end_key@ == key_bytes(
                self.item().epoch,
                last_code(self.item().prefix, self.item().depth_bits as nat),
                u64::MAX,
            ),
    {
        proof {
            use_type_invariant(self);
        }
        let (start, end) = leaf_key_range(self.item.epoch, self.item.prefix, self.item.depth_bits);
        let mut start_key: Vec<u8> = Vec::new();
        start_key.extend_from_slice(start.as_slice());
        let mut end_key: Vec<u8> = Vec::new();
        end_key.extend_from_slice(end.as_slice());
        assert(start_key@ =~= start@);
        assert(end_key@ =~= end@);
        SyncFetchRequest { start_key, end_key }
    }

    /// The key of a row that the peer sent.
    pub fn row_key(key: &[u8]) -> (parsed: Result<[u8; 20], SyncError>)
        ensures
            match parsed {
                Ok(bytes) => key@.len() == 20 && bytes@ == key@,
                Err(error) => key@.len() != 20 && error == SyncError::RowKey,
            },
    {
        match key_from_bytes(key) {
            Some(bytes) => Ok(bytes),
            None => Err(SyncError::RowKey),
        }
    }

    /// Counts a row that the store has taken in; `applied` says whether it
    /// changed the store.
    pub fn row_merged(&mut self, applied: bool)
        requires
            old(self).round().stats.rows_received < u64::MAX,
        ensures
            final(self).item() == old(self).item(),
            final(self).round() == (RoundView {
                stats: SyncStats {
                    rows_received: (old(self).round().stats.rows_received + 1) as u64,
                    rows_applied: if applied {
                        (old(self).round().stats.rows_applied + 1) as u64
                    } else {
                        old(self).round().stats.rows_applied
                    },
                    ..old(self).round().stats
                },
                ..old(self).round()
            }),
            final(self).round().stats.rows_applied == old(self).round().stats.rows_applied + (
            if applied {
                1int
            } else {
                0int
            }),
            final(self).round().stats.rows_applied <= final(self).round().stats.rows_received,
    {
        proof {
            use_type_invariant(&*self);
            use_type_invariant(&self.round);
        }
        let before: SyncStats = self.round.stats;
        let rows_applied: u64 = if applied {
            before.rows_applied + 1
        } else {
            before.rows_applied
        };
        self.round.stats = SyncStats {
            leaves_fetched: before.leaves_fetched,
            rows_received: before.rows_received + 1,
            rows_applied,
        };
    }

    /// What the round has done so far.
    pub fn stats(&self) -> (stats: SyncStats)
        ensures
            stats == self.round().stats,
            stats.rows_applied <= stats.rows_received,
    {
        proof {
            use_type_invariant(&self.round);
        }
        self.round.stats
    }

    /// Goes on once the peer has sent all rows.
    pub fn finish(self) -> (round: SyncRound)
        ensures
            round@ == self.round(),
    {
        self.round
    }
}

} // verus!
