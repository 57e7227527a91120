//! The serving side of a sync round.

use crate::bytes::{be_value, lemma_be_value_bound, lemma_spans};
use crate::cell::is_level;
use crate::forest::MerkleForest;
use crate::key::{key_from_bytes, key_le, lemma_lex_is_numeric, lex_le};
use crate::model::ForestView;
use crate::tree::NodeHash;
use crate::wire::{
    hash_bytes, hash_value, law_hash_is_read_as_written, ChildHash, EpochRoot, SyncChildrenRequest,
    SyncChildrenResponse, SyncError, SyncFetchRequest, SyncRootsResponse, MERKLE_LEAF_DEPTH_BITS,
};
use vstd::prelude::*;

verus! {

/// Read-only facade over one node's Merkle forest.
pub struct SyncService<'a> {
    forest: &'a MerkleForest,
}

/// The epochs and root hashes of a reply.
pub open spec fn root_list(roots: Seq<EpochRoot>) -> Seq<(u32, u128)> {
    roots.map_values(|root: EpochRoot| (root.epoch, hash_value(root.hash@)))
}

/// The prefixes and hashes of a reply.
pub open spec fn child_list(children: Seq<ChildHash>) -> Seq<(u64, u128)> {
    children.map_values(|child: ChildHash| (child.prefix, hash_value(child.hash@)))
}

/// Why a request for children is refused; `None` if it is not.
pub open spec fn children_error(depth_bits: u32) -> Option<SyncError> {
    if depth_bits % 3 != 0 || depth_bits + 3 > MERKLE_LEAF_DEPTH_BITS {
        Some(SyncError::ChildDepth)
    } else {
        None
    }
}

/// Why a request for rows is refused; `None` if it is not.
pub open spec fn fetch_error(start: Seq<u8>, end: Seq<u8>) -> Option<SyncError> {
    if start.len() != 20 {
        Some(SyncError::StartKeyLength)
    } else if end.len() != 20 {
        Some(SyncError::EndKeyLength)
    } else if !lex_le(start, end) {
        Some(SyncError::KeyOrder)
    } else {
        None
    }
}

/// Sixteen bytes are a hash whole.
proof fn lemma_sixteen_bytes(bytes: Seq<u8>)
    requires
        bytes.len() == 16,
    ensures
        be_value(bytes) == hash_value(bytes),
{
    lemma_be_value_bound(bytes);
    lemma_spans();
}

/// What a list of roots says, once sent.
proof fn lemma_roots_sent(forest: ForestView, roots: Seq<EpochRoot>)
    requires
        forest.lists_roots(root_list(roots)),
        forall|i: int| 0 <= i < roots.len() ==> (#[trigger] roots[i]).hash@.len() == 16,
    ensures
        forall|i: int, j: int| 0 <= i < j < roots.len() ==> roots[i].epoch < roots[j].epoch,
        forall|i: int|
            0 <= i < roots.len() ==> be_value((#[trigger] roots[i]).hash@) == forest.hash(
                roots[i].epoch,
                0,
                0,
            ),
        forall|i: int|
            0 <= i < roots.len() ==> forest.hash((#[trigger] roots[i]).epoch, 0, 0) != 0,
        forall|e: u32|
            (#[trigger] forest.hash(e, 0, 0)) != 0 ==> exists|i: int|
                0 <= i < roots.len() && (#[trigger] roots[i]).epoch == e,
{
    let list = root_list(roots);
    assert forall|i: int| 0 <= i < roots.len() implies #[trigger] list[i] == (
        roots[i].epoch,
        hash_value(roots[i].hash@),
    ) by {}
    assert forall|i: int, j: int| 0 <= i < j < roots.len() implies roots[i].epoch < roots[j].epoch by {
        assert(list[i].0 < list[j].0);
    }
    assert forall|i: int| 0 <= i < roots.len() implies be_value((#[trigger] roots[i]).hash@)
        == forest.hash(roots[i].epoch, 0, 0) by {
        assert(list[i].1 == forest.hash(list[i].0, 0, 0));
        lemma_sixteen_bytes(roots[i].hash@);
    }
    assert forall|i: int| 0 <= i < roots.len() implies forest.hash(
        (#[trigger] roots[i]).epoch,
        0,
        0,
    ) != 0 by {
        assert(list[i].1 != 0);
    }
    assert forall|e: u32| (#[trigger] forest.hash(e, 0, 0)) != 0 implies exists|i: int|
        0 <= i < roots.len() && (#[trigger] roots[i]).epoch == e by {
        let x = (e, forest.hash(e, 0, 0));
        assert(list.contains(x));
        let i = choose|i: int| 0 <= i < list.len() && list[i] == x;
        assert(roots[i].epoch == e);
    }
}

impl<'a> SyncService<'a> {
    /// The forest served.
    pub closed spec fn forest(&self) -> ForestView {
        self.forest@
    }

    #[verifier::type_invariant]
    spec fn inv(&self) -> bool {
        self.forest@.leaf == MERKLE_LEAF_DEPTH_BITS
    }

    /// Serves a node's forest.
    pub fn new(forest: &'a MerkleForest) -> (service: SyncService<'a>)
        requires
            forest@.leaf == MERKLE_LEAF_DEPTH_BITS,
        ensures
            service.forest() == forest@,
    {
        SyncService { forest }
    }

    /// Per-epoch root hashes, and the depth of this node's leaves.
    pub fn roots(&self) -> (reply: SyncRootsResponse)
        ensures
            self.forest().lists_roots(root_list(reply.roots@)),
            forall|i: int| 0 <= i < reply.roots@.len() ==> (#[trigger] reply.roots@[i]).hash@.len() == 16,
            forall|i: int, j: int|
                0 <= i < j < reply.roots@.len() ==> reply.roots@[i].epoch < reply.roots@[j].epoch,
            forall|i: int|
                0 <= i < reply.roots@.len() ==> be_value((#[trigger] reply.roots@[i]).hash@)
                    == self.forest().hash(reply.roots@[i].epoch, 0, 0),
            forall|i: int|
                0 <= i < reply.roots@.len() ==> self.forest().hash(
                    (#[trigger] reply.roots@[i]).epoch,
                    0,
                    0,
                ) != 0,
            forall|e: u32|
                (#[trigger] self.forest().hash(e, 0, 0)) != 0 ==> exists|i: int|
                    0 <= i < reply.roots@.len() && (#[trigger] reply.roots@[i]).epoch == e,
            reply.leaf_depth_bits == self.forest().leaf,
            reply.leaf_depth_bits == MERKLE_LEAF_DEPTH_BITS,
    {
        proof {
            use_type_invariant(self);
        }
        let list: Vec<(u32, NodeHash)> = self.forest.epoch_roots();
        let mut roots: Vec<EpochRoot> = Vec::new();
        let mut i: usize = 0;
        while i < list.len()
            invariant
                i <= list@.len(),
                root_list(roots@) == list@.take(i as int),
                forall|j: int| 0 <= j < roots@.len() ==> (#[trigger] roots@[j]).hash@.len() == 16,
            decreases list@.len() - i,
        {
            let (epoch, hash) = list[i];
            let ghost before = roots@;
            roots.push(EpochRoot { epoch, hash: hash_bytes(hash) });
            proof {
                law_hash_is_read_as_written(hash);
                assert(root_list(roots@) =~= root_list(before).push((epoch, hash)));
                assert(list@.take(i + 1) =~= list@.take(i as int).push((epoch, hash)));
            }
            i = i + 1;
        }
        proof {
            assert(list@.take(list@.len() as int) =~= list@);
        }
        let reply = SyncRootsResponse { roots, leaf_depth_bits: MERKLE_LEAF_DEPTH_BITS as u32 };
        proof {
            lemma_roots_sent(self.forest(), reply.roots@);
        }
        reply
    }

    /// The non-empty children of one tree node.
    pub fn children(&self, request: SyncChildrenRequest) -> (reply: Result<
        SyncChildrenResponse,
        SyncError,
    >)
        ensures
            match children_error(request.depth_bits) {
                Some(error) => reply == Err::<SyncChildrenResponse, SyncError>(error),
                None => {
                    &&& reply matches Ok(listed)
                    &&& child_list(listed.children@) == self.forest().children(
                        request.epoch,
                        request.depth_bits as nat,
                        request.prefix,
                        8,
                    )
                    &&& forall|i: int|
                        0 <= i < listed.children@.len() ==> (#[trigger] listed.children@[i]).hash@.len()
                            == 16
                },
            },
            reply matches Ok(listed) ==> {
                let held = self.forest().children(
                    request.epoch,
                    request.depth_bits as nat,
                    request.prefix,
                    8,
                );
                &&& listed.children@.len() == held.len()
                &&& forall|i: int|
                    0 <= i < held.len() ==> (#[trigger] listed.children@[i]).prefix == held[i].0
                        && be_value(listed.children@[i].hash@) == held[i].1
            },
            reply is Ok <==> request.depth_bits % 3 == 0 && request.depth_bits + 3 <= 15,
            reply matches Err(error) ==> error == SyncError::ChildDepth,
    {
        proof {
            use_type_invariant(self);
        }
        if request.depth_bits % 3 != 0 || request.depth_bits as u64 + 3 > MERKLE_LEAF_DEPTH_BITS as u64 {
            return Err(SyncError::ChildDepth);
        }
        let depth: usize = request.depth_bits as usize;
        assert(is_level((depth + 3) as nat, self.forest@.leaf));
        let list: Vec<(u64, NodeHash)> = self.forest.child_hashes(
            request.epoch,
            depth,
            request.prefix,
        );
        let mut children: Vec<ChildHash> = Vec::new();
        let mut i: usize = 0;
        while i < list.len()
            invariant
                i <= list@.len(),
                child_list(children@) == list@.take(i as int),
                forall|j: int| 0 <= j < children@.len() ==> (#[trigger] children@[j]).hash@.len() == 16,
            decreases list@.len() - i,
        {
            let (prefix, hash) = list[i];
            let ghost before = children@;
            children.push(ChildHash { prefix, hash: hash_bytes(hash) });
            proof {
                law_hash_is_read_as_written(hash);
                assert(child_list(children@) =~= child_list(before).push((prefix, hash)));
                assert(list@.take(i + 1) =~= list@.take(i as int).push((prefix, hash)));
            }
            i = i + 1;
        }
        proof {
            assert(list@.take(list@.len() as int) =~= list@);
            assert forall|i: int| 0 <= i < children@.len() implies (#[trigger] children@[i]).prefix
                == list@[i].0 && be_value(children@[i].hash@) == list@[i].1 by {
                assert(child_list(children@)[i] == list@[i]);
                lemma_sixteen_bytes(children@[i].hash@);
            }
        }
        Ok(SyncChildrenResponse { children })
    }

    /// The key range that a request for rows asks for, both ends included.
    pub fn fetch(request: &SyncFetchRequest) -> (range: Result<([u8; 20], [u8; 20]), SyncError>)
        ensures
            match fetch_error(request.start_key@, request.end_key@) {
                Some(error) => range == Err::<([u8; 20], [u8; 20]), SyncError>(error),
                None => {
                    &&& range matches Ok(keys)
                    &&& keys.0@ == request.start_key@
                    &&& keys.1@ == request.end_key@
                },
            },
            range is Ok <==> request.start_key@.len() == 20 && request.end_key@.len() == 20
                && be_value(request.start_key@) <= be_value(request.end_key@),
            range matches Err(error) ==> {
                &&& error == SyncError::StartKeyLength <==> request.start_key@.len() != 20
                &&& error == SyncError::EndKeyLength <==> request.start_key@.len() == 20
                    && request.end_key@.len() != 20
                &&& error == SyncError::KeyOrder <==> request.start_key@.len() == 20
                    && request.end_key@.len() == 20
            },
    {
        let start: [u8; 20] = match key_from_bytes(request.start_key.as_slice()) {
            Some(key) => key,
            None => {
                return Err(SyncError::StartKeyLength);
            },
        };
        let end: [u8; 20] = match key_from_bytes(request.end_key.as_slice()) {
            Some(key) => key,
            None => {
                return Err(SyncError::EndKeyLength);
            },
        };
        proof {
            lemma_lex_is_numeric(start@, end@);
        }
        if !key_le(&start, &end) {
            return Err(SyncError::KeyOrder);
        }
        Ok((start, end))
    }
}

} // verus!
