//! Taking in rows from a peer.
//!
//! Observations are immutable, so two stores merge by set union: order-free
//! and idempotent. The one conflict, the same key with different payloads, is
//! settled by the digests: the payload with the larger one wins on every node.

use crate::digest::{hashable, item_digest, item_hash};
use crate::forest::MerkleForest;
use crate::key::{key_epoch, key_morton};
use crate::model::ForestView;
use crate::tree::NodeHash;
use vstd::prelude::*;

verus! {

/// What a store holds: a payload per key.
pub type Rows = Map<Seq<u8>, Seq<u8>>;

/// Whether a payload wins over the one held under the same key.
pub open spec fn prevails(key: Seq<u8>, payload: Seq<u8>, held: Seq<u8>) -> bool {
    item_hash(key, payload) > item_hash(key, held)
}

/// The payload that a store holds under a key once it has taken one in.
pub open spec fn settled(key: Seq<u8>, held: Seq<u8>, payload: Seq<u8>) -> Seq<u8> {
    if prevails(key, payload, held) {
        payload
    } else {
        held
    }
}

/// Whether a row changes what a store holds.
pub open spec fn applies(rows: Rows, key: Seq<u8>, payload: Seq<u8>) -> bool {
    rows.contains_key(key) ==> prevails(key, payload, rows[key])
}

/// What a store holds once it has taken a row in.
pub open spec fn ingested(rows: Rows, key: Seq<u8>, payload: Seq<u8>) -> Rows {
    rows.insert(
        key,
        if rows.contains_key(key) {
            settled(key, rows[key], payload)
        } else {
            payload
        },
    )
}

/// The forest once a row has been taken in, where `held` is the payload that
/// the store held under its key.
pub open spec fn refolded(
    forest: ForestView,
    key: Seq<u8>,
    held: Option<Seq<u8>>,
    payload: Seq<u8>,
) -> ForestView {
    let epoch = key_epoch(key);
    let morton = key_morton(key);
    let digest = item_hash(key, payload);
    match held {
        None => forest.inserted(epoch, morton, digest),
        Some(old_payload) => if prevails(key, payload, old_payload) {
            forest.removed(epoch, morton, item_hash(key, old_payload)).inserted(
                epoch,
                morton,
                digest,
            )
        } else {
            forest
        },
    }
}

/// Takes a row from a peer into the forest, where `held` is the payload that
/// the store holds under its key. Says whether the store is to hold the new
/// payload: a duplicate, or a payload that loses, changes nothing.
pub fn ingest(
    forest: &mut MerkleForest,
    key: &[u8; 20],
    held: Option<&Vec<u8>>,
    payload: &[u8],
) -> (applied: bool)
    requires
        hashable(20 + payload@.len()),
        held matches Some(old_payload) ==> hashable(20 + old_payload@.len()),
        held is None ==> old(forest)@.tree(key_epoch(key@)).count < u64::MAX,
    ensures
        applied == (held matches Some(old_payload) ==> prevails(key@, payload@, old_payload@)),
        applied == (held matches Some(old_payload) ==> item_hash(key@, payload@) > item_hash(
            key@,
            old_payload@,
        )),
        !applied ==> final(forest)@ == old(forest)@,
        final(forest)@ == refolded(
            old(forest)@,
            key@,
            match held {
                Some(old_payload) => Some(old_payload@),
                None => None,
            },
            payload@,
        ),
{
    match held {
        None => {
            forest.insert(key, payload);
            true
        },
        Some(old_payload) => {
            let ours: NodeHash = item_digest(key, old_payload.as_slice());
            let theirs: NodeHash = item_digest(key, payload);
            if theirs > ours {
                forest.remove(key, old_payload.as_slice());
                forest.insert(key, payload);
                true
            } else {
                false
            }
        },
    }
}

} // verus!
