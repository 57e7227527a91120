//! What peers send each other in a sync round, and what can be wrong with it.

use crate::bytes::{
    be_bytes, be_value, lemma_be_bytes_len, lemma_be_value_bound, lemma_be_value_of_bytes,
    lemma_spans, put_be, read_be,
};
use crate::text::{decimal, decimal_text};
use crate::tree::NodeHash;
use vstd::prelude::*;
use vstd::string::*;

verus! {

/// The depth of the leaves of a node's own forest: 32³ cells per epoch.
pub const MERKLE_LEAF_DEPTH_BITS: usize = 15;

/// The root hash of one epoch.
#[derive(Debug)]
pub struct EpochRoot {
    pub epoch: u32,
    pub hash: Vec<u8>,
}

/// Per-epoch root hashes, and the depth of the sender's leaves.
#[derive(Debug)]
pub struct SyncRootsResponse {
    pub roots: Vec<EpochRoot>,
    pub leaf_depth_bits: u32,
}

/// Asks for the children of one tree node.
#[derive(Debug, Clone, Copy, PartialEq, Eq)]
pub struct SyncChildrenRequest {
    pub epoch: u32,
    pub depth_bits: u32,
    pub prefix: u64,
}

/// The hash of one child.
#[derive(Debug)]
pub struct ChildHash {
    pub prefix: u64,
    pub hash: Vec<u8>,
}

/// The non-empty children of one tree node.
#[derive(Debug)]
pub struct SyncChildrenResponse {
    pub children: Vec<ChildHash>,
}

/// Asks for the rows of a key range, both ends included.
#[derive(Debug)]
pub struct SyncFetchRequest {
    pub start_key: Vec<u8>,
    pub end_key: Vec<u8>,
}

/// What was wrong with a request or a reply.
#[derive(Debug, Clone, Copy, PartialEq, Eq)]
pub enum SyncError {
    /// A hash is not 16 bytes long.
    HashLength,
    /// A range's first key is not 20 bytes long.
    StartKeyLength,
    /// A range's last key is not 20 bytes long.
    EndKeyLength,
    /// A range's first key comes after its last.
    KeyOrder,
    /// No node at the depth asked for has children.
    ChildDepth,
    /// The peer's leaves are at a depth that no tree has.
    LeafDepth { leaf_depth_bits: u32 },
    /// A row's key is not 20 bytes long.
    RowKey,
}

impl SyncError {
    /// What the error says.
    pub open spec fn text(self) -> Seq<char> {
        match self {
            SyncError::HashLength => "hash must be 16 bytes"@,
            SyncError::StartKeyLength => "start_key must be 20 bytes"@,
            SyncError::EndKeyLength => "end_key must be 20 bytes"@,
            SyncError::KeyOrder => "start_key must be ≤ end_key"@,
            SyncError::ChildDepth => "depth_bits must be a multiple of 3 with depth_bits + 3 ≤ "@
                + decimal(MERKLE_LEAF_DEPTH_BITS as nat),
            SyncError::LeafDepth { leaf_depth_bits } => "peer reported invalid leaf depth "@
                + decimal(leaf_depth_bits as nat),
            SyncError::RowKey => "peer sent a row with a malformed key"@,
        }
    }

    /// What the error says.
    pub fn message(&self) -> (text: String)
        ensures
            text@ == self.text(),
    {
        match *self {
            SyncError::HashLength => "hash must be 16 bytes".to_owned(),
            SyncError::StartKeyLength => "start_key must be 20 bytes".to_owned(),
            SyncError::EndKeyLength => "end_key must be 20 bytes".to_owned(),
            SyncError::KeyOrder => "start_key must be ≤ end_key".to_owned(),
            SyncError::ChildDepth => {
                let mut text: String =
                    "depth_bits must be a multiple of 3 with depth_bits + 3 ≤ ".to_owned();
                text.append(decimal_text(MERKLE_LEAF_DEPTH_BITS as u64).as_str());
                text
            },
            SyncError::LeafDepth { leaf_depth_bits } => {
                let mut text: String = "peer reported invalid leaf depth ".to_owned();
                text.append(decimal_text(leaf_depth_bits as u64).as_str());
                text
            },
            SyncError::RowKey => "peer sent a row with a malformed key".to_owned(),
        }
    }
}

/// The hash that 16 bytes stand for.
pub open spec fn hash_value(bytes: Seq<u8>) -> u128 {
    be_value(bytes) as u128
}

/// The 16 bytes of a hash, most significant first.
pub fn hash_bytes(h: NodeHash) -> (bytes: Vec<u8>)
    ensures
        bytes@ == be_bytes(h as nat, 16),
{
    let mut bytes: Vec<u8> = Vec::new();
    put_be(&mut bytes, h, 16);
    assert(bytes@ =~= be_bytes(h as nat, 16));
    bytes
}

/// The hash that bytes stand for, if there are 16 of them.
pub fn hash_from_bytes(b: &[u8]) -> (hash: Result<NodeHash, SyncError>)
    ensures
        hash == (if b@.len() == 16 {
            Ok(hash_value(b@))
        } else {
            Err(SyncError::HashLength)
        }),
        hash is Ok <==> b@.len() == 16,
        hash matches Ok(value) ==> value == be_value(b@),
{
    if b.len() != 16 {
        return Err(SyncError::HashLength);
    }
    proof {
        assert(b@.subrange(0, 16) =~= b@);
        lemma_be_value_bound(b@);
        lemma_spans();
    }
    Ok(read_be(b, 0, 16))
}

/// A hash is read as it was written.
pub proof fn law_hash_is_read_as_written(h: u128)
    ensures
        be_bytes(h as nat, 16).len() == 16,
        hash_value(be_bytes(h as nat, 16)) == h,
        be_value(be_bytes(h as nat, 16)) == h,
{
    lemma_spans();
    lemma_be_bytes_len(h as nat, 16);
    lemma_be_value_of_bytes(h as nat, 16);
}

/// What each error says.
pub proof fn law_error_texts(leaf_depth_bits: u32)
    ensures
        SyncError::HashLength.text() == "hash must be 16 bytes"@,
        SyncError::StartKeyLength.text() == "start_key must be 20 bytes"@,
        SyncError::EndKeyLength.text() == "end_key must be 20 bytes"@,
        SyncError::KeyOrder.text() == "start_key must be ≤ end_key"@,
        SyncError::ChildDepth.text()
            == "depth_bits must be a multiple of 3 with depth_bits + 3 ≤ "@ + decimal(15),
        (SyncError::LeafDepth { leaf_depth_bits }).text() == "peer reported invalid leaf depth "@
            + decimal(leaf_depth_bits as nat),
        SyncError::RowKey.text() == "peer sent a row with a malformed key"@,
{
}

} // verus!
