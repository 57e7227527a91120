//! Digests of stored items.

use crate::bytes::{
    be_bytes, be_value, law_value_tells_bytes_apart, lemma_be_bytes_len, lemma_be_value_bound,
    lemma_be_value_of_bytes, lemma_spans, read_be,
};
use crate::tree::NodeHash;
use sha2::{Digest as _, Sha256};
use vstd::arithmetic::power2::pow2;
use vstd::prelude::*;

verus! {

/// The SHA-256 hash of a message.
pub uninterp spec fn sha256(message: Seq<u8>) -> Seq<u8>;

/// Whether SHA-256 takes a message of `n` bytes: its length in bits is a 64-bit number.
pub open spec fn hashable(n: nat) -> bool {
    n < 0x2000_0000_0000_0000
}

/// The hash that stands for an item: the first 16 bytes of the SHA-256 hash of
/// its key followed by its payload.
pub open spec fn item_hash(key: Seq<u8>, payload: Seq<u8>) -> u128 {
    truncated(sha256(key + payload))
}

/// The first 16 bytes of a hash, as a number.
pub open spec fn truncated(hash: Seq<u8>) -> u128 {
    be_value(hash.take(16)) as u128
}

/// `sha2::Sha256::digest`. What it returns is a function of the message alone,
/// and is 32 bytes long; nothing more is claimed of it.
#[verifier::external_body]
fn sha256_digest(message: &[u8]) -> (hash: [u8; 32])
    requires
        hashable(message@.len()),
    ensures
        hash@ == sha256(message@),
{
    Sha256::digest(message).into()
}

/// A SHA-256 hash cut down to its first 128 bits.
pub fn truncate_hash(hash: &[u8; 32]) -> (short: NodeHash)
    ensures
        short == truncated(hash@),
        short == be_value(hash@.subrange(0, 16)),
{
    let short: u128 = read_be(hash.as_slice(), 0, 16);
    assert(hash@.subrange(0, 16) =~= hash@.take(16));
    short
}

/// Digest of a single stored item, foldable into any node that contains it.
pub fn item_digest(key: &[u8; 20], payload: &[u8]) -> (digest: NodeHash)
    requires
        hashable(20 + payload@.len()),
    ensures
        digest == item_hash(key@, payload@),
        sha256(key@ + payload@).len() == 32,
        be_bytes(digest as nat, 16) == sha256(key@ + payload@).subrange(0, 16),
{
    let mut message: Vec<u8> = Vec::new();
    message.extend_from_slice(key.as_slice());
    message.extend_from_slice(payload);
    assert(message@ =~= key@ + payload@);
    let hash: [u8; 32] = sha256_digest(message.as_slice());
    proof {
        law_digest_is_the_front_of_the_hash(key@, payload@);
    }
    truncate_hash(&hash)
}

/// The digest of an item is the first 16 bytes of the SHA-256 hash of its key
/// and its whole payload, however long that is.
pub proof fn law_digest_is_the_front_of_the_hash(key: Seq<u8>, payload: Seq<u8>)
    requires
        sha256(key + payload).len() == 32,
    ensures
        be_bytes(item_hash(key, payload) as nat, 16) == sha256(key + payload).subrange(0, 16),
{
    let front = sha256(key + payload).take(16);
    assert(front =~= sha256(key + payload).subrange(0, 16));
    lemma_be_value_bound(front);
    lemma_spans();
    let written = be_bytes(item_hash(key, payload) as nat, 16);
    lemma_be_bytes_len(item_hash(key, payload) as nat, 16);
    lemma_be_value_of_bytes(item_hash(key, payload) as nat, 16);
    law_value_tells_bytes_apart(written, front);
}

/// Items that differ in their keys, or in any byte of their payloads, or in
/// the lengths of these, have different digests, unless the first 16 bytes of
/// SHA-256 are the same for two different messages.
pub proof fn law_digest_tells_items_apart(
    key: Seq<u8>,
    payload: Seq<u8>,
    other_key: Seq<u8>,
    other_payload: Seq<u8>,
)
    requires
        key.len() == 20,
        other_key.len() == 20,
        sha256(key + payload).len() == 32,
        sha256(other_key + other_payload).len() == 32,
        sha256(key + payload).subrange(0, 16) == sha256(other_key + other_payload).subrange(0, 16)
            ==> key + payload == other_key + other_payload,
    ensures
        item_hash(key, payload) == item_hash(other_key, other_payload) <==> (key == other_key
            && payload == other_payload),
{
    law_digest_is_the_front_of_the_hash(key, payload);
    law_digest_is_the_front_of_the_hash(other_key, other_payload);
    if item_hash(key, payload) == item_hash(other_key, other_payload) {
        let m = key + payload;
        let n = other_key + other_payload;
        assert(key =~= m.subrange(0, 20));
        assert(other_key =~= n.subrange(0, 20));
        assert(payload =~= m.subrange(20, m.len() as int));
        assert(other_payload =~= n.subrange(20, n.len() as int));
    }
}

/// A message can be hashed as long as its length in bits fits in 64 of them.
pub proof fn law_what_can_be_hashed(n: nat)
    ensures
        hashable(n) <==> 8 * n < pow2(64),
{
    vstd::arithmetic::power2::lemma2_to64();
}

} // verus!
