//! The record that a sealed epoch is kept as.
//!
//! Format (all big-endian):
//! `[version u8 = 1][leaf_depth_bits u8][count u64][n u32][(prefix u64, hash u128) × n]`

use crate::bytes::{be_bytes, be_value, lemma_be_value_bound, lemma_spans, put_be, read_be};
use crate::model::TreeView;
use crate::text::{decimal, decimal_text};
use vstd::prelude::*;
use vstd::string::*;

verus! {

/// Whether `entries` lists the non-empty leaves of a tree, each with its hash,
/// in ascending order of their prefixes.
pub open spec fn lists_leaves(tree: TreeView, leaf: nat, entries: Seq<(u64, u128)>) -> bool {
    &&& forall|i: int, j: int| 0 <= i < j < entries.len() ==> entries[i].0 < entries[j].0
    &&& forall|i: int|
        0 <= i < entries.len() ==> (#[trigger] entries[i]).1 != 0 && entries[i].1 == tree.at(
            leaf,
            entries[i].0,
        )
    &&& forall|prefix: u64|
        #[trigger] tree.at(leaf, prefix) != 0 ==> entries.contains((prefix, tree.at(leaf, prefix)))
}

/// The bytes of a record's entries.
pub open spec fn entry_bytes(entries: Seq<(u64, u128)>) -> Seq<u8>
    decreases entries.len(),
{
    if entries.len() == 0 {
        Seq::empty()
    } else {
        entry_bytes(entries.drop_last()) + be_bytes(entries.last().0 as nat, 8) + be_bytes(
            entries.last().1 as nat,
            16,
        )
    }
}

/// The bytes of a record. The number of entries is written in four bytes: one
/// too large for them loses its high-order part.
pub open spec fn seal_bytes(leaf: nat, count: nat, entries: Seq<(u64, u128)>) -> Seq<u8> {
    seq![1u8, leaf as u8] + be_bytes(count, 8) + be_bytes(entries.len(), 4) + entry_bytes(entries)
}

/// The number of items that a record counts.
pub open spec fn sealed_count(record: Seq<u8>) -> nat {
    be_value(record.subrange(2, 10))
}

/// The number of entries that a record says it has.
pub open spec fn sealed_len(record: Seq<u8>) -> nat {
    be_value(record.subrange(10, 14))
}

/// The entries of a record.
pub open spec fn sealed_entries(record: Seq<u8>) -> Seq<(u64, u128)> {
    Seq::new(
        sealed_len(record),
        |i: int|
            (
                be_value(record.subrange(14 + 24 * i, 22 + 24 * i)) as u64,
                be_value(record.subrange(22 + 24 * i, 38 + 24 * i)) as u128,
            ),
    )
}

/// Why a record was not loaded.
#[derive(Debug, Clone, Copy, PartialEq, Eq)]
pub enum SealError {
    /// The epoch has a tree already.
    AlreadyPopulated { epoch: u32 },
    /// The record ends before its entries begin.
    TooShort,
    /// The record has a version other than 1.
    UnsupportedVersion { version: u8 },
    /// The record was sealed at another leaf depth.
    LeafDepthMismatch { sealed: u8, forest: usize },
    /// The record's length is not that of its number of entries.
    LengthMismatch { length: usize, entries: u32 },
}

/// Why a forest with leaves at depth `leaf`, which has seen `epoch` if
/// `populated`, does not load a record; `None` if it does.
pub open spec fn seal_error(
    record: Seq<u8>,
    leaf: nat,
    epoch: u32,
    populated: bool,
) -> Option<SealError> {
    if populated {
        Some(SealError::AlreadyPopulated { epoch })
    } else if record.len() < 14 {
        Some(SealError::TooShort)
    } else if record[0] != 1 {
        Some(SealError::UnsupportedVersion { version: record[0] })
    } else if record[1] != leaf {
        Some(SealError::LeafDepthMismatch { sealed: record[1], forest: leaf as usize })
    } else if record.len() != 14 + 24 * sealed_len(record) {
        Some(
            SealError::LengthMismatch {
                length: record.len() as usize,
                entries: sealed_len(record) as u32,
            },
        )
    } else {
        None
    }
}

impl SealError {
    /// What the error says.
    pub open spec fn text(self) -> Seq<char> {
        match self {
            SealError::AlreadyPopulated { epoch } => "epoch "@ + decimal(epoch as nat)
                + " already populated"@,
            SealError::TooShort => "seal record too short"@,
            SealError::UnsupportedVersion { version } => "unsupported seal record version "@
                + decimal(version as nat),
            SealError::LeafDepthMismatch { sealed, forest } => "seal record leaf depth "@ + decimal(
                sealed as nat,
            ) + " does not match forest leaf depth "@ + decimal(forest as nat),
            SealError::LengthMismatch { length, entries } => "seal record length "@ + decimal(
                length as nat,
            ) + " does not match "@ + decimal(entries as nat) + " entries"@,
        }
    }

    /// What the error says.
    pub fn message(&self) -> (text: String)
        ensures
            text@ == self.text(),
    {
        match *self {
            SealError::AlreadyPopulated { epoch } => {
                let mut text: String = "epoch ".to_owned();
                text.append(decimal_text(epoch as u64).as_str());
                text.append(" already populated");
                text
            },
            SealError::TooShort => "seal record too short".to_owned(),
            SealError::UnsupportedVersion { version } => {
                let mut text: String = "unsupported seal record version ".to_owned();
                text.append(decimal_text(version as u64).as_str());
                text
            },
            SealError::LeafDepthMismatch { sealed, forest } => {
                let mut text: String = "seal record leaf depth ".to_owned();
                text.append(decimal_text(sealed as u64).as_str());
                text.append(" does not match forest leaf depth ");
                text.append(decimal_text(forest as u64).as_str());
                text
            },
            SealError::LengthMismatch { length, entries } => {
                let mut text: String = "seal record length ".to_owned();
                text.append(decimal_text(length as u64).as_str());
                text.append(" does not match ");
                text.append(decimal_text(entries as u64).as_str());
                text.append(" entries");
                text
            },
        }
    }
}

/// The bytes of a record.
pub(crate) fn write_seal(leaf_depth_bits: usize, count: u64, entries: &Vec<(u64, u128)>) -> (record: Vec<
    u8,
>)
    requires
        leaf_depth_bits <= 63,
    ensures
        record@ == seal_bytes(leaf_depth_bits as nat, count as nat, entries@),
{
    let mut record: Vec<u8> = Vec::new();
    record.push(1);
    record.push(leaf_depth_bits as u8);
    put_be(&mut record, count as u128, 8);
    put_be(&mut record, entries.len() as u128, 4);
    let ghost head = record@;
    assert(entries@.take(0) =~= Seq::<(u64, u128)>::empty());
    assert(head + entry_bytes(entries@.take(0)) =~= head);
    let mut i: usize = 0;
    while i < entries.len()
        invariant
            i <= entries@.len(),
            record@ == head + entry_bytes(entries@.take(i as int)),
        decreases entries@.len() - i,
    {
        let ghost before = record@;
        put_be(&mut record, entries[i].0 as u128, 8);
        put_be(&mut record, entries[i].1, 16);
        proof {
            assert(entries@.take(i + 1).drop_last() =~= entries@.take(i as int));
            assert(record@ =~= head + entry_bytes(entries@.take(i + 1)));
        }
        i = i + 1;
    }
    proof {
        assert(entries@.take(entries@.len() as int) =~= entries@);
        assert(record@ =~= seal_bytes(leaf_depth_bits as nat, count as nat, entries@));
    }
    record
}

/// Why a forest with leaves at `leaf_depth_bits`, which has seen `epoch` if
/// `populated`, does not load a record; `None` if it does.
pub(crate) fn check_seal(
    record: &[u8],
    leaf_depth_bits: usize,
    epoch: u32,
    populated: bool,
) -> (error: Option<SealError>)
    requires
        leaf_depth_bits <= 63,
    ensures
        error == seal_error(record@, leaf_depth_bits as nat, epoch, populated),
{
    if populated {
        return Some(SealError::AlreadyPopulated { epoch });
    }
    let length: usize = record.len();
    if length < 14 {
        return Some(SealError::TooShort);
    }
    if record[0] != 1 {
        return Some(SealError::UnsupportedVersion { version: record[0] });
    }
    if record[1] as usize != leaf_depth_bits {
        return Some(SealError::LeafDepthMismatch { sealed: record[1], forest: leaf_depth_bits });
    }
    let n: u128 = read_be(record, 10, 4);
    proof {
        lemma_be_value_bound(record@.subrange(10, 14));
        lemma_spans();
    }
    if length as u128 != 14 + n * 24 {
        return Some(SealError::LengthMismatch { length, entries: n as u32 });
    }
    None
}

/// How many items a record counts.
pub(crate) fn read_count(record: &[u8]) -> (count: u64)
    requires
        record@.len() >= 14,
    ensures
        count == sealed_count(record@),
{
    let count: u128 = read_be(record, 2, 8);
    proof {
        lemma_be_value_bound(record@.subrange(2, 10));
        lemma_spans();
    }
    count as u64
}

/// The entries of a record.
pub(crate) fn read_entries(record: &[u8]) -> (entries: Vec<(u64, u128)>)
    requires
        record@.len() == 14 + 24 * sealed_len(record@),
    ensures
        entries@ == sealed_entries(record@),
{
    let length: usize = record.len();
    let mut entries: Vec<(u64, u128)> = Vec::new();
    let mut at: usize = 14;
    while at < length
        invariant
            length == record@.len(),
            length == 14 + 24 * sealed_len(record@),
            at == 14 + 24 * entries@.len(),
            at <= length,
            entries@ == sealed_entries(record@).take(entries@.len() as int),
        decreases length - at,
    {
        let ghost i = entries@.len() as int;
        let prefix: u128 = read_be(record, at, 8);
        let hash: u128 = read_be(record, at + 8, 16);
        proof {
            lemma_be_value_bound(record@.subrange(at as int, at + 8));
            lemma_be_value_bound(record@.subrange(at + 8, at + 24));
            lemma_spans();
        }
        entries.push((prefix as u64, hash));
        assert(entries@ =~= sealed_entries(record@).take(i + 1));
        at = at + 24;
    }
    assert(entries@ =~= sealed_entries(record@));
    entries
}

} // verus!
