//! The plain values of the C interface: result codes and IDs.

use crate::types::EntityId;
use vstd::prelude::*;

verus! {

/// The result code of a C interface function.
#[derive(Debug, Clone, Copy, PartialEq, Eq, Structural)]
pub enum EntiDbResult {
    /// Success.
    Success,
    /// Some other error.
    Error,
    /// An argument was invalid.
    InvalidArgument,
    /// The entity was not found.
    NotFound,
    /// A transaction conflicted.
    Conflict,
    /// The database is closed.
    Closed,
    /// The database is locked.
    Locked,
    /// Corruption was detected.
    Corruption,
    /// An I/O operation failed.
    IoError,
    /// Memory ran out.
    OutOfMemory,
    /// A format was invalid.
    InvalidFormat,
    /// Encoding or decoding failed.
    CodecError,
    /// A pointer was null.
    NullPointer,
    /// The feature is not supported.
    NotSupported,
}

/// The numeric code of a result, as C sees it.
pub type ErrorCode = i32;

/// The code of each result.
pub open spec fn result_code(r: EntiDbResult) -> i32 {
    match r {
        EntiDbResult::Success => 0,
        EntiDbResult::Error => 1,
        EntiDbResult::InvalidArgument => 2,
        EntiDbResult::NotFound => 3,
        EntiDbResult::Conflict => 4,
        EntiDbResult::Closed => 5,
        EntiDbResult::Locked => 6,
        EntiDbResult::Corruption => 7,
        EntiDbResult::IoError => 8,
        EntiDbResult::OutOfMemory => 9,
        EntiDbResult::InvalidFormat => 10,
        EntiDbResult::CodecError => 11,
        EntiDbResult::NullPointer => 12,
        EntiDbResult::NotSupported => 13,
    }
}

/// The result a code stands for; unknown codes stand for `Error`.
pub open spec fn result_of_code(code: i32) -> EntiDbResult {
    if code == 0 {
        EntiDbResult::Success
    } else if code == 1 {
        EntiDbResult::Error
    } else if code == 2 {
        EntiDbResult::InvalidArgument
    } else if code == 3 {
        EntiDbResult::NotFound
    } else if code == 4 {
        EntiDbResult::Conflict
    } else if code == 5 {
        EntiDbResult::Closed
    } else if code == 6 {
        EntiDbResult::Locked
    } else if code == 7 {
        EntiDbResult::Corruption
    } else if code == 8 {
        EntiDbResult::IoError
    } else if code == 9 {
        EntiDbResult::OutOfMemory
    } else if code == 10 {
        EntiDbResult::InvalidFormat
    } else if code == 11 {
        EntiDbResult::CodecError
    } else if code == 12 {
        EntiDbResult::NullPointer
    } else if code == 13 {
        EntiDbResult::NotSupported
    } else {
        EntiDbResult::Error
    }
}

impl EntiDbResult {
    /// Whether the result is a success.
    pub fn is_ok(self) -> (r: bool)
        ensures
            r == (self == EntiDbResult::Success),
    {
        self == EntiDbResult::Success
    }

    /// Whether the result is an error.
    pub fn is_err(self) -> (r: bool)
        ensures
            r == (self != EntiDbResult::Success),
    {
        self != EntiDbResult::Success
    }

    /// The numeric code.
    pub fn code(self) -> (r: i32)
        ensures
            r == result_code(self),
    {
        match self {
            EntiDbResult::Success => 0,
            EntiDbResult::Error => 1,
            EntiDbResult::InvalidArgument => 2,
            EntiDbResult::NotFound => 3,
            EntiDbResult::Conflict => 4,
            EntiDbResult::Closed => 5,
            EntiDbResult::Locked => 6,
            EntiDbResult::Corruption => 7,
            EntiDbResult::IoError => 8,
            EntiDbResult::OutOfMemory => 9,
            EntiDbResult::InvalidFormat => 10,
            EntiDbResult::CodecError => 11,
            EntiDbResult::NullPointer => 12,
            EntiDbResult::NotSupported => 13,
        }
    }

    /// The result a code stands for.
    pub fn from_code(code: i32) -> (r: Self)
        ensures
            r == result_of_code(code),
    {
        match code {
            0 => EntiDbResult::Success,
            1 => EntiDbResult::Error,
            2 => EntiDbResult::InvalidArgument,
            3 => EntiDbResult::NotFound,
            4 => EntiDbResult::Conflict,
            5 => EntiDbResult::Closed,
            6 => EntiDbResult::Locked,
            7 => EntiDbResult::Corruption,
            8 => EntiDbResult::IoError,
            9 => EntiDbResult::OutOfMemory,
            10 => EntiDbResult::InvalidFormat,
            11 => EntiDbResult::CodecError,
            12 => EntiDbResult::NullPointer,
            13 => EntiDbResult::NotSupported,
            _ => EntiDbResult::Error,
        }
    }
}

impl From<EntiDbResult> for i32 {
    fn from(result: EntiDbResult) -> (r: i32) {
        result.code()
    }
}

impl vstd::std_specs::convert::FromSpecImpl<EntiDbResult> for i32 {
    open spec fn obeys_from_spec() -> bool {
        true
    }

    open spec fn from_spec(result: EntiDbResult) -> i32 {
        result_code(result)
    }
}

impl From<i32> for EntiDbResult {
    fn from(code: i32) -> (r: EntiDbResult) {
        EntiDbResult::from_code(code)
    }
}

impl vstd::std_specs::convert::FromSpecImpl<i32> for EntiDbResult {
    open spec fn obeys_from_spec() -> bool {
        true
    }

    open spec fn from_spec(code: i32) -> EntiDbResult {
        result_of_code(code)
    }
}

/// Every result comes back from its code.
pub proof fn lemma_code_roundtrip(r: EntiDbResult)
    ensures
        result_of_code(result_code(r)) == r,
{
}

/// An entity ID as C sees it.
#[derive(Debug, Clone, Copy, PartialEq, Eq)]
pub struct EntiDbEntityId {
    /// The 16 bytes of the ID.
    pub bytes: [u8; 16],
}

impl EntiDbEntityId {
    /// The ID with the given bytes.
    pub fn from_bytes(bytes: [u8; 16]) -> (r: Self)
        ensures
            r.bytes == bytes,
    {
        EntiDbEntityId { bytes }
    }

    /// The ID whose bytes are all zero.
    pub fn zero() -> (r: Self)
        ensures
            r.bytes@ == Seq::new(16, |i: int| 0u8),
    {
        let r = EntiDbEntityId { bytes: [0u8; 16] };
        assert(r.bytes@ =~= Seq::new(16, |i: int| 0u8));
        r
    }
}

/// A collection ID as C sees it.
#[derive(Debug, Clone, Copy, PartialEq, Eq)]
pub struct EntiDbCollectionId {
    /// The ID.
    pub id: u32,
}

impl EntiDbCollectionId {
    /// The collection ID `id`.
    pub fn new(id: u32) -> (r: Self)
        ensures
            r.id == id,
    {
        EntiDbCollectionId { id }
    }
}

/// The statistics of a compaction, as C sees them.
#[derive(Debug, Clone, Copy)]
pub struct EntiDbCompactionStats {
    /// Records read.
    pub input_records: u64,
    /// Records written.
    pub output_records: u64,
    /// Tombstones dropped.
    pub tombstones_removed: u64,
    /// Obsolete versions dropped.
    pub obsolete_versions_removed: u64,
    /// Bytes saved, estimated.
    pub bytes_saved: u64,
}

/// The statistics of a restore, as C sees them.
#[derive(Debug, Clone, Copy)]
pub struct EntiDbRestoreStats {
    /// Entities restored.
    pub entities_restored: u64,
    /// Deletions applied.
    pub tombstones_applied: u64,
    /// When the backup was made, in Unix milliseconds.
    pub backup_timestamp: u64,
    /// The sequence number the backup was made at.
    pub backup_sequence: u64,
}

impl EntiDbRestoreStats {
    /// All counts zero.
    pub fn empty() -> (r: Self)
        ensures
            r == (EntiDbRestoreStats {
                entities_restored: 0,
                tombstones_applied: 0,
                backup_timestamp: 0,
                backup_sequence: 0,
            }),
    {
        EntiDbRestoreStats { entities_restored: 0, tombstones_applied: 0, backup_timestamp: 0, backup_sequence: 0 }
    }
}

/// What is known of a backup, as C sees it.
#[derive(Debug, Clone, Copy)]
pub struct EntiDbBackupInfo {
    /// Whether the backup's checksum is valid.
    pub valid: bool,
    /// When the backup was made, in Unix milliseconds.
    pub timestamp: u64,
    /// The sequence number the backup was made at.
    pub sequence: u64,
    /// The number of records.
    pub record_count: u32,
    /// The size in bytes.
    pub size: usize,
}

impl EntiDbBackupInfo {
    /// An invalid, empty backup.
    pub fn empty() -> (r: Self)
        ensures
            r == (EntiDbBackupInfo { valid: false, timestamp: 0, sequence: 0, record_count: 0, size: 0 }),
    {
        EntiDbBackupInfo { valid: false, timestamp: 0, sequence: 0, record_count: 0, size: 0 }
    }
}

/// The kind of a secondary index.
#[derive(Debug, Clone, Copy, PartialEq, Eq)]
pub enum EntiDbIndexType {
    /// Equality lookups.
    Hash,
    /// Ordered and range lookups.
    BTree,
}

/// A cursor over entities collected for the C interface.
pub struct FfiIterator {
    entities: Vec<(EntityId, Vec<u8>)>,
    position: usize,
}

impl FfiIterator {
    /// The entities, in order.
    pub closed spec fn items(&self) -> Seq<(EntityId, Vec<u8>)> {
        self.entities@
    }

    /// How many entities have been handed out.
    pub closed spec fn pos(&self) -> nat {
        self.position as nat
    }

    /// A cursor at the first of `entities`.
    pub fn new(entities: Vec<(EntityId, Vec<u8>)>) -> (r: Self)
        ensures
            r.items() == entities@,
            r.pos() == 0,
    {
        FfiIterator { entities, position: 0 }
    }

    /// Whether an entity is left.
    pub fn has_next(&self) -> (r: bool)
        ensures
            r == (self.pos() < self.items().len()),
    {
        self.position < self.entities.len()
    }

    /// The next entity, if one is left.
    pub fn next(&mut self) -> (r: Option<&(EntityId, Vec<u8>)>)
        ensures
            final(self).items() == old(self).items(),
            old(self).pos() < old(self).items().len() ==> final(self).pos() == old(self).pos() + 1
                && r == Some(&old(self).items()[old(self).pos() as int]),
            old(self).pos() >= old(self).items().len() ==> final(self).pos() == old(self).pos() && r is None,
    {
        if self.position < self.entities.len() {
            let i = self.position;
            self.position = self.position + 1;
            Some(&self.entities[i])
        } else {
            None
        }
    }

    /// How many entities are left.
    pub fn remaining(&self) -> (r: usize)
        ensures
            r == if self.pos() <= self.items().len() {
                self.items().len() - self.pos()
            } else {
                0
            },
    {
        self.entities.len().saturating_sub(self.position)
    }
}

/// The writes of a transaction opened through the C interface.
pub struct FfiTransaction {
    /// The pending writes: the entity and its new bytes, `None` to delete.
    pub writes: Vec<((u32, [u8; 16]), Option<Vec<u8>>)>,
    /// Whether the transaction is still open.
    pub active: bool,
}

impl FfiTransaction {
    /// An open transaction with no writes.
    pub fn new() -> (r: Self)
        ensures
            r.writes@.len() == 0,
            r.active,
    {
        FfiTransaction { writes: Vec::new(), active: true }
    }
}

} // verus!
