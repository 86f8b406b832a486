//! Write-ahead log records and their payload encoding.
//!
//! Payload layouts (all integers little-endian):
//! - `Begin`, `Abort`: txid (8)
//! - `Put`: txid (8) | collection (4) | entity (16) | hash flag (1) [| hash (32)] | len (4) | bytes (len)
//! - `Delete`: txid (8) | collection (4) | entity (16) | hash flag (1) [| hash (32)]
//! - `Commit`: txid (8) | sequence (8)
//! - `Checkpoint`: sequence (8)

use crate::bytes::{copy_range, push_bytes, push_u32_le, push_u64_le, read_array16, read_array32, read_u32_le, read_u64_le};
use crate::error::CoreError;
use crate::types::{CollectionId, SequenceNumber, TransactionId};
use crate::text::{decimal_digits, push_decimal, push_str};
use vstd::bytes::*;
use vstd::prelude::*;

verus! {

/// Type of WAL record.
#[derive(Debug, Clone, Copy, PartialEq, Eq, Structural)]
pub enum WalRecordType {
    /// Begin a new transaction.
    Begin,
    /// Put (insert or update) an entity.
    Put,
    /// Delete an entity.
    Delete,
    /// Commit a transaction.
    Commit,
    /// Abort a transaction.
    Abort,
    /// Checkpoint marker.
    Checkpoint,
}

/// The byte that identifies each record type in the log.
pub open spec fn record_type_byte(t: WalRecordType) -> u8 {
    match t {
        WalRecordType::Begin => 1,
        WalRecordType::Put => 2,
        WalRecordType::Delete => 3,
        WalRecordType::Commit => 4,
        WalRecordType::Abort => 5,
        WalRecordType::Checkpoint => 6,
    }
}

/// The record type that a byte identifies, if any.
pub open spec fn record_type_from_byte(b: u8) -> Option<WalRecordType> {
    if b == 1 {
        Some(WalRecordType::Begin)
    } else if b == 2 {
        Some(WalRecordType::Put)
    } else if b == 3 {
        Some(WalRecordType::Delete)
    } else if b == 4 {
        Some(WalRecordType::Commit)
    } else if b == 5 {
        Some(WalRecordType::Abort)
    } else if b == 6 {
        Some(WalRecordType::Checkpoint)
    } else {
        None
    }
}

impl WalRecordType {
    /// Converts a byte to a record type.
    pub fn from_byte(b: u8) -> (r: Option<Self>)
        ensures
            r == record_type_from_byte(b),
    {
        match b {
            1 => Some(WalRecordType::Begin),
            2 => Some(WalRecordType::Put),
            3 => Some(WalRecordType::Delete),
            4 => Some(WalRecordType::Commit),
            5 => Some(WalRecordType::Abort),
            6 => Some(WalRecordType::Checkpoint),
            _ => None,
        }
    }

    /// Converts the record type to a byte.
    pub fn as_byte(self) -> (r: u8)
        ensures
            r == record_type_byte(self),
    {
        match self {
            WalRecordType::Begin => 1,
            WalRecordType::Put => 2,
            WalRecordType::Delete => 3,
            WalRecordType::Commit => 4,
            WalRecordType::Abort => 5,
            WalRecordType::Checkpoint => 6,
        }
    }
}

/// A WAL record representing a database operation.
#[derive(Debug, Clone, PartialEq, Eq)]
pub enum WalRecord {
    /// Begin a new transaction.
    Begin { txid: TransactionId },
    /// Put (insert or update) an entity.
    Put {
        txid: TransactionId,
        collection_id: CollectionId,
        entity_id: [u8; 16],
        before_hash: Option<[u8; 32]>,
        after_bytes: Vec<u8>,
    },
    /// Delete an entity.
    Delete {
        txid: TransactionId,
        collection_id: CollectionId,
        entity_id: [u8; 16],
        before_hash: Option<[u8; 32]>,
    },
    /// Commit a transaction.
    Commit { txid: TransactionId, sequence: SequenceNumber },
    /// Abort a transaction.
    Abort { txid: TransactionId },
    /// Checkpoint marker for WAL truncation.
    Checkpoint { sequence: SequenceNumber },
}

/// Mathematical model of a WAL record: integers and byte sequences.
pub enum WalRecordModel {
    Begin { txid: u64 },
    Put {
        txid: u64,
        collection_id: u32,
        entity_id: Seq<u8>,
        before_hash: Option<Seq<u8>>,
        after_bytes: Seq<u8>,
    },
    Delete { txid: u64, collection_id: u32, entity_id: Seq<u8>, before_hash: Option<Seq<u8>> },
    Commit { txid: u64, sequence: u64 },
    Abort { txid: u64 },
    Checkpoint { sequence: u64 },
}

/// The model of an optional 32-byte hash.
pub open spec fn hash_model(h: Option<[u8; 32]>) -> Option<Seq<u8>> {
    match h {
        Some(x) => Some(x@),
        None => None,
    }
}

impl View for WalRecord {
    type V = WalRecordModel;

    open spec fn view(&self) -> WalRecordModel {
        match *self {
            WalRecord::Begin { txid } => WalRecordModel::Begin { txid: txid.0 },
            WalRecord::Put { txid, collection_id, entity_id, before_hash, after_bytes } =>
                WalRecordModel::Put {
                txid: txid.0,
                collection_id: collection_id.0,
                entity_id: entity_id@,
                before_hash: hash_model(before_hash),
                after_bytes: after_bytes@,
            },
            WalRecord::Delete { txid, collection_id, entity_id, before_hash } =>
                WalRecordModel::Delete {
                txid: txid.0,
                collection_id: collection_id.0,
                entity_id: entity_id@,
                before_hash: hash_model(before_hash),
            },
            WalRecord::Commit { txid, sequence } => WalRecordModel::Commit {
                txid: txid.0,
                sequence: sequence.0,
            },
            WalRecord::Abort { txid } => WalRecordModel::Abort { txid: txid.0 },
            WalRecord::Checkpoint { sequence } => WalRecordModel::Checkpoint {
                sequence: sequence.0,
            },
        }
    }
}

impl WalRecordModel {
    /// The type of the record.
    pub open spec fn record_type(self) -> WalRecordType {
        match self {
            WalRecordModel::Begin { .. } => WalRecordType::Begin,
            WalRecordModel::Put { .. } => WalRecordType::Put,
            WalRecordModel::Delete { .. } => WalRecordType::Delete,
            WalRecordModel::Commit { .. } => WalRecordType::Commit,
            WalRecordModel::Abort { .. } => WalRecordType::Abort,
            WalRecordModel::Checkpoint { .. } => WalRecordType::Checkpoint,
        }
    }

    /// The transaction the record belongs to, if any.
    pub open spec fn txid(self) -> Option<u64> {
        match self {
            WalRecordModel::Begin { txid } => Some(txid),
            WalRecordModel::Put { txid, .. } => Some(txid),
            WalRecordModel::Delete { txid, .. } => Some(txid),
            WalRecordModel::Commit { txid, .. } => Some(txid),
            WalRecordModel::Abort { txid } => Some(txid),
            WalRecordModel::Checkpoint { .. } => None,
        }
    }

    /// A record is well formed when its ids and hashes have their fixed sizes.
    pub open spec fn well_formed(self) -> bool {
        match self {
            WalRecordModel::Put { entity_id, before_hash, .. } => entity_id.len() == 16 && (
            before_hash matches Some(h) ==> h.len() == 32),
            WalRecordModel::Delete { entity_id, before_hash, .. } => entity_id.len() == 16 && (
            before_hash matches Some(h) ==> h.len() == 32),
            _ => true,
        }
    }

    /// Whether the payload fits the 4-byte length field of the format.
    pub open spec fn encodable(self) -> bool {
        self matches WalRecordModel::Put { after_bytes, .. } ==> after_bytes.len() <= u32::MAX
    }
}

/// Encoding of the optional before-hash: a flag byte, then the hash if present.
pub open spec fn hash_field(h: Option<Seq<u8>>) -> Seq<u8> {
    match h {
        Some(x) => seq![1u8] + x,
        None => seq![0u8],
    }
}

/// The payload bytes of a record.
pub open spec fn spec_encode_payload(r: WalRecordModel) -> Seq<u8> {
    match r {
        WalRecordModel::Begin { txid } => spec_u64_to_le_bytes(txid),
        WalRecordModel::Put { txid, collection_id, entity_id, before_hash, after_bytes } =>
            spec_u64_to_le_bytes(txid) + spec_u32_to_le_bytes(collection_id) + entity_id
            + hash_field(before_hash) + spec_u32_to_le_bytes(after_bytes.len() as u32)
            + after_bytes,
        WalRecordModel::Delete { txid, collection_id, entity_id, before_hash } =>
            spec_u64_to_le_bytes(txid) + spec_u32_to_le_bytes(collection_id) + entity_id
            + hash_field(before_hash),
        WalRecordModel::Commit { txid, sequence } => spec_u64_to_le_bytes(txid)
            + spec_u64_to_le_bytes(sequence),
        WalRecordModel::Abort { txid } => spec_u64_to_le_bytes(txid),
        WalRecordModel::Checkpoint { sequence } => spec_u64_to_le_bytes(sequence),
    }
}

/// Little-endian `u64` read at `off`.
pub open spec fn le64_at(p: Seq<u8>, off: int) -> u64 {
    spec_u64_from_le_bytes(p.subrange(off, off + 8))
}

/// Little-endian `u32` read at `off`.
pub open spec fn le32_at(p: Seq<u8>, off: int) -> u32 {
    spec_u32_from_le_bytes(p.subrange(off, off + 4))
}

/// Offset just after the hash field of a `Put`/`Delete` payload.
pub open spec fn hash_end(p: Seq<u8>) -> int {
    if p[28] != 0 {
        61
    } else {
        29
    }
}

/// The hash field of a `Put`/`Delete` payload: any nonzero flag means a hash follows.
pub open spec fn decoded_hash(p: Seq<u8>) -> Option<Seq<u8>> {
    if p[28] != 0 {
        Some(p.subrange(29, 61))
    } else {
        None
    }
}

/// The record that a payload of the given type decodes to, if it is well formed.
pub open spec fn spec_decode_payload(t: WalRecordType, p: Seq<u8>) -> Option<WalRecordModel> {
    match t {
        WalRecordType::Begin => if p.len() == 8 {
            Some(WalRecordModel::Begin { txid: le64_at(p, 0) })
        } else {
            None
        },
        WalRecordType::Abort => if p.len() == 8 {
            Some(WalRecordModel::Abort { txid: le64_at(p, 0) })
        } else {
            None
        },
        WalRecordType::Commit => if p.len() == 16 {
            Some(WalRecordModel::Commit { txid: le64_at(p, 0), sequence: le64_at(p, 8) })
        } else {
            None
        },
        WalRecordType::Checkpoint => if p.len() == 8 {
            Some(WalRecordModel::Checkpoint { sequence: le64_at(p, 0) })
        } else {
            None
        },
        WalRecordType::Delete => if p.len() >= 29 && p.len() >= hash_end(p) && p.len()
            == hash_end(p) {
            Some(
                WalRecordModel::Delete {
                    txid: le64_at(p, 0),
                    collection_id: le32_at(p, 8),
                    entity_id: p.subrange(12, 28),
                    before_hash: decoded_hash(p),
                },
            )
        } else {
            None
        },
        WalRecordType::Put => if p.len() >= 29 && p.len() >= hash_end(p) + 4 && p.len()
            == hash_end(p) + 4 + le32_at(p, hash_end(p)) {
            Some(
                WalRecordModel::Put {
                    txid: le64_at(p, 0),
                    collection_id: le32_at(p, 8),
                    entity_id: p.subrange(12, 28),
                    before_hash: decoded_hash(p),
                    after_bytes: p.subrange(hash_end(p) + 4, p.len() as int),
                },
            )
        } else {
            None
        },
    }
}


/// Decoding the payload of a record, under the record's own type, gives back the
/// record: every well-formed record whose payload fits the length field survives
/// a round trip through the payload encoding.
pub proof fn lemma_wal_payload_roundtrip(r: WalRecordModel)
    requires
        r.well_formed(),
        r.encodable(),
    ensures
        spec_decode_payload(r.record_type(), spec_encode_payload(r)) == Some(r),
{
    lemma_auto_spec_u64_to_from_le_bytes();
    lemma_auto_spec_u32_to_from_le_bytes();
    let p = spec_encode_payload(r);
    match r {
        WalRecordModel::Begin { txid } => {
            assert(p.subrange(0, 8) =~= p);
        },
        WalRecordModel::Abort { txid } => {
            assert(p.subrange(0, 8) =~= p);
        },
        WalRecordModel::Checkpoint { sequence } => {
            assert(p.subrange(0, 8) =~= p);
        },
        WalRecordModel::Commit { txid, sequence } => {
            assert(p.subrange(0, 8) =~= spec_u64_to_le_bytes(txid));
            assert(p.subrange(8, 16) =~= spec_u64_to_le_bytes(sequence));
        },
        WalRecordModel::Delete { txid, collection_id, entity_id, before_hash } => {
            assert(p.subrange(0, 8) =~= spec_u64_to_le_bytes(txid));
            assert(p.subrange(8, 12) =~= spec_u32_to_le_bytes(collection_id));
            assert(p.subrange(12, 28) =~= entity_id);
            match before_hash {
                Some(h) => {
                    assert(p[28] == 1u8);
                    assert(p.subrange(29, 61) =~= h);
                },
                None => {
                    assert(p[28] == 0u8);
                },
            }
        },
        WalRecordModel::Put { txid, collection_id, entity_id, before_hash, after_bytes } => {
            let len_bytes = spec_u32_to_le_bytes(after_bytes.len() as u32);
            assert(p.subrange(0, 8) =~= spec_u64_to_le_bytes(txid));
            assert(p.subrange(8, 12) =~= spec_u32_to_le_bytes(collection_id));
            assert(p.subrange(12, 28) =~= entity_id);
            let he = hash_end(p);
            match before_hash {
                Some(h) => {
                    assert(p[28] == 1u8);
                    assert(p.subrange(29, 61) =~= h);
                },
                None => {
                    assert(p[28] == 0u8);
                },
            }
            assert(p.subrange(he, he + 4) =~= len_bytes);
            assert(p.subrange(he + 4, p.len() as int) =~= after_bytes);
        },
    }
}

/// Maximum size for entity payload in a WAL record (the 4-byte length field).
pub const WAL_MAX_PAYLOAD_SIZE: u64 = 0xFFFF_FFFF;

fn push_hash_field(buf: &mut Vec<u8>, h: &Option<[u8; 32]>)
    ensures
        final(buf)@ == old(buf)@ + hash_field(hash_model(*h)),
{
    match h {
        Some(x) => {
            buf.push(1u8);
            push_bytes(buf, x.as_slice());
            assert(old(buf)@ + hash_field(hash_model(*h)) =~= old(buf)@.push(1u8) + x@);
        },
        None => {
            buf.push(0u8);
            assert(old(buf)@ + hash_field(hash_model(*h)) =~= old(buf)@.push(0u8));
        },
    }
}

impl WalRecord {
    /// Returns the record type.
    pub fn record_type(&self) -> (r: WalRecordType)
        ensures
            r == self@.record_type(),
    {
        match self {
            WalRecord::Begin { .. } => WalRecordType::Begin,
            WalRecord::Put { .. } => WalRecordType::Put,
            WalRecord::Delete { .. } => WalRecordType::Delete,
            WalRecord::Commit { .. } => WalRecordType::Commit,
            WalRecord::Abort { .. } => WalRecordType::Abort,
            WalRecord::Checkpoint { .. } => WalRecordType::Checkpoint,
        }
    }

    /// Returns the transaction ID if this record is associated with one.
    pub fn txid(&self) -> (r: Option<TransactionId>)
        ensures
            match r {
                Some(t) => self@.txid() == Some(t.0),
                None => self@.txid() is None,
            },
    {
        match self {
            WalRecord::Begin { txid } => Some(*txid),
            WalRecord::Put { txid, .. } => Some(*txid),
            WalRecord::Delete { txid, .. } => Some(*txid),
            WalRecord::Commit { txid, .. } => Some(*txid),
            WalRecord::Abort { txid } => Some(*txid),
            WalRecord::Checkpoint { .. } => None,
        }
    }

    /// Serializes the record payload (without envelope).
    ///
    /// Fails with `InvalidArgument` exactly when a `Put` payload does not fit the
    /// 4-byte length field.
    pub fn encode_payload(&self) -> (r: Result<Vec<u8>, CoreError>)
        ensures
            match r {
                Ok(v) => self@.encodable() && v@ == spec_encode_payload(self@),
                Err(e) => !self@.encodable() && e is InvalidArgument,
            },
    {
        let mut buf: Vec<u8> = Vec::new();
        match self {
            WalRecord::Begin { txid } => {
                push_u64_le(&mut buf, txid.0);
            },
            WalRecord::Abort { txid } => {
                push_u64_le(&mut buf, txid.0);
            },
            WalRecord::Put { txid, collection_id, entity_id, before_hash, after_bytes } => {
                if after_bytes.len() as u64 > WAL_MAX_PAYLOAD_SIZE {
                    let mut m = String::new();
                    push_str(&mut m, "entity payload too large: ");
                    push_decimal(&mut m, after_bytes.len() as u64);
                    push_str(&mut m, " bytes exceeds maximum of ");
                    push_decimal(&mut m, WAL_MAX_PAYLOAD_SIZE);
                    push_str(&mut m, " bytes");
                    return Err(CoreError::InvalidArgument(m));
                }
                push_u64_le(&mut buf, txid.0);
                push_u32_le(&mut buf, collection_id.0);
                push_bytes(&mut buf, entity_id.as_slice());
                push_hash_field(&mut buf, before_hash);
                push_u32_le(&mut buf, after_bytes.len() as u32);
                push_bytes(&mut buf, after_bytes.as_slice());
            },
            WalRecord::Delete { txid, collection_id, entity_id, before_hash } => {
                push_u64_le(&mut buf, txid.0);
                push_u32_le(&mut buf, collection_id.0);
                push_bytes(&mut buf, entity_id.as_slice());
                push_hash_field(&mut buf, before_hash);
            },
            WalRecord::Commit { txid, sequence } => {
                push_u64_le(&mut buf, txid.0);
                push_u64_le(&mut buf, sequence.0);
            },
            WalRecord::Checkpoint { sequence } => {
                push_u64_le(&mut buf, sequence.0);
            },
        }
        assert(buf@ =~= spec_encode_payload(self@));
        Ok(buf)
    }

    /// Deserializes a record from its type and payload.
    ///
    /// Succeeds exactly when the payload is a well-formed payload of that type,
    /// with no trailing bytes; otherwise fails with `WalCorruption`.
    pub fn decode_payload(record_type: WalRecordType, payload: &[u8]) -> (r: Result<
        WalRecord,
        CoreError,
    >)
        ensures
            match r {
                Ok(rec) => spec_decode_payload(record_type, payload@) == Some(rec@),
                Err(e) => spec_decode_payload(record_type, payload@) is None && e is WalCorruption,
            },
    {
        let n = payload.len();
        match record_type {
            WalRecordType::Begin => {
                if n < 8 {
                    return Err(CoreError::wal_corruption("unexpected end of payload"));
                }
                if n > 8 {
                    return Err(CoreError::WalCorruption(trailing_message("Begin", 8, n)));
                }
                Ok(WalRecord::Begin { txid: TransactionId(read_u64_le(payload, 0)) })
            },
            WalRecordType::Abort => {
                if n < 8 {
                    return Err(CoreError::wal_corruption("unexpected end of payload"));
                }
                if n > 8 {
                    return Err(CoreError::WalCorruption(trailing_message("Abort", 8, n)));
                }
                Ok(WalRecord::Abort { txid: TransactionId(read_u64_le(payload, 0)) })
            },
            WalRecordType::Commit => {
                if n < 16 {
                    return Err(CoreError::wal_corruption("unexpected end of payload"));
                }
                if n > 16 {
                    return Err(CoreError::WalCorruption(trailing_message("Commit", 16, n)));
                }
                Ok(
                    WalRecord::Commit {
                        txid: TransactionId(read_u64_le(payload, 0)),
                        sequence: SequenceNumber(read_u64_le(payload, 8)),
                    },
                )
            },
            WalRecordType::Checkpoint => {
                if n < 8 {
                    return Err(CoreError::wal_corruption("unexpected end of payload"));
                }
                if n > 8 {
                    return Err(CoreError::WalCorruption(trailing_message("Checkpoint", 8, n)));
                }
                Ok(WalRecord::Checkpoint { sequence: SequenceNumber(read_u64_le(payload, 0)) })
            },
            WalRecordType::Delete => {
                if n < 29 {
                    return Err(CoreError::wal_corruption("unexpected end of payload"));
                }
                let txid = TransactionId(read_u64_le(payload, 0));
                let collection_id = CollectionId(read_u32_le(payload, 8));
                let entity_id = read_array16(payload, 12);
                let (before_hash, cursor) = Self::decode_hash_field(payload);
                if cursor == 0 {
                    return Err(CoreError::wal_corruption("unexpected end of hash"));
                }
                if cursor != n {
                    return Err(CoreError::WalCorruption(trailing_message("Delete", cursor, n)));
                }
                let rec = WalRecord::Delete { txid, collection_id, entity_id, before_hash };
                assert(rec@ == spec_decode_payload(record_type, payload@).unwrap());
                Ok(rec)
            },
            WalRecordType::Put => {
                if n < 29 {
                    return Err(CoreError::wal_corruption("unexpected end of payload"));
                }
                let txid = TransactionId(read_u64_le(payload, 0));
                let collection_id = CollectionId(read_u32_le(payload, 8));
                let entity_id = read_array16(payload, 12);
                let (before_hash, cursor) = Self::decode_hash_field(payload);
                if cursor == 0 {
                    return Err(CoreError::wal_corruption("unexpected end of hash"));
                }
                if n - cursor < 4 {
                    return Err(CoreError::wal_corruption("unexpected end of payload"));
                }
                let len = read_u32_le(payload, cursor) as usize;
                let start = cursor + 4;
                if len > n - start {
                    return Err(CoreError::wal_corruption("unexpected end of after_bytes"));
                }
                if len < n - start {
                    return Err(CoreError::WalCorruption(trailing_message("Put", start + len, n)));
                }
                let after_bytes = copy_range(payload, start, n);
                let rec = WalRecord::Put { txid, collection_id, entity_id, before_hash, after_bytes };
                assert(rec@ == spec_decode_payload(record_type, payload@).unwrap());
                Ok(rec)
            },
        }
    }

    /// Reads the hash field at offset 28; returns the hash and the offset after it,
    /// or offset 0 when the payload ends inside the hash.
    fn decode_hash_field(payload: &[u8]) -> (r: (Option<[u8; 32]>, usize))
        requires
            payload@.len() >= 29,
        ensures
            r.1 == 0 ==> payload@.len() < hash_end(payload@),
            r.1 != 0 ==> r.1 == hash_end(payload@) && r.1 <= payload@.len() && hash_model(r.0)
                == decoded_hash(payload@),
    {
        let n = payload.len();
        if payload[28] != 0 {
            if n < 61 {
                return (None, 0);
            }
            (Some(read_array32(payload, 29)), 61)
        } else {
            (None, 29)
        }
    }
}

/// The message for a record of `kind` with bytes after its end.
fn trailing_message(kind: &str, expected: usize, got: usize) -> (r: String)
    ensures
        r@ == "trailing bytes in "@ + kind@ + " record: expected "@ + decimal_digits(expected as nat)
            + " bytes, got "@ + decimal_digits(got as nat),
{
    let mut m = String::new();
    push_str(&mut m, "trailing bytes in ");
    push_str(&mut m, kind);
    push_str(&mut m, " record: expected ");
    push_decimal(&mut m, expected as u64);
    push_str(&mut m, " bytes, got ");
    push_decimal(&mut m, got as u64);
    m
}

} // verus!
