//! Segment records: the on-disk form of committed entity versions.
//!
//! Layout (integers little-endian):
//! `record_len (4) | collection_id (4) | entity_id (16) | flags (1) | sequence (8) | payload (N) | crc32 (4)`
//! where `record_len = 37 + N` and the checksum covers every byte before it.

use crate::bytes::{copy_range, push_bytes, push_u32_le, push_u64_le, read_array16, read_u32_le, read_u64_le};
use crate::crc::{compute_crc32, spec_crc32};
use crate::error::CoreError;
use crate::types::{CollectionId, SequenceNumber};
use crate::wal_record::{le32_at, le64_at};
use vstd::bytes::*;
use vstd::prelude::*;

verus! {

/// Size of the fixed header: record_len, collection_id, entity_id, flags, sequence.
pub const SEGMENT_HEADER_SIZE: usize = 33;

/// Size of the trailing checksum.
pub const SEGMENT_CRC_SIZE: usize = 4;

/// Flags for segment records.
#[derive(Debug, Clone, Copy, PartialEq, Eq, Structural, Default)]
pub struct SegmentRecordFlags(pub u8);

impl SegmentRecordFlags {
    /// No flags set.
    pub fn none() -> (r: Self)
        ensures
            r.0 == 0,
    {
        SegmentRecordFlags(0)
    }

    /// Only the tombstone flag (entity deleted).
    pub fn tombstone() -> (r: Self)
        ensures
            r.0 == 1,
    {
        SegmentRecordFlags(1)
    }

    /// Only the encrypted flag (payload is encrypted).
    pub fn encrypted() -> (r: Self)
        ensures
            r.0 == 2,
    {
        SegmentRecordFlags(2)
    }

    /// Creates flags from a raw byte.
    pub fn from_byte(b: u8) -> (r: Self)
        ensures
            r.0 == b,
    {
        SegmentRecordFlags(b)
    }

    /// Returns the raw byte value.
    pub fn as_byte(self) -> (r: u8)
        ensures
            r == self.0,
    {
        self.0
    }

    /// Checks if the tombstone flag is set.
    pub fn is_tombstone(self) -> (r: bool)
        ensures
            r == (self.0 & 1 != 0),
    {
        self.0 & 1 != 0
    }

    /// Checks if the encrypted flag is set.
    pub fn is_encrypted(self) -> (r: bool)
        ensures
            r == (self.0 & 2 != 0),
    {
        self.0 & 2 != 0
    }

    /// Sets the tombstone flag, keeping the others.
    pub fn with_tombstone(self) -> (r: Self)
        ensures
            r.0 == self.0 | 1,
            r.0 & 1 != 0,
            r.0 & 2 == self.0 & 2,
    {
        let b = self.0;
        assert((b | 1) & 1 != 0 && (b | 1) & 2 == b & 2) by (bit_vector);
        SegmentRecordFlags(b | 1)
    }
}

/// A record stored in a segment.
#[derive(Debug, Clone, PartialEq, Eq)]
pub struct SegmentRecord {
    /// Collection this entity belongs to.
    pub collection_id: CollectionId,
    /// Entity identifier (128-bit UUID).
    pub entity_id: [u8; 16],
    /// Record flags.
    pub flags: SegmentRecordFlags,
    /// Entity payload (canonical CBOR bytes, or empty for tombstone).
    pub payload: Vec<u8>,
    /// Sequence number when this record was committed.
    pub sequence: SequenceNumber,
}

/// Mathematical model of a segment record.
pub struct SegmentRecordModel {
    pub collection_id: u32,
    pub entity_id: Seq<u8>,
    pub flags: u8,
    pub payload: Seq<u8>,
    pub sequence: u64,
}

impl View for SegmentRecord {
    type V = SegmentRecordModel;

    open spec fn view(&self) -> SegmentRecordModel {
        SegmentRecordModel {
            collection_id: self.collection_id.0,
            entity_id: self.entity_id@,
            flags: self.flags.0,
            payload: self.payload@,
            sequence: self.sequence.0,
        }
    }
}

impl SegmentRecordModel {
    /// Whether the record is a tombstone.
    pub open spec fn is_tombstone(self) -> bool {
        self.flags & 1 != 0
    }

    /// Total encoded length.
    pub open spec fn encoded_len(self) -> int {
        37 + self.payload.len() as int
    }

    /// Whether the encoded length fits the 4-byte length field.
    pub open spec fn encodable(self) -> bool {
        self.encoded_len() <= u32::MAX
    }

    /// The encoded bytes before the checksum.
    pub open spec fn body(self) -> Seq<u8> {
        spec_u32_to_le_bytes(self.encoded_len() as u32) + spec_u32_to_le_bytes(self.collection_id)
            + self.entity_id + seq![self.flags] + spec_u64_to_le_bytes(self.sequence) + self.payload
    }
}

/// The full encoding of a record: its body followed by the body's checksum.
pub open spec fn spec_encode_segment_record(r: SegmentRecordModel) -> Seq<u8> {
    r.body() + spec_u32_to_le_bytes(spec_crc32(r.body()))
}

/// Why a byte string is not a segment record.
pub enum SegmentDecodeFailure {
    /// Shorter than the fixed header and checksum, or a length field below that size.
    TooShort,
    /// The length field reaches beyond the given bytes.
    Incomplete,
    /// The stored checksum differs from the computed one.
    Checksum { expected: u32, actual: u32 },
}

/// The declared length of the record at the start of `d`.
pub open spec fn declared_len(d: Seq<u8>) -> int {
    le32_at(d, 0) as int
}

/// Decoding of the record at the start of `d` (bytes after its length are ignored).
pub open spec fn spec_decode_segment_record(d: Seq<u8>) -> Result<SegmentRecordModel, SegmentDecodeFailure> {
    if d.len() < 37 {
        Err(SegmentDecodeFailure::TooShort)
    } else if d.len() < declared_len(d) {
        Err(SegmentDecodeFailure::Incomplete)
    } else if declared_len(d) < 37 {
        Err(SegmentDecodeFailure::TooShort)
    } else if le32_at(d, declared_len(d) - 4) != spec_crc32(d.subrange(0, declared_len(d) - 4)) {
        Err(
            SegmentDecodeFailure::Checksum {
                expected: le32_at(d, declared_len(d) - 4),
                actual: spec_crc32(d.subrange(0, declared_len(d) - 4)),
            },
        )
    } else {
        Ok(
            SegmentRecordModel {
                collection_id: le32_at(d, 4),
                entity_id: d.subrange(8, 24),
                flags: d[24],
                sequence: le64_at(d, 25),
                payload: d.subrange(33, declared_len(d) - 4),
            },
        )
    }
}

/// Whether a decoding failure and an error agree.
pub open spec fn decode_error_matches(f: SegmentDecodeFailure, e: CoreError) -> bool {
    match f {
        SegmentDecodeFailure::Checksum { expected, actual } => e == CoreError::ChecksumMismatch {
            expected,
            actual,
        },
        _ => e is SegmentCorruption,
    }
}

/// A record followed by any bytes decodes to that record: the decoder reads
/// exactly the encoding that the encoder writes.
pub proof fn lemma_segment_record_roundtrip(r: SegmentRecordModel, rest: Seq<u8>)
    requires
        r.entity_id.len() == 16,
        r.encodable(),
    ensures
        spec_decode_segment_record(spec_encode_segment_record(r) + rest) == Ok::<
            SegmentRecordModel,
            SegmentDecodeFailure,
        >(r),
        spec_encode_segment_record(r).len() == r.encoded_len(),
        declared_len(spec_encode_segment_record(r) + rest) == r.encoded_len(),
{
    lemma_auto_spec_u64_to_from_le_bytes();
    lemma_auto_spec_u32_to_from_le_bytes();
    let body = r.body();
    let e = spec_encode_segment_record(r);
    let d = e + rest;
    let l = r.encoded_len();
    assert(body.len() == l - 4);
    assert(d.subrange(0, 4) =~= spec_u32_to_le_bytes(l as u32));
    assert(declared_len(d) == l);
    assert(d.subrange(0, l - 4) =~= body);
    assert(d.subrange(l - 4, l) =~= spec_u32_to_le_bytes(spec_crc32(body)));
    assert(d.subrange(4, 8) =~= spec_u32_to_le_bytes(r.collection_id));
    assert(d.subrange(8, 24) =~= r.entity_id);
    assert(d[24] == r.flags);
    assert(d.subrange(25, 33) =~= spec_u64_to_le_bytes(r.sequence));
    assert(d.subrange(33, l - 4) =~= r.payload);
}

impl SegmentRecord {
    /// Creates a new put record.
    pub fn put(
        collection_id: CollectionId,
        entity_id: [u8; 16],
        payload: Vec<u8>,
        sequence: SequenceNumber,
    ) -> (r: Self)
        ensures
            r.collection_id == collection_id,
            r.entity_id == entity_id,
            r.flags.0 == 0,
            r.payload@ == payload@,
            r.sequence == sequence,
    {
        SegmentRecord { collection_id, entity_id, flags: SegmentRecordFlags(0), payload, sequence }
    }

    /// Creates a tombstone record.
    pub fn tombstone(collection_id: CollectionId, entity_id: [u8; 16], sequence: SequenceNumber) -> (r:
        Self)
        ensures
            r.collection_id == collection_id,
            r.entity_id == entity_id,
            r.flags.0 == 1,
            r.payload@ == Seq::<u8>::empty(),
            r.sequence == sequence,
    {
        SegmentRecord {
            collection_id,
            entity_id,
            flags: SegmentRecordFlags(1),
            payload: Vec::new(),
            sequence,
        }
    }

    /// Returns whether this is a tombstone.
    pub fn is_tombstone(&self) -> (r: bool)
        ensures
            r == self@.is_tombstone(),
    {
        self.flags.is_tombstone()
    }

    /// Returns the encoded size of this record.
    pub fn encoded_size(&self) -> (r: usize)
        requires
            self@.encoded_len() <= usize::MAX,
        ensures
            r == self@.encoded_len(),
    {
        SEGMENT_HEADER_SIZE + self.payload.len() + SEGMENT_CRC_SIZE
    }

    /// Encodes the record to bytes.
    pub fn encode(&self) -> (r: Vec<u8>)
        requires
            self@.encodable(),
        ensures
            r@ == spec_encode_segment_record(self@),
    {
        let record_len = (self.payload.len() as u64 + 37) as u32;
        let mut buf: Vec<u8> = Vec::new();
        push_u32_le(&mut buf, record_len);
        push_u32_le(&mut buf, self.collection_id.0);
        push_bytes(&mut buf, self.entity_id.as_slice());
        buf.push(self.flags.0);
        push_u64_le(&mut buf, self.sequence.0);
        push_bytes(&mut buf, self.payload.as_slice());
        assert(buf@ =~= self@.body());
        let crc = compute_crc32(buf.as_slice());
        push_u32_le(&mut buf, crc);
        buf
    }

    /// Decodes the record at the start of `data`.
    ///
    /// Fails with `SegmentCorruption` when the bytes are too short for a record or
    /// its declared length, and with `ChecksumMismatch` when the checksum is wrong.
    pub fn decode(data: &[u8]) -> (r: Result<Self, CoreError>)
        ensures
            match r {
                Ok(rec) => spec_decode_segment_record(data@) == Ok::<
                    SegmentRecordModel,
                    SegmentDecodeFailure,
                >(rec@),
                Err(e) => spec_decode_segment_record(data@) is Err && decode_error_matches(
                    spec_decode_segment_record(data@)->Err_0,
                    e,
                ),
            },
    {
        let n = data.len();
        if n < 37 {
            return Err(CoreError::segment_corruption("record too short"));
        }
        let record_len = read_u32_le(data, 0) as usize;
        if n < record_len {
            return Err(CoreError::segment_corruption("incomplete record"));
        }
        if record_len < 37 {
            return Err(CoreError::segment_corruption("record too short"));
        }
        let stored_crc = read_u32_le(data, record_len - 4);
        let computed_crc = compute_crc32(vstd::slice::slice_subrange(data, 0, record_len - 4));
        if stored_crc != computed_crc {
            return Err(CoreError::ChecksumMismatch { expected: stored_crc, actual: computed_crc });
        }
        let collection_id = CollectionId(read_u32_le(data, 4));
        let entity_id = read_array16(data, 8);
        let flags = SegmentRecordFlags(data[24]);
        let sequence = SequenceNumber(read_u64_le(data, 25));
        let payload = copy_range(data, 33, record_len - 4);
        Ok(SegmentRecord { collection_id, entity_id, flags, payload, sequence })
    }
}

/// A segment file containing entity records.
#[derive(Debug)]
pub struct Segment {
    /// Segment ID (monotonically increasing).
    pub id: u64,
    /// Whether this segment is sealed (immutable).
    pub sealed: bool,
    /// Current size in bytes.
    pub size: u64,
}

impl Segment {
    /// Creates a new, empty, unsealed segment.
    pub fn new(id: u64) -> (r: Self)
        ensures
            r.id == id,
            !r.sealed,
            r.size == 0,
    {
        Segment { id, sealed: false, size: 0 }
    }
}

} // verus!
