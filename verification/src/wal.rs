//! The write-ahead log: framing of records, appending, streaming reads and
//! the first recovery pass.
//!
//! Each record is stored as
//! `| magic "EWAL" (4) | version (2) | type (1) | length (4) | payload | crc32 (4) |`,
//! integers little-endian, the checksum taken over everything before it.
//!
//! Reading follows the recovery policy: a truncated header or payload at the
//! end is a clean end of the log (a crash mid-write); a bad magic, a version
//! from the future, an unknown type, a checksum mismatch or a malformed
//! payload is corruption, and reading stops with an error.

use crate::bytes::{push_bytes, push_u16_le, push_u32_le, read_u16_le, read_u32_le};
use crate::crc::{compute_crc32, spec_crc32};
use crate::error::CoreError;
use crate::storage::StorageBackend;
use crate::text::{decimal_digits, push_decimal, push_str};
use crate::types::{SequenceNumber, TransactionId};
use crate::wal_record::{
    le32_at, lemma_wal_payload_roundtrip, record_type_byte, record_type_from_byte,
    spec_decode_payload, spec_encode_payload, WalRecord, WalRecordModel, WalRecordType,
};
use vstd::bytes::*;
use vstd::arithmetic::power2::pow2;
use vstd::prelude::*;

verus! {

broadcast use vstd::std_specs::hash::group_hash_axioms;

/// Size of a record header: magic, version, type and length.
pub const HEADER_SIZE: usize = 11;

/// Size of the trailing checksum.
pub const CRC_SIZE: usize = 4;

/// Current version of the record format.
pub const WAL_VERSION: u16 = 1;

/// Initial size of the read buffer of an iterator.
pub const READ_BUFFER_SIZE: usize = 65536;

/// The magic bytes that open every record: `"EWAL"`.
pub open spec fn wal_magic() -> Seq<u8> {
    seq![0x45u8, 0x57u8, 0x41u8, 0x4Cu8]
}

/// Little-endian `u16` read at `off`.
pub open spec fn le16_at(d: Seq<u8>, off: int) -> u16 {
    spec_u16_from_le_bytes(d.subrange(off, off + 2))
}

/// A record can be framed when its payload length fits the 4-byte length field.
pub open spec fn frameable(r: WalRecordModel) -> bool {
    r.encodable() && spec_encode_payload(r).len() <= u32::MAX
}

/// The framed bytes of a record before its checksum.
pub open spec fn spec_frame_body(r: WalRecordModel) -> Seq<u8> {
    let p = spec_encode_payload(r);
    wal_magic() + spec_u16_to_le_bytes(1u16) + seq![record_type_byte(r.record_type())]
        + spec_u32_to_le_bytes(p.len() as u32) + p
}

/// The framed bytes of a record, as stored in the log.
pub open spec fn spec_frame(r: WalRecordModel) -> Seq<u8> {
    spec_frame_body(r) + spec_u32_to_le_bytes(spec_crc32(spec_frame_body(r)))
}

/// The framed bytes of a sequence of records, one after the other.
pub open spec fn spec_frames(rs: Seq<WalRecordModel>) -> Seq<u8>
    decreases rs.len(),
{
    if rs.len() == 0 {
        Seq::empty()
    } else {
        spec_frames(rs.drop_last()) + spec_frame(rs.last())
    }
}

/// Corruption found while reading the log.
pub enum WalFault {
    /// The record does not start with the magic bytes.
    BadMagic,
    /// The record has a format version newer than this library's.
    BadVersion(u16),
    /// The record type byte is unknown.
    BadType(u8),
    /// The stored checksum differs from the one computed over the record.
    Checksum { expected: u32, actual: u32 },
    /// The payload is not a well-formed payload of its type.
    BadPayload,
}

/// What reading at an offset finds.
pub enum WalStep {
    /// The end of the log, or a record cut short by a crash.
    End,
    /// A valid record, and the offset just after it.
    Record(WalRecordModel, int),
    /// Corruption.
    Fault(WalFault),
}

/// What reading the log `d` at offset `off` finds.
pub open spec fn wal_step(d: Seq<u8>, off: int) -> WalStep {
    if off + 11 > d.len() {
        WalStep::End
    } else if d.subrange(off, off + 4) != wal_magic() {
        WalStep::Fault(WalFault::BadMagic)
    } else if le16_at(d, off + 4) > 1 {
        WalStep::Fault(WalFault::BadVersion(le16_at(d, off + 4)))
    } else if record_type_from_byte(d[off + 6]) is None {
        WalStep::Fault(WalFault::BadType(d[off + 6]))
    } else {
        let len = le32_at(d, off + 7) as int;
        if off + 15 + len > d.len() {
            WalStep::End
        } else {
            let body = d.subrange(off, off + 11 + len);
            let stored = le32_at(d, off + 11 + len);
            if stored != spec_crc32(body) {
                WalStep::Fault(WalFault::Checksum { expected: stored, actual: spec_crc32(body) })
            } else {
                match spec_decode_payload(
                    record_type_from_byte(d[off + 6]).unwrap(),
                    d.subrange(off + 11, off + 11 + len),
                ) {
                    Some(r) => WalStep::Record(r, off + 15 + len),
                    None => WalStep::Fault(WalFault::BadPayload),
                }
            }
        }
    }
}

/// The records read from offset `off` on, each with its offset, up to the end
/// of the log, a truncated record, or corruption.
pub open spec fn wal_records(d: Seq<u8>, off: int) -> Seq<(u64, WalRecordModel)>
    decreases d.len() - off,
{
    if 0 <= off <= d.len() {
        match wal_step(d, off) {
            WalStep::Record(r, n) => if off < n <= d.len() {
                seq![(off as u64, r)] + wal_records(d, n)
            } else {
                Seq::empty()
            },
            _ => Seq::empty(),
        }
    } else {
        Seq::empty()
    }
}

/// The corruption that stops reading from offset `off` on, if any.
pub open spec fn wal_fault(d: Seq<u8>, off: int) -> Option<WalFault>
    decreases d.len() - off,
{
    if 0 <= off <= d.len() {
        match wal_step(d, off) {
            WalStep::Record(r, n) => if off < n <= d.len() {
                wal_fault(d, n)
            } else {
                None
            },
            WalStep::Fault(f) => Some(f),
            WalStep::End => None,
        }
    } else {
        None
    }
}

/// The offset where reading from `off` stops.
pub open spec fn wal_end(d: Seq<u8>, off: int) -> int
    decreases d.len() - off,
{
    if 0 <= off <= d.len() {
        match wal_step(d, off) {
            WalStep::Record(r, n) => if off < n <= d.len() {
                wal_end(d, n)
            } else {
                off
            },
            _ => off,
        }
    } else {
        off
    }
}

/// The log consists of whole, valid records only.
pub open spec fn wal_clean(d: Seq<u8>) -> bool {
    wal_fault(d, 0) is None && wal_end(d, 0) == d.len()
}

/// The records of a whole log, without their offsets.
pub open spec fn record_models(s: Seq<(u64, WalRecordModel)>) -> Seq<WalRecordModel> {
    s.map_values(|e: (u64, WalRecordModel)| e.1)
}

/// The error reported for corruption found at offset `off`.
pub open spec fn fault_error(f: WalFault, off: u64, e: CoreError) -> bool {
    match f {
        WalFault::BadMagic => e matches CoreError::WalCorruption(m) && m@ == "invalid magic at offset "@
            + decimal_digits(off as nat),
        WalFault::BadVersion(v) => e matches CoreError::WalCorruption(m) && m@
            == "unsupported version "@ + decimal_digits(v as nat) + " at offset "@ + decimal_digits(
            off as nat,
        ),
        WalFault::BadType(b) => e matches CoreError::WalCorruption(m) && m@ == "unknown record type "@
            + decimal_digits(b as nat) + " at offset "@ + decimal_digits(off as nat),
        WalFault::Checksum { expected, actual } => e == CoreError::ChecksumMismatch {
            expected,
            actual,
        },
        WalFault::BadPayload => e is WalCorruption,
    }
}

proof fn lemma_step_advances(d: Seq<u8>, off: int)
    requires
        0 <= off,
        wal_step(d, off) is Record,
    ensures
        off < wal_step(d, off)->Record_1 <= d.len(),
{
}

proof fn lemma_frame_layout(r: WalRecordModel)
    requires
        frameable(r),
    ensures
        spec_frame(r).len() == 15 + spec_encode_payload(r).len(),
        spec_frame_body(r).len() == 11 + spec_encode_payload(r).len(),
        spec_frame(r).subrange(0, 4) == wal_magic(),
        le16_at(spec_frame(r), 4) == 1,
        spec_frame(r)[6] == record_type_byte(r.record_type()),
        le32_at(spec_frame(r), 7) == spec_encode_payload(r).len(),
        spec_frame(r).subrange(0, 11 + spec_encode_payload(r).len() as int) == spec_frame_body(r),
        spec_frame(r).subrange(11, 11 + spec_encode_payload(r).len() as int) == spec_encode_payload(r),
        le32_at(spec_frame(r), 11 + spec_encode_payload(r).len() as int) == spec_crc32(spec_frame_body(r)),
{
    lemma_auto_spec_u16_to_from_le_bytes();
    lemma_auto_spec_u32_to_from_le_bytes();
    let p = spec_encode_payload(r);
    let b = spec_frame_body(r);
    let f = spec_frame(r);
    let n = p.len() as int;
    assert(f.subrange(0, 4) =~= wal_magic());
    assert(f.subrange(4, 6) =~= spec_u16_to_le_bytes(1u16));
    assert(f.subrange(7, 11) =~= spec_u32_to_le_bytes(p.len() as u32));
    assert(f.subrange(0, 11 + n) =~= b);
    assert(f.subrange(11, 11 + n) =~= p);
    assert(f.subrange(11 + n, 15 + n) =~= spec_u32_to_le_bytes(spec_crc32(b)));
}

/// A framed record, found in the log at offset `off`, reads back as itself.
proof fn lemma_frame_step(d: Seq<u8>, off: int, r: WalRecordModel)
    requires
        0 <= off,
        off + spec_frame(r).len() <= d.len(),
        d.subrange(off, off + spec_frame(r).len()) == spec_frame(r),
        r.well_formed(),
        frameable(r),
    ensures
        wal_step(d, off) == WalStep::Record(r, off + spec_frame(r).len()),
{
    lemma_frame_layout(r);
    lemma_wal_payload_roundtrip(r);
    let f = spec_frame(r);
    let n = spec_encode_payload(r).len() as int;
    assert(d.subrange(off, off + 4) =~= f.subrange(0, 4));
    assert(d.subrange(off + 4, off + 6) =~= f.subrange(4, 6));
    assert(d[off + 6] == f[6]);
    assert(d.subrange(off + 7, off + 11) =~= f.subrange(7, 11));
    assert(d.subrange(off, off + 11 + n) =~= f.subrange(0, 11 + n));
    assert(d.subrange(off + 11, off + 11 + n) =~= f.subrange(11, 11 + n));
    assert(d.subrange(off + 11 + n, off + 15 + n) =~= f.subrange(11 + n, 15 + n));
    let t = r.record_type();
    assert(record_type_from_byte(record_type_byte(t)) == Some(t));
}

/// Reading a step only looks at the bytes of the record it finds.
proof fn lemma_step_extend(d: Seq<u8>, x: Seq<u8>, off: int)
    requires
        0 <= off,
        wal_step(d, off) is Record,
    ensures
        wal_step(d + x, off) == wal_step(d, off),
{
    let e = d + x;
    let len = le32_at(d, off + 7) as int;
    assert(e.subrange(off, off + 4) =~= d.subrange(off, off + 4));
    assert(e.subrange(off + 4, off + 6) =~= d.subrange(off + 4, off + 6));
    assert(e.subrange(off + 7, off + 11) =~= d.subrange(off + 7, off + 11));
    assert(e.subrange(off, off + 11 + len) =~= d.subrange(off, off + 11 + len));
    assert(e.subrange(off + 11, off + 11 + len) =~= d.subrange(off + 11, off + 11 + len));
    assert(e.subrange(off + 11 + len, off + 15 + len) =~= d.subrange(off + 11 + len, off + 15 + len));
}

/// Reading a log that has more bytes after a clean part reads the clean part,
/// then goes on from its end.
proof fn lemma_scan_extend(d: Seq<u8>, x: Seq<u8>, off: int)
    requires
        0 <= off <= d.len(),
        wal_fault(d, off) is None,
        wal_end(d, off) == d.len(),
    ensures
        wal_records(d + x, off) == wal_records(d, off) + wal_records(d + x, d.len() as int),
        wal_fault(d + x, off) == wal_fault(d + x, d.len() as int),
        wal_end(d + x, off) == wal_end(d + x, d.len() as int),
    decreases d.len() - off,
{
    if off == d.len() {
        assert(wal_records(d, off) =~= Seq::<(u64, WalRecordModel)>::empty()) by {
            assert(wal_step(d, off) is End);
        }
        assert(wal_records(d + x, off) =~= wal_records(d, off) + wal_records(d + x, d.len() as int));
    } else {
        match wal_step(d, off) {
            WalStep::Record(r, n) => {
                lemma_step_advances(d, off);
                lemma_step_extend(d, x, off);
                lemma_step_advances(d + x, off);
                lemma_scan_extend(d, x, n);
                assert(wal_records(d + x, off) =~= wal_records(d, off) + wal_records(
                    d + x,
                    d.len() as int,
                ));
            },
            _ => {
                assert(wal_end(d, off) == off);
            },
        }
    }
}

/// Appending a framed record to a clean log keeps it clean, and reading it
/// gives back the records it had, then the new one at the old end.
pub proof fn lemma_wal_append(d: Seq<u8>, r: WalRecordModel)
    requires
        wal_clean(d),
        r.well_formed(),
        frameable(r),
    ensures
        wal_clean(d + spec_frame(r)),
        wal_records(d + spec_frame(r), 0) == wal_records(d, 0).push((d.len() as u64, r)),
{
    let e = d + spec_frame(r);
    let n = d.len() as int;
    lemma_frame_layout(r);
    lemma_scan_extend(d, spec_frame(r), 0);
    assert(e.subrange(n, n + spec_frame(r).len()) =~= spec_frame(r));
    lemma_frame_step(e, n, r);
    let m = e.len() as int;
    assert(wal_step(e, m) is End);
    assert(wal_records(e, m) =~= Seq::<(u64, WalRecordModel)>::empty());
    assert(wal_fault(e, m) is None);
    assert(wal_end(e, m) == m);
    assert(wal_fault(e, n) is None);
    assert(wal_end(e, n) == m);
    assert(wal_records(e, n) =~= seq![(n as u64, r)]);
    assert(wal_records(e, 0) =~= wal_records(d, 0).push((n as u64, r)));
}

/// A log made of framed records reads back as exactly those records.
pub proof fn lemma_wal_frames_roundtrip(rs: Seq<WalRecordModel>)
    requires
        forall|i: int| 0 <= i < rs.len() ==> (#[trigger] rs[i]).well_formed() && frameable(rs[i]),
    ensures
        wal_clean(spec_frames(rs)),
        record_models(wal_records(spec_frames(rs), 0)) == rs,
    decreases rs.len(),
{
    if rs.len() == 0 {
        assert(wal_step(spec_frames(rs), 0) is End);
        assert(record_models(wal_records(spec_frames(rs), 0)) =~= rs);
    } else {
        let init = rs.drop_last();
        assert forall|i: int| 0 <= i < init.len() implies (#[trigger] init[i]).well_formed()
            && frameable(init[i]) by {
            assert(init[i] == rs[i]);
        }
        lemma_wal_frames_roundtrip(init);
        assert(rs[rs.len() - 1] == rs.last());
        lemma_wal_append(spec_frames(init), rs.last());
        let s = wal_records(spec_frames(init), 0);
        let x = (spec_frames(init).len() as u64, rs.last());
        assert(record_models(s.push(x)) =~= record_models(s).push(rs.last()));
        assert(init.push(rs.last()) =~= rs);
    }
}

/// Frames a record: header, payload and checksum.
///
/// Fails with `InvalidArgument` when an entity payload exceeds the 4-byte
/// length field, and with `InvalidOperation` when the whole record payload
/// does.
fn frame_record(record: &WalRecord) -> (r: Result<Vec<u8>, CoreError>)
    ensures
        match r {
            Ok(v) => frameable(record@) && v@ == spec_frame(record@),
            Err(e) => !frameable(record@) && (!record@.encodable() ==> e is InvalidArgument) && (
            record@.encodable() ==> (e matches CoreError::InvalidOperation(m) && m@
                == "WAL record payload too large"@)),
        },
{
    let payload = record.encode_payload()?;
    let record_type = record.record_type();
    if payload.len() as u64 > 0xFFFF_FFFFu64 {
        return Err(CoreError::invalid_operation("WAL record payload too large"));
    }
    let mut data: Vec<u8> = Vec::new();
    data.push(0x45u8);
    data.push(0x57u8);
    data.push(0x41u8);
    data.push(0x4Cu8);
    push_u16_le(&mut data, WAL_VERSION);
    data.push(record_type.as_byte());
    push_u32_le(&mut data, payload.len() as u32);
    push_bytes(&mut data, payload.as_slice());
    assert(data@ =~= spec_frame_body(record@));
    let crc = compute_crc32(data.as_slice());
    push_u32_le(&mut data, crc);
    Ok(data)
}

/// A log: records framed and appended to a storage backend.
pub struct WalManager<B: StorageBackend> {
    backend: B,
    sync_on_write: bool,
}

impl<B: StorageBackend> View for WalManager<B> {
    type V = Seq<u8>;

    /// The bytes of the log.
    closed spec fn view(&self) -> Seq<u8> {
        self.backend.contents()
    }
}

/// The records with their offsets, each record by its model.
pub open spec fn entries_view(v: Seq<(u64, WalRecord)>) -> Seq<(u64, WalRecordModel)> {
    v.map_values(|e: (u64, WalRecord)| (e.0, e.1@))
}

impl<B: StorageBackend> WalManager<B> {
    /// The backend's invariant holds.
    pub closed spec fn wf(&self) -> bool {
        self.backend.valid()
    }

    /// Whether the backend declares itself infallible.
    pub closed spec fn infallible(&self) -> bool {
        self.backend.infallible()
    }

    /// Whether every append is flushed before it is acknowledged.
    pub closed spec fn syncs_on_write(&self) -> bool {
        self.sync_on_write
    }

    /// Creates a log over `backend`.
    pub fn new(backend: B, sync_on_write: bool) -> (r: Self)
        requires
            backend.valid(),
        ensures
            r.wf(),
            r@ == backend.contents(),
            r.syncs_on_write() == sync_on_write,
            r.infallible() == backend.infallible(),
    {
        WalManager { backend, sync_on_write }
    }

    /// The backend the log is stored in.
    pub fn backend(&self) -> (r: &B)
        ensures
            r.contents() == self@,
            r.valid() == self.wf(),
    {
        &self.backend
    }

    /// Mutable access to the backend the log is stored in.
    pub fn backend_mut(&mut self) -> (r: &mut B)
        ensures
            r.contents() == old(self)@,
            r.valid() == old(self).wf(),
            final(r).valid() == final(self).wf(),
            final(r).contents() == final(self)@,
            final(self).syncs_on_write() == old(self).syncs_on_write(),
            r.infallible() == old(self).infallible(),
            final(r).infallible() == final(self).infallible(),
    {
        &mut self.backend
    }

    /// Appends a record and returns the offset where it was written.
    ///
    /// The record is framed and written in one append; with `sync_on_write`
    /// the backend is flushed before returning.
    pub fn append(&mut self, record: &WalRecord) -> (r: Result<u64, CoreError>)
        requires
            old(self).wf(),
        ensures
            final(self).wf(),
            final(self).syncs_on_write() == old(self).syncs_on_write(),
            r matches Ok(off) ==> frameable(record@) && off == old(self)@.len() && final(self)@
                == old(self)@ + spec_frame(record@),
            r matches Err(e) ==> e is Storage || (!frameable(record@) && final(self)@ == old(
                self,
            )@),
            !frameable(record@) ==> r is Err,
            !record@.encodable() ==> (r matches Err(e) && e is InvalidArgument),
            old(self).infallible() ==> final(self).infallible(),
            old(self).infallible() && frameable(record@) ==> r is Ok,
    {
        let data = frame_record(record)?;
        let offset = match self.backend.append(data.as_slice()) {
            Ok(o) => o,
            Err(e) => return Err(CoreError::Storage(e)),
        };
        if self.sync_on_write {
            match self.backend.flush() {
                Ok(()) => {},
                Err(e) => return Err(CoreError::Storage(e)),
            }
        }
        Ok(offset)
    }

    /// Makes all appended records durable.
    pub fn flush(&mut self) -> (r: Result<(), CoreError>)
        requires
            old(self).wf(),
        ensures
            final(self).wf(),
            final(self)@ == old(self)@,
            final(self).syncs_on_write() == old(self).syncs_on_write(),
            r matches Err(e) ==> e is Storage,
            old(self).infallible() ==> r is Ok && final(self).infallible(),
    {
        match self.backend.flush() {
            Ok(()) => Ok(()),
            Err(e) => Err(CoreError::Storage(e)),
        }
    }

    /// The size of the log in bytes.
    pub fn size(&self) -> (r: Result<u64, CoreError>)
        requires
            self.wf(),
        ensures
            r matches Ok(n) ==> n == self@.len(),
            r matches Err(e) ==> e is Storage,
            self.infallible() ==> r is Ok,
    {
        match self.backend.size() {
            Ok(n) => Ok(n),
            Err(e) => Err(CoreError::Storage(e)),
        }
    }

    /// A streaming reader over the records, from the start of the log.
    pub fn iter(&self) -> (r: Result<WalRecordIterator<'_, B>, CoreError>)
        requires
            self.wf(),
        ensures
            r matches Ok(it) ==> it.wf() && it@ == (WalCursor { data: self@, offset: 0, finished: false }),
            r matches Err(e) ==> e is Storage || e is InvalidOperation,
            self.infallible() && self@.len() <= usize::MAX ==> r is Ok,
            r matches Ok(it) ==> it.infallible() == self.infallible(),
    {
        WalRecordIterator::new(&self.backend, 0)
    }

    /// Reads all records, each with its offset.
    ///
    /// Fails if the log is corrupt, with the error for the first corruption.
    pub fn read_all(&self) -> (r: Result<Vec<(u64, WalRecord)>, CoreError>)
        requires
            self.wf(),
        ensures
            r matches Ok(v) ==> wal_fault(self@, 0) is None && entries_view(v@) == wal_records(
                self@,
                0,
            ),
            r matches Err(e) ==> e is Storage || e is InvalidOperation || (wal_fault(self@, 0) matches Some(
                f,
            ) && fault_error(f, wal_end(self@, 0) as u64, e)),
            self.infallible() && self@.len() <= usize::MAX ==> (r is Ok <==> wal_fault(self@, 0) is None),
            self.infallible() && self@.len() <= usize::MAX ==> (r matches Err(e) ==> (wal_fault(self@, 0) matches Some(
                f,
            ) && fault_error(f, wal_end(self@, 0) as u64, e))),
    {
        let mut it = self.iter()?;
        let mut out: Vec<(u64, WalRecord)> = Vec::new();
        let ghost d = self@;
        loop
            invariant
                it.wf(),
                it@.data == d,
                d == self@,
                !it@.finished,
                0 <= it@.offset <= d.len(),
                entries_view(out@) + wal_records(d, it@.offset) == wal_records(d, 0),
                wal_fault(d, it@.offset) == wal_fault(d, 0),
                wal_end(d, it@.offset) == wal_end(d, 0),
                it.infallible() == self.infallible(),
            decreases d.len() - it@.offset,
        {
            let ghost before = it@;
            proof {
                if wal_step(d, before.offset) is Record {
                    lemma_step_advances(d, before.offset);
                }
            }
            match it.next() {
                Some(Ok(entry)) => {
                    proof {
                        assert(entries_view(out@.push(entry)) =~= entries_view(out@).push(
                            (entry.0, entry.1@),
                        ));
                        let n = it@.offset;
                        assert(wal_records(d, before.offset) =~= seq![(before.offset as u64, entry.1@)]
                            + wal_records(d, n));
                    }
                    out.push(entry);
                },
                Some(Err(e)) => {
                    return Err(e);
                },
                None => {
                    proof {
                        assert(entries_view(out@) =~= wal_records(d, 0));
                    }
                    return Ok(out);
                },
            }
        }
    }

    /// Hands each record, in order, to `callback`, until it returns
    /// `Ok(false)` or an error, or the log ends.
    pub fn for_each_streaming<F>(&self, mut callback: F) -> (r: Result<(), CoreError>) where
        F: FnMut(u64, WalRecord) -> Result<bool, CoreError>,

        requires
            self.wf(),
            forall|f: F, o: u64, rec: WalRecord| #[trigger] call_requires(f, (o, rec)),
        ensures
            r matches Err(e) ==> e is Storage || e is InvalidOperation || (wal_fault(self@, 0) matches Some(
                x,
            ) && fault_error(x, wal_end(self@, 0) as u64, e)) || exists|g: F, o: u64, rec: WalRecord|
                #[trigger] call_ensures(g, (o, rec), Err::<bool, CoreError>(e)),
            (forall|g: F, o: u64, rec: WalRecord, res: Result<bool, CoreError>|
                #[trigger] call_ensures(g, (o, rec), res) ==> res == Ok::<bool, CoreError>(true)) ==> (r is Ok
                ==> wal_fault(self@, 0) is None) && (r matches Err(e) ==> e is Storage || e is InvalidOperation
                || (wal_fault(self@, 0) matches Some(x) && fault_error(x, wal_end(self@, 0) as u64, e))),
    {
        let mut it = self.iter()?;
        let ghost d = self@;
        loop
            invariant
                it.wf(),
                it@.data == d,
                d == self@,
                !it@.finished,
                0 <= it@.offset <= d.len(),
                wal_fault(d, it@.offset) == wal_fault(d, 0),
                wal_end(d, it@.offset) == wal_end(d, 0),
                forall|f: F, o: u64, rec: WalRecord| #[trigger] call_requires(f, (o, rec)),
            decreases d.len() - it@.offset,
        {
            let ghost before = it@;
            proof {
                if wal_step(d, before.offset) is Record {
                    lemma_step_advances(d, before.offset);
                }
            }
            match it.next() {
                Some(Ok((offset, record))) => {
                    match callback(offset, record) {
                        Ok(true) => {},
                        Ok(false) => return Ok(()),
                        Err(e) => return Err(e),
                    }
                },
                Some(Err(e)) => return Err(e),
                None => return Ok(()),
            }
        }
    }

    /// Same as [`WalManager::for_each_streaming`], which is the preferred name.
    pub fn for_each<F>(&self, callback: F) -> (r: Result<(), CoreError>) where
        F: FnMut(u64, WalRecord) -> Result<bool, CoreError>,

        requires
            self.wf(),
            forall|f: F, o: u64, rec: WalRecord| #[trigger] call_requires(f, (o, rec)),
    {
        self.for_each_streaming(callback)
    }

    /// Cuts the log back to `offset` bytes, discarding everything after.
    pub fn truncate(&mut self, offset: u64) -> (r: Result<(), CoreError>)
        requires
            old(self).wf(),
        ensures
            final(self).wf(),
            final(self).syncs_on_write() == old(self).syncs_on_write(),
            offset > old(self)@.len() ==> r is Err && final(self)@ == old(self)@,
            r is Ok ==> offset <= old(self)@.len() && final(self)@ == old(self)@.take(offset as int),
            r matches Err(e) ==> e is Storage,
            old(self).infallible() ==> final(self).infallible(),
            old(self).infallible() && offset <= old(self)@.len() ==> r is Ok,
    {
        match self.backend.truncate(offset) {
            Ok(()) => Ok(()),
            Err(e) => Err(CoreError::Storage(e)),
        }
    }

    /// Empties the log.
    pub fn clear(&mut self) -> (r: Result<(), CoreError>)
        requires
            old(self).wf(),
        ensures
            final(self).wf(),
            final(self).syncs_on_write() == old(self).syncs_on_write(),
            r is Ok ==> final(self)@ == Seq::<u8>::empty(),
            r matches Err(e) ==> e is Storage,
            old(self).infallible() ==> r is Ok && final(self).infallible(),
    {
        let r = self.truncate(0);
        assert(r is Ok ==> self@ =~= Seq::<u8>::empty());
        r
    }
}

/// Where a reader stands in a log.
pub struct WalCursor {
    /// The bytes of the log.
    pub data: Seq<u8>,
    /// The offset of the next record.
    pub offset: int,
    /// Whether reading has ended.
    pub finished: bool,
}

/// The records a reader at `c` has left to give.
pub open spec fn remaining_records(c: WalCursor) -> Seq<(u64, WalRecordModel)> {
    if c.finished {
        Seq::empty()
    } else {
        wal_records(c.data, c.offset)
    }
}

/// The corruption a reader at `c` will run into, if any.
pub open spec fn remaining_fault(c: WalCursor) -> Option<WalFault> {
    if c.finished {
        None
    } else {
        wal_fault(c.data, c.offset)
    }
}

/// One call of `next` on a reader that was at `before` and is now at `after`,
/// returning `r`: the next record, the end, the corruption found, or a
/// storage error.
pub open spec fn next_step(
    before: WalCursor,
    after: WalCursor,
    r: Option<Result<(u64, WalRecord), CoreError>>,
) -> bool {
    &&& after.data == before.data
    &&& if before.finished {
        r is None && after == before
    } else {
        ||| (r matches Some(Err(e)) && e is Storage && after.finished && after.offset == before.offset)
        ||| match wal_step(before.data, before.offset) {
            WalStep::End => r is None && after.finished && after.offset == before.offset,
            WalStep::Record(rec, n) => r matches Some(Ok((o, x))) && o == before.offset && x@ == rec
                && after.offset == n && !after.finished,
            WalStep::Fault(f) => r matches Some(Err(e)) && fault_error(f, before.offset as u64, e)
                && after.finished && after.offset == before.offset,
        }
    }
}

/// A streaming reader over the records of a log.
///
/// Records are read through a buffer that grows only for records larger than
/// it, so memory stays bounded by the largest record.
pub struct WalRecordIterator<'a, B: StorageBackend> {
    backend: &'a B,
    total_size: u64,
    current_offset: u64,
    buffer: Vec<u8>,
    buffer_pos: usize,
    buffer_len: usize,
    buffer_start_offset: u64,
    finished: bool,
}

impl<'a, B: StorageBackend> View for WalRecordIterator<'a, B> {
    type V = WalCursor;

    closed spec fn view(&self) -> WalCursor {
        WalCursor {
            data: self.backend.contents(),
            offset: self.current_offset as int,
            finished: self.finished,
        }
    }
}

/// Bytes that agree position by position agree on every window.
proof fn lemma_window(buf: Seq<u8>, d: Seq<u8>, pos: int, off: int, k: int, a: int, b: int)
    requires
        0 <= a <= b <= k,
        0 <= pos,
        pos + k <= buf.len(),
        0 <= off,
        off + k <= d.len(),
        forall|i: int| 0 <= i < k ==> #[trigger] buf[pos + i] == d[off + i],
    ensures
        buf.subrange(pos + a, pos + b) == d.subrange(off + a, off + b),
{
    assert forall|j: int| 0 <= j < b - a implies #[trigger] buf.subrange(pos + a, pos + b)[j] == d.subrange(
        off + a,
        off + b,
    )[j] by {
        assert(buf[pos + (a + j)] == d[off + (a + j)]);
    }
    assert(buf.subrange(pos + a, pos + b) =~= d.subrange(off + a, off + b));
}

/// The smallest power of two that is at least `n` (or `n` itself where that
/// power does not fit): a power of two, at least `n`, whose half is below
/// `n`.
fn next_power_of_two(n: usize) -> (r: usize)
    ensures
        n <= usize::MAX / 2 + 1 ==> r >= n && (exists|e: nat| r == pow2(e)) && (r == 1 || r / 2 < n),
        n > usize::MAX / 2 + 1 ==> r == n,
{
    let mut p: usize = 1;
    let ghost mut e: nat = 0;
    let ghost bits: nat = usize::BITS as nat;
    proof {
        vstd::arithmetic::power2::lemma_pow2(0);
        vstd::arithmetic::power::lemma_pow0(2);
        vstd::layout::unsigned_int_max_values();
        vstd::arithmetic::power2::lemma_pow2_unfold(bits);
        assert(usize::MAX / 2 + 1 == pow2((bits - 1) as nat));
    }
    while p < n
        invariant
            p >= 1,
            p == pow2(e),
            p <= usize::MAX / 2 + 1,
            usize::MAX / 2 + 1 == pow2((bits - 1) as nat),
            usize::MAX == pow2(bits) - 1,
            bits >= 1,
            p == 1 || p / 2 < n,
        decreases usize::MAX - p,
    {
        if p > usize::MAX / 2 {
            return n;
        }
        proof {
            vstd::arithmetic::power2::lemma_pow2_unfold(e + 1);
            if e + 1 >= bits {
                if e + 1 > bits {
                    vstd::arithmetic::power2::lemma_pow2_strictly_increases(bits, e + 1);
                }
            } else if e + 1 < bits - 1 {
                vstd::arithmetic::power2::lemma_pow2_strictly_increases(e + 1, (bits - 1) as nat);
            }
            e = e + 1;
        }
        p = p * 2;
    }
    p
}

impl<'a, B: StorageBackend> WalRecordIterator<'a, B> {
    /// The buffer holds bytes of the log from the current offset on.
    pub closed spec fn wf(&self) -> bool {
        &&& self.backend.valid()
        &&& self.total_size == self.backend.contents().len()
        &&& self.total_size <= usize::MAX
        &&& self.current_offset <= self.total_size
        &&& self.buffer_pos <= self.buffer_len <= self.buffer@.len()
        &&& self.current_offset + (self.buffer_len - self.buffer_pos) <= self.total_size
        &&& forall|i: int|
            0 <= i < self.buffer_len - self.buffer_pos ==> #[trigger] self.buffer@[self.buffer_pos + i]
                == self.backend.contents()[self.current_offset + i]
    }

    /// Whether the backend declares itself infallible.
    pub closed spec fn infallible(&self) -> bool {
        self.backend.infallible()
    }

    /// Creates a reader starting at `start_offset`.
    ///
    /// Fails when the size of the log cannot be read, or when the log is too
    /// large to be addressed in memory on this platform.
    pub fn new(backend: &'a B, start_offset: u64) -> (r: Result<Self, CoreError>)
        requires
            backend.valid(),
            start_offset <= backend.contents().len(),
        ensures
            r matches Ok(it) ==> it.wf() && it@ == (WalCursor {
                data: backend.contents(),
                offset: start_offset as int,
                finished: false,
            }),
            r matches Err(e) ==> e is Storage || e is InvalidOperation,
            backend.infallible() && backend.contents().len() <= usize::MAX ==> r is Ok,
            r matches Ok(it) ==> it.infallible() == backend.infallible(),
    {
        let total_size = match backend.size() {
            Ok(n) => n,
            Err(e) => return Err(CoreError::Storage(e)),
        };
        if total_size > usize::MAX as u64 {
            return Err(CoreError::invalid_operation("WAL too large for this platform"));
        }
        Ok(
            WalRecordIterator {
                backend,
                total_size,
                current_offset: start_offset,
                buffer: vec![0u8; READ_BUFFER_SIZE],
                buffer_pos: 0,
                buffer_len: 0,
                buffer_start_offset: start_offset,
                finished: false,
            },
        )
    }

    /// Makes at least `min_bytes` bytes from the current offset available in
    /// the buffer; `false` when the log ends before that.
    fn ensure_buffered(&mut self, min_bytes: usize) -> (r: Result<bool, CoreError>)
        requires
            old(self).wf(),
        ensures
            final(self).wf(),
            final(self).backend == old(self).backend,
            final(self).total_size == old(self).total_size,
            final(self).current_offset == old(self).current_offset,
            final(self).finished == old(self).finished,
            r matches Ok(b) ==> b == (old(self).current_offset + min_bytes <= old(self).total_size)
                && (b ==> final(self).buffer_len - final(self).buffer_pos >= min_bytes),
            r matches Err(e) ==> e is Storage,
            old(self).backend.infallible() ==> r is Ok,
    {
        let ghost d = self.backend.contents();
        let available = self.buffer_len - self.buffer_pos;
        if available >= min_bytes {
            return Ok(true);
        }
        let bytes_needed_from_wal = min_bytes - available;
        let remaining_in_wal: u64 = (self.total_size - self.current_offset) - available as u64;
        if remaining_in_wal < bytes_needed_from_wal as u64 {
            return Ok(false);
        }
        if self.buffer_pos > 0 && available > 0 {
            let pos = self.buffer_pos;
            let mut k: usize = 0;
            while k < available
                invariant
                    k <= available,
                    pos == self.buffer_pos,
                    pos > 0,
                    available == self.buffer_len - self.buffer_pos,
                    self.buffer_pos <= self.buffer_len <= self.buffer@.len(),
                    self.current_offset + available <= self.total_size,
                    self.total_size == d.len(),
                    d == self.backend.contents(),
                    self.backend == old(self).backend,
                    self.current_offset == old(self).current_offset,
                    self.total_size == old(self).total_size,
                    self.finished == old(self).finished,
                    forall|i: int| 0 <= i < k ==> #[trigger] self.buffer@[i] == d[self.current_offset + i],
                    forall|i: int|
                        k <= i < available ==> #[trigger] self.buffer@[pos + i] == d[self.current_offset
                            + i],
                decreases available - k,
            {
                let v = self.buffer[pos + k];
                self.buffer.set(k, v);
                proof {
                    assert forall|i: int| k + 1 <= i < available implies #[trigger] self.buffer@[pos
                        + i] == d[self.current_offset + i] by {
                        assert(pos + i != k);
                    }
                }
                k = k + 1;
            }
        }
        proof {
            if self.buffer_pos == 0 || available == 0 {
                assert forall|i: int| 0 <= i < available implies #[trigger] self.buffer@[i]
                    == d[self.current_offset + i] by {
                    assert(self.buffer@[self.buffer_pos + i] == d[self.current_offset + i]);
                }
            }
        }
        self.buffer_len = available;
        self.buffer_pos = 0;
        self.buffer_start_offset = self.current_offset;
        if min_bytes > self.buffer.len() {
            let new_size = next_power_of_two(min_bytes);
            let ghost before = self.buffer@;
            self.buffer.resize(new_size, 0u8);
            proof {
                assert forall|i: int| 0 <= i < available implies #[trigger] self.buffer@[i]
                    == d[self.current_offset + i] by {
                    assert(self.buffer@.subrange(0, before.len() as int)[i] == before[i]);
                }
            }
        }
        let space = self.buffer.len() - self.buffer_len;
        let bytes_to_read: usize = if (space as u64) < remaining_in_wal {
            space
        } else {
            remaining_in_wal as usize
        };
        if bytes_to_read > 0 {
            let read_offset = self.current_offset + self.buffer_len as u64;
            let data = match self.backend.read_at(read_offset, bytes_to_read) {
                Ok(v) => v,
                Err(e) => return Err(CoreError::Storage(e)),
            };
            let start = self.buffer_len;
            let cap = self.buffer.len();
            let mut k: usize = 0;
            while k < data.len()
                invariant
                    k <= data@.len(),
                    cap == self.buffer@.len(),
                    self.backend == old(self).backend,
                    self.current_offset == old(self).current_offset,
                    self.total_size == old(self).total_size,
                    self.finished == old(self).finished,
                    data@.len() == bytes_to_read,
                    start == self.buffer_len,
                    start + bytes_to_read <= self.buffer@.len(),
                    self.buffer_pos == 0,
                    self.current_offset + start + bytes_to_read <= self.total_size,
                    self.total_size == d.len(),
                    d == self.backend.contents(),
                    data@ == d.subrange(read_offset as int, read_offset + bytes_to_read),
                    read_offset == self.current_offset + start,
                    forall|i: int| 0 <= i < start + k ==> #[trigger] self.buffer@[i] == d[self.current_offset + i],
                decreases data@.len() - k,
            {
                let v = data[k];
                self.buffer.set(start + k, v);
                proof {
                    assert(data@[k as int] == d[read_offset + k]);
                }
                k = k + 1;
            }
            self.buffer_len = start + data.len();
        }
        proof {
            assert forall|i: int|
                0 <= i < self.buffer_len - self.buffer_pos implies #[trigger] self.buffer@[self.buffer_pos
                + i] == self.backend.contents()[self.current_offset + i] by {
                assert(self.buffer_pos + i == i);
            }
        }
        Ok(self.buffer_len - self.buffer_pos >= min_bytes)
    }

    /// Reads the record at the current offset.
    fn read_next_record(&mut self) -> (r: Result<Option<(u64, WalRecord)>, CoreError>)
        requires
            old(self).wf(),
        ensures
            final(self).wf(),
            final(self)@.data == old(self)@.data,
            old(self)@.finished ==> (r matches Ok(None) && final(self)@ == old(self)@),
            !old(self)@.finished ==> {
                ||| (r matches Err(e) && e is Storage && final(self)@.offset == old(self)@.offset)
                ||| match wal_step(old(self)@.data, old(self)@.offset) {
                    WalStep::End => r matches Ok(None) && final(self)@.finished
                        && final(self)@.offset == old(self)@.offset,
                    WalStep::Record(rec, n) => r matches Ok(Some((o, x))) && o == old(self)@.offset
                        && x@ == rec && final(self)@.offset == n && !final(self)@.finished,
                    WalStep::Fault(f) => r matches Err(e) && fault_error(
                        f,
                        old(self)@.offset as u64,
                        e,
                    ) && final(self)@.offset == old(self)@.offset,
                }
            },
            final(self).infallible() == old(self).infallible(),
            old(self).infallible() ==> !(r matches Err(e) && e is Storage),
    {
        if self.finished {
            return Ok(None);
        }
        let ghost d = self.backend.contents();
        let record_start_offset = self.current_offset;
        let got_header = self.ensure_buffered(HEADER_SIZE)?;
        if !got_header {
            self.finished = true;
            return Ok(None);
        }
        let pos = self.buffer_pos;
        let off = record_start_offset;
        proof {
            assert forall|i: int| 0 <= i < 11 implies #[trigger] self.buffer@[pos + i] == d[off + i] by {
                assert(self.buffer@[self.buffer_pos + i] == d[self.current_offset + i]);
            }
            lemma_window(self.buffer@, d, pos as int, off as int, 11, 4, 6);
            lemma_window(self.buffer@, d, pos as int, off as int, 11, 7, 11);
            lemma_window(self.buffer@, d, pos as int, off as int, 11, 0, 4);
            assert(self.buffer@[pos + 6] == d[off + 6]);
        }
        if self.buffer[pos] != 0x45u8 || self.buffer[pos + 1] != 0x57u8 || self.buffer[pos + 2]
            != 0x41u8 || self.buffer[pos + 3] != 0x4Cu8 {
            proof {
                assert(d.subrange(off as int, off + 4) != wal_magic()) by {
                    if d.subrange(off as int, off + 4) == wal_magic() {
                        assert(d.subrange(off as int, off + 4)[0] == d[off as int]);
                        assert(d.subrange(off as int, off + 4)[1] == d[off + 1]);
                        assert(d.subrange(off as int, off + 4)[2] == d[off + 2]);
                        assert(d.subrange(off as int, off + 4)[3] == d[off + 3]);
                    }
                }
            }
            self.finished = true;
            let mut m = String::new();
            push_str(&mut m, "invalid magic at offset ");
            push_decimal(&mut m, record_start_offset);
            return Err(CoreError::WalCorruption(m));
        }
        proof {
            assert(d.subrange(off as int, off + 4) =~= wal_magic());
        }
        let version = read_u16_le(self.buffer.as_slice(), pos + 4);
        if version > WAL_VERSION {
            self.finished = true;
            let mut m = String::new();
            push_str(&mut m, "unsupported version ");
            push_decimal(&mut m, version as u64);
            push_str(&mut m, " at offset ");
            push_decimal(&mut m, record_start_offset);
            return Err(CoreError::WalCorruption(m));
        }
        let type_byte = self.buffer[pos + 6];
        let record_type = match WalRecordType::from_byte(type_byte) {
            Some(t) => t,
            None => {
                self.finished = true;
                let mut m = String::new();
                push_str(&mut m, "unknown record type ");
                push_decimal(&mut m, type_byte as u64);
                push_str(&mut m, " at offset ");
                push_decimal(&mut m, record_start_offset);
                return Err(CoreError::WalCorruption(m));
            },
        };
        let payload_len = read_u32_le(self.buffer.as_slice(), pos + 7);
        let total_len_u64: u64 = 15 + payload_len as u64;
        if total_len_u64 > self.total_size - record_start_offset {
            self.finished = true;
            return Ok(None);
        }
        let total_len = total_len_u64 as usize;
        let got_record = self.ensure_buffered(total_len)?;
        if !got_record {
            self.finished = true;
            return Ok(None);
        }
        let pos = self.buffer_pos;
        let payload_start = pos + HEADER_SIZE;
        let payload_end = payload_start + payload_len as usize;
        let ghost len = payload_len as int;
        proof {
            assert forall|i: int| 0 <= i < total_len implies #[trigger] self.buffer@[pos + i] == d[off + i] by {
                assert(self.buffer@[self.buffer_pos + i] == d[self.current_offset + i]);
            }
            lemma_window(self.buffer@, d, pos as int, off as int, total_len as int, 0, 11 + len);
            lemma_window(self.buffer@, d, pos as int, off as int, total_len as int, 11, 11 + len);
            lemma_window(self.buffer@, d, pos as int, off as int, total_len as int, 11 + len, 15 + len);
        }
        let stored_crc = read_u32_le(self.buffer.as_slice(), payload_end);
        let computed_crc = compute_crc32(
            vstd::slice::slice_subrange(self.buffer.as_slice(), pos, payload_end),
        );
        if stored_crc != computed_crc {
            self.finished = true;
            return Err(CoreError::ChecksumMismatch { expected: stored_crc, actual: computed_crc });
        }
        let payload = vstd::slice::slice_subrange(self.buffer.as_slice(), payload_start, payload_end);
        let record = WalRecord::decode_payload(record_type, payload)?;
        self.buffer_pos = self.buffer_pos + total_len;
        self.current_offset = self.current_offset + total_len as u64;
        proof {
            assert forall|i: int|
                0 <= i < self.buffer_len - self.buffer_pos implies #[trigger] self.buffer@[self.buffer_pos
                + i] == self.backend.contents()[self.current_offset + i] by {
                assert(self.buffer@[(self.buffer_pos - total_len) + (total_len + i)]
                    == d[off + (total_len + i)]);
            }
        }
        Ok(Some((record_start_offset, record)))
    }

    /// The next record, with its offset; `None` at the end of the log (or at
    /// a record cut short by a crash); an error on corruption or a storage
    /// failure, after which the reader gives nothing more.
    pub fn next(&mut self) -> (r: Option<Result<(u64, WalRecord), CoreError>>)
        requires
            old(self).wf(),
        ensures
            final(self).wf(),
            next_step(old(self)@, final(self)@, r),
            final(self).infallible() == old(self).infallible(),
            old(self).infallible() ==> !(r matches Some(Err(e)) && e is Storage),
    {
        if self.finished {
            return None;
        }
        match self.read_next_record() {
            Ok(Some(item)) => Some(Ok(item)),
            Ok(None) => None,
            Err(e) => {
                self.finished = true;
                Some(Err(e))
            },
        }
    }
}

/// Mathematical model of a recovery pass.
pub struct RecoveryModel {
    /// The commit sequence of each committed transaction.
    pub committed: Map<u64, u64>,
    /// The highest transaction ID seen.
    pub max_txid: u64,
    /// The highest sequence number seen, including the checkpoint's.
    pub max_seq: u64,
    /// The highest committed sequence number, including the checkpoint's.
    pub committed_seq: u64,
}

/// The larger of two numbers.
pub open spec fn max_u64(a: u64, b: u64) -> u64 {
    if a >= b {
        a
    } else {
        b
    }
}

/// What seeing one record does to a recovery pass.
pub open spec fn recovery_step(m: RecoveryModel, r: WalRecordModel) -> RecoveryModel {
    let m1 = match r.txid() {
        Some(t) => RecoveryModel { max_txid: max_u64(m.max_txid, t), ..m },
        None => m,
    };
    match r {
        WalRecordModel::Commit { txid, sequence } => RecoveryModel {
            committed: m1.committed.insert(txid, sequence),
            max_seq: max_u64(m1.max_seq, sequence),
            committed_seq: max_u64(m1.committed_seq, sequence),
            ..m1
        },
        WalRecordModel::Checkpoint { sequence } => RecoveryModel {
            max_seq: max_u64(m1.max_seq, sequence),
            ..m1
        },
        _ => m1,
    }
}

/// What seeing the records `rs`, in order, does to a recovery pass.
pub open spec fn recovery_fold(m: RecoveryModel, rs: Seq<WalRecordModel>) -> RecoveryModel
    decreases rs.len(),
{
    if rs.len() == 0 {
        m
    } else {
        recovery_step(recovery_fold(m, rs.drop_last()), rs.last())
    }
}

/// The first recovery pass: which transactions committed, and at which
/// sequence, without keeping the records themselves.
pub struct StreamingRecovery {
    committed_txns: std::collections::HashMap<u64, u64>,
    max_txid: u64,
    max_seq: u64,
    committed_seq: u64,
}

impl View for StreamingRecovery {
    type V = RecoveryModel;

    closed spec fn view(&self) -> RecoveryModel {
        RecoveryModel {
            committed: self.committed_txns@,
            max_txid: self.max_txid,
            max_seq: self.max_seq,
            committed_seq: self.committed_seq,
        }
    }
}

impl StreamingRecovery {
    /// Starts a pass after a checkpoint at `checkpoint_seq`.
    pub fn new(checkpoint_seq: u64) -> (r: Self)
        ensures
            r@ == (RecoveryModel {
                committed: Map::empty(),
                max_txid: 0,
                max_seq: checkpoint_seq,
                committed_seq: checkpoint_seq,
            }),
    {
        StreamingRecovery {
            committed_txns: std::collections::HashMap::new(),
            max_txid: 0,
            max_seq: checkpoint_seq,
            committed_seq: checkpoint_seq,
        }
    }

    fn observe(&mut self, record: &WalRecord)
        ensures
            final(self)@ == recovery_step(old(self)@, record@),
    {
        match record.txid() {
            Some(txid) => {
                if txid.as_u64() > self.max_txid {
                    self.max_txid = txid.as_u64();
                }
            },
            None => {},
        }
        match record {
            WalRecord::Commit { txid, sequence } => {
                self.committed_txns.insert(txid.0, sequence.0);
                if sequence.0 > self.max_seq {
                    self.max_seq = sequence.0;
                }
                if sequence.0 > self.committed_seq {
                    self.committed_seq = sequence.0;
                }
            },
            WalRecord::Checkpoint { sequence } => {
                if sequence.0 > self.max_seq {
                    self.max_seq = sequence.0;
                }
            },
            _ => {},
        }
    }

    /// Reads the records `iter` has left and notes every commit.
    ///
    /// Stops with the reader's error on corruption or a storage failure.
    pub fn scan_committed<B: StorageBackend>(&mut self, iter: WalRecordIterator<'_, B>) -> (r: Result<
        (),
        CoreError,
    >)
        requires
            iter.wf(),
        ensures
            r is Ok ==> remaining_fault(iter@) is None && final(self)@ == recovery_fold(
                old(self)@,
                record_models(remaining_records(iter@)),
            ),
            r matches Err(e) ==> {
                ||| e is Storage && exists|k: int|
                    0 <= k <= remaining_records(iter@).len() && final(self)@ == recovery_fold(
                        old(self)@,
                        record_models(remaining_records(iter@).take(k)),
                    )
                ||| remaining_fault(iter@) matches Some(f) && fault_error(
                    f,
                    wal_end(iter@.data, iter@.offset) as u64,
                    e,
                ) && final(self)@ == recovery_fold(old(self)@, record_models(remaining_records(iter@)))
            },
            iter.infallible() ==> !(r matches Err(e) && e is Storage),
    {
        let mut it = iter;
        let ghost start = it@;
        let ghost all = remaining_records(start);
        let ghost d = start.data;
        let ghost seen: Seq<(u64, WalRecordModel)> = Seq::empty();
        if it.finished {
            assert(record_models(all) =~= Seq::<WalRecordModel>::empty());
            return Ok(());
        }
        loop
            invariant
                it.wf(),
                it@.data == d,
                !it@.finished,
                !start.finished,
                start == iter@,
                d == start.data,
                all == wal_records(d, start.offset),
                0 <= it@.offset <= d.len(),
                seen + wal_records(d, it@.offset) == all,
                wal_fault(d, it@.offset) == wal_fault(d, start.offset),
                wal_end(d, it@.offset) == wal_end(d, start.offset),
                self@ == recovery_fold(old(self)@, record_models(seen)),
                it.infallible() == iter.infallible(),
            decreases d.len() - it@.offset,
        {
            let ghost before = it@;
            proof {
                if wal_step(d, before.offset) is Record {
                    lemma_step_advances(d, before.offset);
                }
            }
            match it.next() {
                Some(Ok((offset, record))) => {
                    self.observe(&record);
                    proof {
                        let n = it@.offset;
                        assert(wal_records(d, before.offset) =~= seq![(offset, record@)]
                            + wal_records(d, n));
                        let s2 = seen.push((offset, record@));
                        assert(record_models(s2).drop_last() =~= record_models(seen));
                        assert(s2 + wal_records(d, n) =~= seen + wal_records(d, before.offset));
                        seen = s2;
                    }
                },
                Some(Err(e)) => {
                    proof {
                        assert(seen =~= all.take(seen.len() as int));
                        if e is Storage {
                            assert(remaining_records(iter@) == all);
                            assert(self@ == recovery_fold(
                                old(self)@,
                                record_models(remaining_records(iter@).take(seen.len() as int)),
                            ));
                        } else {
                            assert(wal_step(d, before.offset) is Fault);
                            assert(wal_records(d, before.offset) =~= Seq::<(u64, WalRecordModel)>::empty());
                            assert(wal_end(d, before.offset) == before.offset);
                            assert(wal_fault(d, before.offset) == Some(wal_step(d, before.offset)->Fault_0));
                            assert(seen =~= all);
                            assert(remaining_records(iter@) == all);
                            assert(remaining_fault(iter@) == Some(wal_step(d, before.offset)->Fault_0));
                        }
                    }
                    return Err(e);
                },
                None => {
                    proof {
                        assert(wal_step(d, before.offset) is End);
                        assert(wal_fault(d, before.offset) is None);
                        assert(wal_records(d, before.offset) =~= Seq::<(u64, WalRecordModel)>::empty());
                        assert(seen =~= all);
                    }
                    return Ok(());
                },
            }
        }
    }

    /// Tells whether transaction `txid` committed.
    pub fn is_committed(&self, txid: &TransactionId) -> (r: bool)
        ensures
            r == self@.committed.contains_key(txid.0),
    {
        self.committed_txns.contains_key(&txid.0)
    }

    /// The commit sequence of transaction `txid`, if it committed.
    pub fn get_commit_sequence(&self, txid: &TransactionId) -> (r: Option<SequenceNumber>)
        ensures
            match r {
                Some(s) => self@.committed.contains_key(txid.0) && self@.committed[txid.0] == s.0,
                None => !self@.committed.contains_key(txid.0),
            },
    {
        match self.committed_txns.get(&txid.0) {
            Some(s) => Some(SequenceNumber(*s)),
            None => None,
        }
    }

    /// The next transaction ID to use: one past the highest seen.
    pub fn next_txid(&self) -> (r: u64)
        requires
            self@.max_txid < u64::MAX,
        ensures
            r == self@.max_txid + 1,
    {
        self.max_txid + 1
    }

    /// The next sequence number to use: one past the highest seen.
    pub fn next_seq(&self) -> (r: u64)
        requires
            self@.max_seq < u64::MAX,
        ensures
            r == self@.max_seq + 1,
    {
        self.max_seq + 1
    }

    /// The highest committed sequence number (for snapshot visibility).
    pub fn committed_seq(&self) -> (r: u64)
        ensures
            r == self@.committed_seq,
    {
        self.committed_seq
    }
}

} // verus!
