//! The segment store: a set of segments, one of which receives writes, and an
//! index from each entity to the place of its latest record.
//!
//! Segments are identified by ids that are never reused. When a write would
//! make the active segment exceed the maximum size, the active segment is
//! sealed and a new one, with a fresh id, becomes active. Compaction replaces
//! every sealed segment by one segment holding the compacted records.

use crate::bytes::read_u32_le;
use crate::compaction::{models, seg_key, spec_encode_all, total_encoded_len, EntityKey};
use crate::error::CoreError;
use crate::segment_record::{
    decode_error_matches, lemma_segment_record_roundtrip, spec_decode_segment_record,
    spec_encode_segment_record, SegmentDecodeFailure, SegmentRecord, SegmentRecordModel,
};
use crate::storage::{InMemoryBackend, StorageBackend};
use crate::transaction::{
    find_key, same_key, key_of, keyed_map, keys_unique, lemma_keyed_absent, lemma_keyed_len,
    lemma_keyed_lookup, set_entry, TxnKey,
};
use crate::types::{CollectionId, EntityId, SequenceNumber};
use crate::wal_record::le32_at;
use vstd::prelude::*;

verus! {

/// Information about a segment.
#[derive(Debug, Clone, Copy, PartialEq, Eq, Structural)]
pub struct SegmentInfo {
    /// Segment id.
    pub id: u64,
    /// Whether the segment is sealed (immutable).
    pub sealed: bool,
    /// Bytes written to the segment.
    pub size: u64,
    /// Number of records written to the segment.
    pub record_count: usize,
}

/// Where the latest record of an entity is stored.
#[derive(Clone, Copy)]
struct IndexEntry {
    segment_id: u64,
    offset: u64,
    sequence: SequenceNumber,
}

/// A segment: its information and the backend holding its bytes.
struct SegmentSlot<B> {
    info: SegmentInfo,
    backend: B,
}

/// Creates the storage backend of a new segment.
pub trait BackendFactory<B: StorageBackend> {
    /// Whether every backend it creates declares itself infallible. Each
    /// implementation gives this its meaning; code generic over factories
    /// sees it as abstract.
    closed spec fn creates_infallible(&self) -> bool {
        false
    }

    /// The backend for the segment with id `segment_id`.
    fn create(&self, segment_id: u64) -> (r: B)
        ensures
            r.valid(),
            r.contents() == Seq::<u8>::empty(),
            self.creates_infallible() ==> r.infallible(),
    ;
}

/// A factory of empty in-memory backends.
pub struct InMemoryFactory;

impl BackendFactory<InMemoryBackend> for InMemoryFactory {
    open spec fn creates_infallible(&self) -> bool {
        true
    }

    fn create(&self, segment_id: u64) -> (r: InMemoryBackend)
        ensures
            r@ == Seq::<u8>::empty(),
    {
        InMemoryBackend::new()
    }
}

/// Told of every segment that is sealed by a rotation.
pub trait SealListener {
    /// The segment with id `segment_id` has been sealed.
    fn segment_sealed(&self, segment_id: u64);
}

/// A listener that ignores seals.
pub struct NoListener;

impl SealListener for NoListener {
    fn segment_sealed(&self, segment_id: u64) {
    }
}

/// Mathematical model of a segment.
pub struct SegmentView {
    pub id: u64,
    pub sealed: bool,
    pub size: u64,
    pub record_count: usize,
    /// The bytes stored in the segment's backend.
    pub data: Seq<u8>,
}

/// Mathematical model of the store.
pub struct StoreView {
    /// The segments, by increasing id.
    pub segments: Seq<SegmentView>,
    /// The segment receiving writes.
    pub active: u64,
    /// The highest segment id ever used.
    pub last_id: u64,
    /// Size beyond which the active segment is sealed.
    pub max_segment_size: u64,
    /// For each entity: segment id, offset and sequence number of its record.
    pub index: Map<EntityKey, (u64, u64, u64)>,
}

/// The information part of a segment model.
pub open spec fn info_of(s: SegmentView) -> SegmentInfo {
    SegmentInfo { id: s.id, sealed: s.sealed, size: s.size, record_count: s.record_count }
}

/// Segment ids strictly increase along the sequence.
pub open spec fn ids_increasing(s: Seq<SegmentView>) -> bool {
    forall|i: int, j: int| 0 <= i < j < s.len() ==> s[i].id < s[j].id
}

/// The segment with id `id`, if there is one.
pub open spec fn seg_of(s: Seq<SegmentView>, id: u64) -> Option<SegmentView> {
    if exists|i: int| 0 <= i < s.len() && s[i].id == id {
        Some(s[choose|i: int| 0 <= i < s.len() && s[i].id == id])
    } else {
        None
    }
}

/// Why a record cannot be read at an offset.
pub enum ReadFailure {
    /// Fewer than four bytes remain at the offset.
    Beyond,
    /// The record's length reaches past the end of the segment.
    Extends,
    /// The bytes do not decode as a record.
    Decode(SegmentDecodeFailure),
}

/// Reading the record at `off` of the segment bytes `d`.
pub open spec fn read_record(d: Seq<u8>, off: int) -> Result<SegmentRecordModel, ReadFailure> {
    if off + 4 > d.len() {
        Err(ReadFailure::Beyond)
    } else if off + le32_at(d, off) > d.len() {
        Err(ReadFailure::Extends)
    } else {
        match spec_decode_segment_record(d.subrange(off, off + le32_at(d, off))) {
            Ok(r) => Ok(r),
            Err(f) => Err(ReadFailure::Decode(f)),
        }
    }
}

/// The record at `off` of the segment bytes `d`, if one can be read there.
pub open spec fn record_at(d: Seq<u8>, off: int) -> Option<SegmentRecordModel> {
    match read_record(d, off) {
        Ok(r) => Some(r),
        Err(_) => None,
    }
}

/// Whether an error reports a read failure.
pub open spec fn read_error_matches(f: ReadFailure, e: CoreError) -> bool {
    match f {
        ReadFailure::Beyond => e matches CoreError::SegmentCorruption(m) && m@
            == "offset beyond segment"@,
        ReadFailure::Extends => e matches CoreError::SegmentCorruption(m) && m@
            == "record extends beyond segment"@,
        ReadFailure::Decode(d) => decode_error_matches(d, e),
    }
}

/// The records laid out from `off` on, each with its offset. The scan stops
/// cleanly where fewer than four bytes remain or where a record's length
/// reaches past the end, and fails on a record that does not decode.
pub open spec fn scan_records(d: Seq<u8>, off: int) -> Result<
    Seq<(u64, SegmentRecordModel)>,
    SegmentDecodeFailure,
>
    decreases d.len() - off,
{
    if off < 0 || off + 4 > d.len() {
        Ok(Seq::empty())
    } else if off + le32_at(d, off) > d.len() {
        Ok(Seq::empty())
    } else if le32_at(d, off) < 37 {
        Err(SegmentDecodeFailure::TooShort)
    } else {
        match spec_decode_segment_record(d.subrange(off, off + le32_at(d, off))) {
            Err(f) => Err(f),
            Ok(r) => match scan_records(d, off + le32_at(d, off)) {
                Ok(rest) => Ok(seq![(off as u64, r)] + rest),
                Err(f) => Err(f),
            },
        }
    }
}

/// `done` followed by the outcome of a scan.
pub open spec fn after<T, E>(done: Seq<T>, r: Result<Seq<T>, E>) -> Result<Seq<T>, E> {
    match r {
        Ok(rest) => Ok(done + rest),
        Err(f) => Err(f),
    }
}

/// The records of every segment in order of ids, each with its segment id
/// and offset; fails with the first segment that fails.
pub open spec fn scan_all_spec(s: Seq<SegmentView>) -> Result<
    Seq<(u64, u64, SegmentRecordModel)>,
    SegmentDecodeFailure,
>
    decreases s.len(),
{
    if s.len() == 0 {
        Ok(Seq::empty())
    } else {
        match scan_all_spec(s.drop_last()) {
            Err(f) => Err(f),
            Ok(prev) => match scan_records(s.last().data, 0) {
                Err(f) => Err(f),
                Ok(rs) => Ok(prev + tag_records(s.last().id, rs)),
            },
        }
    }
}

/// Records of one segment, tagged with the segment id.
pub open spec fn tag_records(id: u64, rs: Seq<(u64, SegmentRecordModel)>) -> Seq<
    (u64, u64, SegmentRecordModel),
> {
    rs.map_values(|e: (u64, SegmentRecordModel)| (id, e.0, e.1))
}

/// The index built from records in order: a record takes the place of an
/// earlier one of the same entity only when its sequence number is higher.
pub open spec fn index_fold(es: Seq<(u64, u64, SegmentRecordModel)>) -> Map<
    EntityKey,
    (u64, u64, u64),
>
    decreases es.len(),
{
    if es.len() == 0 {
        Map::empty()
    } else {
        let m = index_fold(es.drop_last());
        let e = es.last();
        if m.contains_key(seg_key(e.2)) && e.2.sequence <= m[seg_key(e.2)].2 {
            m
        } else {
            m.insert(seg_key(e.2), (e.0, e.1, e.2.sequence))
        }
    }
}

/// The record the index points to for `k`, if its segment is still there.
pub open spec fn lookup(v: StoreView, k: EntityKey) -> Option<SegmentRecordModel> {
    if v.index.contains_key(k) {
        match seg_of(v.segments, v.index[k].0) {
            Some(sv) => record_at(sv.data, v.index[k].1 as int),
            None => None,
        }
    } else {
        None
    }
}

/// The payload visible for `k`: that of its latest record unless it is a tombstone.
pub open spec fn visible(v: StoreView, k: EntityKey) -> Option<Seq<u8>> {
    match lookup(v, k) {
        Some(r) => if r.is_tombstone() {
            None
        } else {
            Some(r.payload)
        },
        None => None,
    }
}

/// The bytes of an optional vector.
pub open spec fn opt_bytes(v: Option<Vec<u8>>) -> Option<Seq<u8>> {
    match v {
        Some(p) => Some(p@),
        None => None,
    }
}

/// Of the records `rs`, the one of entity `k` that a reader at snapshot
/// `snap` sees: the first with the highest sequence number not above `snap`.
pub open spec fn latest_at(rs: Seq<SegmentRecordModel>, k: EntityKey, snap: u64) -> Option<
    SegmentRecordModel,
>
    decreases rs.len(),
{
    if rs.len() == 0 {
        None
    } else {
        let prev = latest_at(rs.drop_last(), k, snap);
        let r = rs.last();
        if seg_key(r) == k && r.sequence <= snap && (prev is None || prev->Some_0.sequence
            < r.sequence) {
            Some(r)
        } else {
            prev
        }
    }
}

/// The payload a record makes visible: none for a tombstone.
pub open spec fn payload_of(r: Option<SegmentRecordModel>) -> Option<Seq<u8>> {
    match r {
        Some(x) => if x.is_tombstone() {
            None
        } else {
            Some(x.payload)
        },
        None => None,
    }
}

/// The records of all segments, in the order a scan reads them.
pub open spec fn all_records(es: Seq<(u64, u64, SegmentRecordModel)>) -> Seq<SegmentRecordModel> {
    es.map_values(|e: (u64, u64, SegmentRecordModel)| e.2)
}

/// Whether writing `n` more bytes seals the active segment first.
pub open spec fn needs_seal(v: StoreView, n: int) -> bool {
    match seg_of(v.segments, v.active) {
        Some(sv) => !sv.sealed && sv.size + n > v.max_segment_size,
        None => false,
    }
}

/// The segments with the one with id `id` marked sealed.
pub open spec fn mark_sealed(s: Seq<SegmentView>, id: u64) -> Seq<SegmentView> {
    s.map_values(
        |x: SegmentView|
            if x.id == id {
                SegmentView {
                    id: x.id,
                    sealed: true,
                    size: x.size,
                    record_count: x.record_count,
                    data: x.data,
                }
            } else {
                x
            },
    )
}

/// The store after sealing the active segment and opening a new one whose
/// backend holds `fresh`.
pub open spec fn rotated(v: StoreView, fresh: Seq<u8>) -> StoreView {
    StoreView {
        segments: mark_sealed(v.segments, v.active).push(
            SegmentView {
                id: (v.last_id + 1) as u64,
                sealed: false,
                size: 0,
                record_count: 0,
                data: fresh,
            },
        ),
        active: (v.last_id + 1) as u64,
        last_id: (v.last_id + 1) as u64,
        max_segment_size: v.max_segment_size,
        index: v.index,
    }
}

/// The store after writing record `r` at the end of the active segment.
pub open spec fn written(v: StoreView, r: SegmentRecordModel) -> StoreView {
    let enc = spec_encode_segment_record(r);
    StoreView {
        segments: v.segments.map_values(
            |x: SegmentView|
                if x.id == v.active {
                    SegmentView {
                        id: x.id,
                        sealed: x.sealed,
                        size: (x.size + enc.len()) as u64,
                        record_count: (x.record_count + 1) as usize,
                        data: x.data + enc,
                    }
                } else {
                    x
                },
        ),
        active: v.active,
        last_id: v.last_id,
        max_segment_size: v.max_segment_size,
        index: v.index.insert(
            seg_key(r),
            (v.active, seg_of(v.segments, v.active)->Some_0.data.len() as u64, r.sequence),
        ),
    }
}

/// The segments that stay through compaction: the unsealed ones.
pub open spec fn unsealed(s: Seq<SegmentView>) -> Seq<SegmentView>
    decreases s.len(),
{
    if s.len() == 0 {
        Seq::empty()
    } else if s.last().sealed {
        unsealed(s.drop_last())
    } else {
        unsealed(s.drop_last()).push(s.last())
    }
}

/// The ids of the sealed segments, in order.
pub open spec fn sealed_ids(s: Seq<SegmentView>) -> Seq<u64>
    decreases s.len(),
{
    if s.len() == 0 {
        Seq::empty()
    } else if s.last().sealed {
        sealed_ids(s.drop_last()).push(s.last().id)
    } else {
        sealed_ids(s.drop_last())
    }
}

/// Sum of the segment sizes.
pub open spec fn sizes_total(s: Seq<SegmentView>) -> int
    decreases s.len(),
{
    if s.len() == 0 {
        0
    } else {
        sizes_total(s.drop_last()) + s.last().size
    }
}

/// What the index maps an entry to.
spec fn entry_view() -> spec_fn(IndexEntry) -> (u64, u64, u64) {
    |e: IndexEntry| (e.segment_id, e.offset, e.sequence.0)
}

spec fn slot_view<B: StorageBackend>(s: SegmentSlot<B>) -> SegmentView {
    SegmentView {
        id: s.info.id,
        sealed: s.info.sealed,
        size: s.info.size,
        record_count: s.info.record_count,
        data: s.backend.contents(),
    }
}

spec fn backends_valid<B: StorageBackend>(s: Seq<SegmentSlot<B>>) -> bool {
    forall|i: int| 0 <= i < s.len() ==> (#[trigger] s[i]).backend.valid()
}

spec fn backends_infallible<B: StorageBackend>(s: Seq<SegmentSlot<B>>) -> bool {
    forall|i: int| 0 <= i < s.len() ==> (#[trigger] s[i]).backend.infallible()
}

spec fn slots_view<B: StorageBackend>(s: Seq<SegmentSlot<B>>) -> Seq<SegmentView> {
    s.map_values(|x: SegmentSlot<B>| slot_view(x))
}

proof fn lemma_seg_of_at(s: Seq<SegmentView>, i: int)
    requires
        ids_increasing(s),
        0 <= i < s.len(),
    ensures
        seg_of(s, s[i].id) == Some(s[i]),
{
    let j = choose|j: int| 0 <= j < s.len() && s[j].id == s[i].id;
    assert(0 <= j < s.len() && s[j].id == s[i].id);
    if j < i {
        assert(s[j].id < s[i].id);
    } else if i < j {
        assert(s[i].id < s[j].id);
    }
}

proof fn lemma_seg_of_none(s: Seq<SegmentView>, id: u64)
    requires
        forall|i: int| 0 <= i < s.len() ==> s[i].id != id,
    ensures
        seg_of(s, id) is None,
{
}

/// Reading a record depends only on bytes that an append leaves untouched.
proof fn lemma_record_at_extend(d: Seq<u8>, d2: Seq<u8>, off: int)
    requires
        d.is_prefix_of(d2),
        record_at(d, off) is Some,
        0 <= off,
    ensures
        record_at(d2, off) == record_at(d, off),
{
    assert(d2.subrange(off, off + 4) =~= d.subrange(off, off + 4));
    let l = le32_at(d, off) as int;
    assert(d2.subrange(off, off + l) =~= d.subrange(off, off + l));
}

/// The record written at the end of `d` can be read back there.
proof fn lemma_record_at_written(d: Seq<u8>, r: SegmentRecordModel)
    requires
        r.entity_id.len() == 16,
        r.encodable(),
    ensures
        record_at(d + spec_encode_segment_record(r), d.len() as int) == Some(r),
        read_record(d + spec_encode_segment_record(r), d.len() as int) == Ok::<
            SegmentRecordModel,
            ReadFailure,
        >(r),
{
    let enc = spec_encode_segment_record(r);
    let d2 = d + enc;
    let off = d.len() as int;
    lemma_segment_record_roundtrip(r, Seq::empty());
    assert(enc + Seq::<u8>::empty() =~= enc);
    assert(d2.subrange(off, off + 4) =~= enc.subrange(0, 4));
    assert(le32_at(d2, off) == le32_at(enc, 0));
    assert(le32_at(d2, off) == r.encoded_len());
    assert(d2.subrange(off, off + r.encoded_len()) =~= enc);
}

/// Every record of a scan can be read at its offset.
proof fn lemma_scan_readable(d: Seq<u8>, off: int)
    requires
        scan_records(d, off) is Ok,
        d.len() <= u64::MAX,
    ensures
        forall|i: int|
            0 <= i < scan_records(d, off)->Ok_0.len() ==> record_at(
                d,
                (#[trigger] scan_records(d, off)->Ok_0[i]).0 as int,
            ) == Some(scan_records(d, off)->Ok_0[i].1) && scan_records(d, off)->Ok_0[i].0 >= off,
    decreases d.len() - off,
{
    if off < 0 || off + 4 > d.len() {
    } else if off + le32_at(d, off) > d.len() {
    } else if le32_at(d, off) < 37 {
    } else {
        let l = le32_at(d, off) as int;
        lemma_scan_readable(d, off + l);
        let r = spec_decode_segment_record(d.subrange(off, off + l))->Ok_0;
        let rest = scan_records(d, off + l)->Ok_0;
        let all = seq![(off as u64, r)] + rest;
        assert forall|i: int| 0 <= i < all.len() implies record_at(d, (#[trigger] all[i]).0 as int)
            == Some(all[i].1) && all[i].0 >= off by {
            if i > 0 {
                assert(all[i] == rest[i - 1]);
            }
        }
    }
}

/// Every record of a scan of all segments can be read where it is recorded.
proof fn lemma_scan_all_readable(s: Seq<SegmentView>)
    requires
        ids_increasing(s),
        forall|i: int| 0 <= i < s.len() ==> (#[trigger] s[i]).data.len() <= u64::MAX,
        scan_all_spec(s) is Ok,
    ensures
        forall|i: int|
            0 <= i < scan_all_spec(s)->Ok_0.len() ==> (seg_of(
                s,
                (#[trigger] scan_all_spec(s)->Ok_0[i]).0,
            ) matches Some(sv) && record_at(sv.data, scan_all_spec(s)->Ok_0[i].1 as int) == Some(
                scan_all_spec(s)->Ok_0[i].2,
            )),
    decreases s.len(),
{
    if s.len() > 0 {
        let t = s.drop_last();
        assert(ids_increasing(t));
        assert forall|i: int| 0 <= i < t.len() implies (#[trigger] t[i]).data.len() <= u64::MAX by {
            assert(t[i] == s[i]);
        }
        assert(s.last() == s[s.len() - 1]);
        lemma_scan_all_readable(t);
        let prev = scan_all_spec(t)->Ok_0;
        let rs = scan_records(s.last().data, 0)->Ok_0;
        lemma_scan_readable(s.last().data, 0);
        let all = prev + tag_records(s.last().id, rs);
        lemma_seg_of_at(s, s.len() - 1);
        assert forall|i: int| 0 <= i < all.len() implies (seg_of(s, (#[trigger] all[i]).0) matches Some(
            sv,
        ) && record_at(sv.data, all[i].1 as int) == Some(all[i].2)) by {
            if i < prev.len() {
                assert(all[i] == prev[i]);
                let sv = seg_of(t, prev[i].0)->Some_0;
                let j = choose|j: int| 0 <= j < t.len() && t[j].id == prev[i].0;
                lemma_seg_of_at(t, j);
                lemma_seg_of_at(s, j);
            } else {
                assert(all[i] == tag_records(s.last().id, rs)[i - prev.len()]);
                assert(rs[i - prev.len()].0 == all[i].1);
            }
        }
    }
}

/// Every entry of a folded index comes from one of the records.
proof fn lemma_index_fold_from(es: Seq<(u64, u64, SegmentRecordModel)>, k: EntityKey)
    requires
        index_fold(es).contains_key(k),
    ensures
        exists|i: int|
            0 <= i < es.len() && seg_key((#[trigger] es[i]).2) == k && index_fold(es)[k] == (
                es[i].0,
                es[i].1,
                es[i].2.sequence,
            ),
    decreases es.len(),
{
    if es.len() > 0 {
        let t = es.drop_last();
        let e = es.last();
        if index_fold(t).contains_key(k) && index_fold(es)[k] == index_fold(t)[k] {
            lemma_index_fold_from(t, k);
            let i = choose|i: int|
                0 <= i < t.len() && seg_key((#[trigger] t[i]).2) == k && index_fold(t)[k] == (
                    t[i].0,
                    t[i].1,
                    t[i].2.sequence,
                );
            assert(es[i] == t[i]);
        } else {
            assert(es[es.len() - 1] == e);
        }
    }
}

/// Offsets paired with records.
pub open spec fn pairs(offs: Seq<u64>, recs: Seq<SegmentRecordModel>) -> Seq<(u64, SegmentRecordModel)> {
    Seq::new(offs.len(), |i: int| (offs[i], recs[i]))
}

proof fn lemma_after_empty<T, E>(r: Result<Seq<T>, E>)
    ensures
        after(Seq::empty(), r) == r,
{
    match r {
        Ok(rest) => {
            assert(Seq::<T>::empty() + rest =~= rest);
        },
        Err(_) => {},
    }
}

proof fn lemma_after_assoc<T, E>(done: Seq<T>, x: T, rest: Result<Seq<T>, E>)
    ensures
        after(done, after(seq![x], rest)) == after(done.push(x), rest),
{
    match rest {
        Ok(r) => {
            assert(done + (seq![x] + r) =~= done.push(x) + r);
        },
        Err(_) => {},
    }
}

proof fn lemma_pairs_push(offs: Seq<u64>, recs: Seq<SegmentRecordModel>, o: u64, r: SegmentRecordModel)
    requires
        offs.len() == recs.len(),
    ensures
        pairs(offs.push(o), recs.push(r)) == pairs(offs, recs).push((o, r)),
{
    assert(pairs(offs.push(o), recs.push(r)) =~= pairs(offs, recs).push((o, r)));
}

/// A scan of all segments that fails on a prefix fails the same way.
proof fn lemma_scan_all_err_prefix(s: Seq<SegmentView>, n: int)
    requires
        0 <= n <= s.len(),
        scan_all_spec(s.take(n)) is Err,
    ensures
        scan_all_spec(s) == scan_all_spec(s.take(n)),
    decreases s.len(),
{
    if n == s.len() {
        assert(s.take(n) =~= s);
    } else {
        assert(s.drop_last().take(n) =~= s.take(n));
        lemma_scan_all_err_prefix(s.drop_last(), n);
    }
}

/// An index rebuilt from a scan of all segments points to readable records.
proof fn lemma_rebuilt_ok(v: StoreView, es: Seq<(u64, u64, SegmentRecordModel)>)
    requires
        ids_increasing(v.segments),
        forall|i: int| 0 <= i < v.segments.len() ==> (#[trigger] v.segments[i]).data.len() <= u64::MAX,
        forall|i: int| 0 <= i < v.segments.len() ==> (#[trigger] v.segments[i]).id <= v.last_id,
        scan_all_spec(v.segments) == Ok::<Seq<(u64, u64, SegmentRecordModel)>, SegmentDecodeFailure>(es),
        v.index == index_fold(es),
    ensures
        forall|k: EntityKey| v.index.contains_key(k) ==> entry_ok(v, k),
{
    lemma_scan_all_readable(v.segments);
    assert forall|k: EntityKey| v.index.contains_key(k) implies entry_ok(v, k) by {
        lemma_index_fold_from(es, k);
        let i = choose|i: int|
            0 <= i < es.len() && seg_key((#[trigger] es[i]).2) == k && index_fold(es)[k] == (
                es[i].0,
                es[i].1,
                es[i].2.sequence,
            );
        assert(seg_of(v.segments, es[i].0) is Some);
        let j = choose|j: int| 0 <= j < v.segments.len() && v.segments[j].id == es[i].0;
        assert(v.segments[j].id <= v.last_id);
    }
}

/// The store with its active segment marked sealed.
pub open spec fn sealed_active(v: StoreView) -> StoreView {
    StoreView {
        segments: mark_sealed(v.segments, v.active),
        active: v.active,
        last_id: v.last_id,
        max_segment_size: v.max_segment_size,
        index: v.index,
    }
}

/// Whether the active segment can take `n` more bytes and one more record
/// without its counters overflowing.
pub open spec fn can_grow(v: StoreView, n: int) -> bool {
    seg_of(v.segments, v.active) matches Some(sv) ==> sv.size + n <= u64::MAX && sv.record_count
        < usize::MAX
}

/// Segments whose id is at most `last` all come from `s`, with their bytes
/// kept or extended at the end.
pub open spec fn kept_from(s: Seq<SegmentView>, t: Seq<SegmentView>, last: u64) -> bool {
    forall|j: int|
        0 <= j < t.len() && t[j].id <= last ==> exists|i: int|
            0 <= i < s.len() && s[i].id == (#[trigger] t[j]).id && s[i].data.is_prefix_of(t[j].data)
}

proof fn lemma_index_kept(v1: StoreView, v2: StoreView)
    requires
        forall|k: EntityKey| v1.index.contains_key(k) ==> entry_ok(v1, k),
        ids_increasing(v1.segments),
        ids_increasing(v2.segments),
        v2.index == v1.index,
        v2.last_id >= v1.last_id,
        kept_from(v1.segments, v2.segments, v1.last_id),
    ensures
        forall|k: EntityKey| v2.index.contains_key(k) ==> entry_ok(v2, k),
{
    assert forall|k: EntityKey| v2.index.contains_key(k) implies entry_ok(v2, k) by {
        assert(entry_ok(v1, k));
        let id = v1.index[k].0;
        if seg_of(v2.segments, id) is Some {
            let j = choose|j: int| 0 <= j < v2.segments.len() && v2.segments[j].id == id;
            lemma_seg_of_at(v2.segments, j);
            let i = choose|i: int|
                0 <= i < v1.segments.len() && v1.segments[i].id == (#[trigger] v2.segments[j]).id
                    && v1.segments[i].data.is_prefix_of(v2.segments[j].data);
            lemma_seg_of_at(v1.segments, i);
            lemma_record_at_extend(v1.segments[i].data, v2.segments[j].data, v1.index[k].1 as int);
        }
    }
}

/// The store a write lands in: rotated first when the write needs it, the
/// new segment's backend holding `fresh`.
pub open spec fn pre_write(v: StoreView, n: int, fresh: Seq<u8>) -> StoreView {
    if needs_seal(v, n) {
        rotated(v, fresh)
    } else {
        v
    }
}

proof fn lemma_same_data_kept(s: Seq<SegmentView>, t: Seq<SegmentView>, last: u64)
    requires
        s.len() <= t.len(),
        forall|j: int| 0 <= j < s.len() ==> (#[trigger] t[j]).id == s[j].id && s[j].data.is_prefix_of(t[j].data),
        forall|j: int| s.len() <= j < t.len() ==> (#[trigger] t[j]).id > last,
    ensures
        kept_from(s, t, last),
{
    assert forall|j: int| 0 <= j < t.len() && t[j].id <= last implies exists|i: int|
        0 <= i < s.len() && s[i].id == (#[trigger] t[j]).id && s[i].data.is_prefix_of(t[j].data) by {
        assert(j < s.len());
        assert(s[j].id == t[j].id && s[j].data.is_prefix_of(t[j].data));
    }
}

proof fn lemma_sealed_active_ok(v: StoreView)
    requires
        store_ok(v),
    ensures
        store_ok(sealed_active(v)),
{
    let t = mark_sealed(v.segments, v.active);
    assert forall|j: int| 0 <= j < v.segments.len() implies (#[trigger] t[j]).id == v.segments[j].id
        && v.segments[j].data.is_prefix_of(t[j].data) by {
        assert(v.segments[j].data.subrange(0, v.segments[j].data.len() as int) =~= t[j].data);
    }
    lemma_same_data_kept(v.segments, t, v.last_id);
    lemma_index_kept(v, sealed_active(v));
}

proof fn lemma_rotated_ids(v: StoreView, fresh: Seq<u8>)
    requires
        ids_increasing(v.segments),
        forall|i: int| 0 <= i < v.segments.len() ==> v.segments[i].id <= v.last_id,
        v.last_id < u64::MAX,
    ensures
        ids_increasing(rotated(v, fresh).segments),
        rotated(v, fresh).segments.len() == v.segments.len() + 1,
        seg_of(rotated(v, fresh).segments, rotated(v, fresh).active) == Some(
            rotated(v, fresh).segments[v.segments.len() as int],
        ),
        rotated(v, fresh).segments[v.segments.len() as int] == (SegmentView {
            id: (v.last_id + 1) as u64,
            sealed: false,
            size: 0,
            record_count: 0,
            data: fresh,
        }),
{
    let t = rotated(v, fresh).segments;
    assert forall|i: int, j: int| 0 <= i < j < t.len() implies t[i].id < t[j].id by {
        if j < v.segments.len() {
            assert(v.segments[i].id < v.segments[j].id);
        } else {
            assert(v.segments[i].id <= v.last_id);
        }
    }
    lemma_seg_of_at(t, v.segments.len() as int);
}

proof fn lemma_rotated_ok(v: StoreView, fresh: Seq<u8>)
    requires
        store_ok(v),
        v.last_id < u64::MAX,
    ensures
        store_ok(rotated(v, fresh)),
{
    lemma_rotated_ids(v, fresh);
    let t = rotated(v, fresh).segments;
    assert forall|j: int| 0 <= j < v.segments.len() implies (#[trigger] t[j]).id == v.segments[j].id
        && v.segments[j].data.is_prefix_of(t[j].data) by {
        assert(v.segments[j].data.subrange(0, v.segments[j].data.len() as int) =~= t[j].data);
    }
    lemma_same_data_kept(v.segments, t, v.last_id);
    lemma_index_kept(v, rotated(v, fresh));
}

/// Growing the bytes of one segment, or changing its counters, keeps the
/// invariant.
proof fn lemma_grown_ok(pre: StoreView, post: StoreView, p: int)
    requires
        store_ok(pre),
        0 <= p < pre.segments.len(),
        post.segments.len() == pre.segments.len(),
        forall|j: int| 0 <= j < pre.segments.len() && j != p ==> post.segments[j] == pre.segments[j],
        post.segments[p].id == pre.segments[p].id,
        pre.segments[p].data.is_prefix_of(post.segments[p].data),
        post.index == pre.index,
        post.last_id == pre.last_id,
    ensures
        store_ok(post),
{
    assert forall|j: int| 0 <= j < pre.segments.len() implies (#[trigger] post.segments[j]).id
        == pre.segments[j].id && pre.segments[j].data.is_prefix_of(post.segments[j].data) by {
        if j != p {
            assert(pre.segments[j].data.subrange(0, pre.segments[j].data.len() as int)
                =~= post.segments[j].data);
        }
    }
    lemma_same_data_kept(pre.segments, post.segments, pre.last_id);
    assert(ids_increasing(post.segments)) by {
        assert forall|i: int, j: int| 0 <= i < j < post.segments.len() implies post.segments[i].id
            < post.segments[j].id by {
            assert(pre.segments[i].id < pre.segments[j].id);
        }
    }
    lemma_index_kept(pre, post);
}

/// Writing a record at the end of the active segment and pointing the index
/// to it keeps the invariant, and the record is found again.
proof fn lemma_written_ok(
    pre: StoreView,
    mid: StoreView,
    post: StoreView,
    rec: SegmentRecordModel,
    p: int,
    offset: u64,
)
    requires
        store_ok(pre),
        store_ok(mid),
        rec.entity_id.len() == 16,
        rec.encodable(),
        0 <= p < pre.segments.len(),
        pre.segments[p].id == pre.active,
        offset == pre.segments[p].data.len(),
        mid.segments.len() == pre.segments.len(),
        forall|j: int| 0 <= j < pre.segments.len() && j != p ==> mid.segments[j] == pre.segments[j],
        mid.segments[p] == (SegmentView {
            id: pre.segments[p].id,
            sealed: pre.segments[p].sealed,
            size: (pre.segments[p].size + spec_encode_segment_record(rec).len()) as u64,
            record_count: (pre.segments[p].record_count + 1) as usize,
            data: pre.segments[p].data + spec_encode_segment_record(rec),
        }),
        mid.index == pre.index,
        mid.active == pre.active,
        mid.last_id == pre.last_id,
        mid.max_segment_size == pre.max_segment_size,
        post.segments == mid.segments,
        post.active == mid.active,
        post.last_id == mid.last_id,
        post.max_segment_size == mid.max_segment_size,
        post.index == mid.index.insert(seg_key(rec), (pre.active, offset, rec.sequence)),
    ensures
        store_ok(post),
        lookup(post, seg_key(rec)) == Some(rec),
        post == written(pre, rec),
        seg_of(pre.segments, pre.active) == Some(pre.segments[p]),
{
    lemma_seg_of_at(pre.segments, p);
    lemma_seg_of_at(mid.segments, p);
    lemma_record_at_written(pre.segments[p].data, rec);
    let k = seg_key(rec);
    assert forall|kk: EntityKey| post.index.contains_key(kk) implies entry_ok(post, kk) by {
        if kk != k {
            assert(entry_ok(mid, kk));
        }
    }
    let w = written(pre, rec);
    assert forall|j: int| 0 <= j < pre.segments.len() implies w.segments[j] == post.segments[j] by {
        if j != p {
            if j < p {
                assert(pre.segments[j].id < pre.segments[p].id);
            } else {
                assert(pre.segments[j].id > pre.segments[p].id);
            }
        }
    }
    assert(w.segments =~= post.segments);
    assert(w.index =~= post.index);
}

/// The segments of `s` open `t`, at the same places and with the same ids,
/// their bytes kept or extended.
pub open spec fn extends_all(s: Seq<SegmentView>, t: Seq<SegmentView>) -> bool {
    &&& s.len() <= t.len()
    &&& forall|i: int|
        0 <= i < s.len() ==> (#[trigger] t[i]).id == s[i].id && s[i].data.is_prefix_of(t[i].data)
}

/// An entity whose index entry is unchanged is found as before when no
/// segment bytes were rewritten and no old id came back.
proof fn lemma_lookup_kept(v1: StoreView, v2: StoreView, k: EntityKey)
    requires
        store_ok(v1),
        ids_increasing(v2.segments),
        v2.index.contains_key(k) == v1.index.contains_key(k),
        v1.index.contains_key(k) ==> v2.index[k] == v1.index[k],
        kept_from(v1.segments, v2.segments, v1.last_id),
        extends_all(v1.segments, v2.segments),
    ensures
        lookup(v2, k) == lookup(v1, k),
{
    if v1.index.contains_key(k) {
        assert(entry_ok(v1, k));
        let id = v1.index[k].0;
        if seg_of(v1.segments, id) is Some {
            let i = choose|i: int| 0 <= i < v1.segments.len() && v1.segments[i].id == id;
            lemma_seg_of_at(v1.segments, i);
            assert(v2.segments[i].id == v1.segments[i].id);
            lemma_seg_of_at(v2.segments, i);
            lemma_record_at_extend(v1.segments[i].data, v2.segments[i].data, v1.index[k].1 as int);
        } else if seg_of(v2.segments, id) is Some {
            let j = choose|j: int| 0 <= j < v2.segments.len() && v2.segments[j].id == id;
            let i = choose|i: int|
                0 <= i < v1.segments.len() && v1.segments[i].id == (#[trigger] v2.segments[j]).id
                    && v1.segments[i].data.is_prefix_of(v2.segments[j].data);
            assert(0 <= i < v1.segments.len() && v1.segments[i].id == id);
        }
    }
}

/// Sealing and rotating before a write keeps every segment's bytes.
proof fn lemma_pre_write_kept(v: StoreView, n: int, fresh: Seq<u8>)
    requires
        store_ok(v),
        needs_seal(v, n) ==> v.last_id < u64::MAX,
    ensures
        store_ok(pre_write(v, n, fresh)),
        pre_write(v, n, fresh).index == v.index,
        pre_write(v, n, fresh).last_id >= v.last_id,
        kept_from(v.segments, pre_write(v, n, fresh).segments, v.last_id),
        extends_all(v.segments, pre_write(v, n, fresh).segments),
{
    let p = pre_write(v, n, fresh);
    let t = p.segments;
    if needs_seal(v, n) {
        lemma_rotated_ok(v, fresh);
        lemma_rotated_ids(v, fresh);
    }
    assert forall|j: int| 0 <= j < v.segments.len() implies (#[trigger] t[j]).id
        == v.segments[j].id && v.segments[j].data.is_prefix_of(t[j].data) by {
        assert(v.segments[j].data.subrange(0, v.segments[j].data.len() as int) =~= t[j].data);
    }
    lemma_same_data_kept(v.segments, t, v.last_id);
}

/// Writing a record at the end of the active segment keeps every segment's
/// bytes at their place.
proof fn lemma_written_kept(p: StoreView, r: SegmentRecordModel)
    requires
        store_ok(p),
    ensures
        ids_increasing(written(p, r).segments),
        kept_from(p.segments, written(p, r).segments, p.last_id),
        extends_all(p.segments, written(p, r).segments),
{
    let w = written(p, r);
    let enc = spec_encode_segment_record(r);
    assert forall|j: int| 0 <= j < p.segments.len() implies (#[trigger] w.segments[j]).id
        == p.segments[j].id && p.segments[j].data.is_prefix_of(w.segments[j].data) by {
        if p.segments[j].id == p.active {
            assert(p.segments[j].data =~= (p.segments[j].data + enc).subrange(
                0,
                p.segments[j].data.len() as int,
            ));
        } else {
            assert(p.segments[j].data.subrange(0, p.segments[j].data.len() as int)
                =~= w.segments[j].data);
        }
    }
    lemma_same_data_kept(p.segments, w.segments, p.last_id);
    assert forall|i: int, j: int| 0 <= i < j < w.segments.len() implies w.segments[i].id
        < w.segments[j].id by {
        assert(p.segments[i].id < p.segments[j].id);
    }
}

/// Writing a record, after sealing the active segment if needed, leaves
/// every other entity found as before.
pub(crate) proof fn lemma_write_keeps_others(v: StoreView, n: int, fresh: Seq<u8>, r: SegmentRecordModel)
    requires
        store_ok(v),
        needs_seal(v, n) ==> v.last_id < u64::MAX,
    ensures
        forall|k: EntityKey|
            k != seg_key(r) ==> #[trigger] lookup(written(pre_write(v, n, fresh), r), k) == lookup(
                v,
                k,
            ),
{
    let p = pre_write(v, n, fresh);
    lemma_pre_write_kept(v, n, fresh);
    lemma_written_kept(p, r);
    assert forall|k: EntityKey| k != seg_key(r) implies #[trigger] lookup(written(p, r), k) == lookup(
        v,
        k,
    ) by {
        lemma_lookup_kept(v, p, k);
        lemma_lookup_kept(p, written(p, r), k);
    }
}

/// The bytes from `off` on are whole, decodable records, up to the end.
pub open spec fn tiles(d: Seq<u8>, off: int) -> bool
    decreases d.len() - off,
{
    if off < 0 || off > d.len() {
        false
    } else if off == d.len() {
        true
    } else if off + 4 > d.len() || off + le32_at(d, off) > d.len() || le32_at(d, off) < 37 {
        false
    } else {
        spec_decode_segment_record(d.subrange(off, off + le32_at(d, off))) is Ok && tiles(
            d,
            off + le32_at(d, off),
        )
    }
}

/// Every segment of the store is made of whole records.
pub open spec fn tidy(v: StoreView) -> bool {
    forall|i: int| 0 <= i < v.segments.len() ==> tiles(#[trigger] v.segments[i].data, 0)
}

/// A record of another entity, or with a sequence number above the
/// snapshot, wherever it stands, changes nothing a reader at the snapshot
/// sees of `k`.
pub proof fn lemma_latest_at_insert(
    rs: Seq<SegmentRecordModel>,
    i: int,
    x: SegmentRecordModel,
    k: EntityKey,
    snap: u64,
)
    requires
        0 <= i <= rs.len(),
        x.sequence > snap || seg_key(x) != k,
    ensures
        latest_at(rs.insert(i, x), k, snap) == latest_at(rs, k, snap),
    decreases rs.len(),
{
    let t = rs.insert(i, x);
    if i == rs.len() {
        assert(t.drop_last() =~= rs);
    } else {
        lemma_latest_at_insert(rs.drop_last(), i, x, k, snap);
        assert(t.drop_last() =~= rs.drop_last().insert(i, x));
        assert(t.last() == rs.last());
    }
}

/// What a reader sees is one of the records, of that entity, not above the
/// snapshot.
proof fn lemma_latest_at_member(rs: Seq<SegmentRecordModel>, k: EntityKey, snap: u64)
    ensures
        latest_at(rs, k, snap) matches Some(x) ==> seg_key(x) == k && x.sequence <= snap && exists|i: int|
            0 <= i < rs.len() && rs[i] == x,
    decreases rs.len(),
{
    if rs.len() > 0 {
        lemma_latest_at_member(rs.drop_last(), k, snap);
        if let Some(x) = latest_at(rs.drop_last(), k, snap) {
            let i = choose|i: int| 0 <= i < rs.drop_last().len() && rs.drop_last()[i] == x;
            assert(rs[i] == x);
        }
        assert(rs[rs.len() - 1] == rs.last());
    }
}

/// A record at sequence `s` of an entity whose other records are all below
/// `s` is what a reader at `s` sees of it, wherever it stands.
pub proof fn lemma_latest_at_new(rs: Seq<SegmentRecordModel>, i: int, x: SegmentRecordModel, s: u64)
    requires
        0 <= i <= rs.len(),
        x.sequence == s,
        forall|j: int| 0 <= j < rs.len() && seg_key(#[trigger] rs[j]) == seg_key(x) ==> rs[j].sequence < s,
    ensures
        latest_at(rs.insert(i, x), seg_key(x), s) == Some(x),
    decreases rs.len(),
{
    let t = rs.insert(i, x);
    let k = seg_key(x);
    if i == rs.len() {
        assert(t.drop_last() =~= rs);
        lemma_latest_at_member(rs, k, s);
        if let Some(p) = latest_at(rs, k, s) {
            let j = choose|j: int| 0 <= j < rs.len() && rs[j] == p;
            assert(seg_key(rs[j]) == k);
        }
    } else {
        assert(t.drop_last() =~= rs.drop_last().insert(i, x));
        assert forall|j: int| 0 <= j < rs.drop_last().len() && seg_key(#[trigger] rs.drop_last()[j]) == k
            implies rs.drop_last()[j].sequence < s by {
            assert(rs.drop_last()[j] == rs[j]);
        }
        lemma_latest_at_new(rs.drop_last(), i, x, s);
        assert(t.last() == rs.last());
        assert(rs.last() == rs[rs.len() - 1]);
    }
}

/// Appending a record after whole records adds it at the end of a scan.
proof fn lemma_scan_append(d: Seq<u8>, off: int, r: SegmentRecordModel)
    requires
        tiles(d, off),
        r.entity_id.len() == 16,
        r.encodable(),
    ensures
        scan_records(d, off) is Ok,
        scan_records(d + spec_encode_segment_record(r), off) == Ok::<
            Seq<(u64, SegmentRecordModel)>,
            SegmentDecodeFailure,
        >(scan_records(d, off)->Ok_0.push((d.len() as u64, r))),
        tiles(d + spec_encode_segment_record(r), off),
    decreases d.len() - off,
{
    let enc = spec_encode_segment_record(r);
    let d2 = d + enc;
    if off == d.len() {
        lemma_segment_record_roundtrip(r, Seq::empty());
        assert(enc + Seq::<u8>::empty() =~= enc);
        assert(d2.subrange(off, off + 4) =~= enc.subrange(0, 4));
        assert(le32_at(d2, off) == r.encoded_len());
        assert(d2.subrange(off, off + r.encoded_len()) =~= enc);
        assert(scan_records(d2, off + r.encoded_len()) == Ok::<
            Seq<(u64, SegmentRecordModel)>,
            SegmentDecodeFailure,
        >(Seq::empty()));
        assert(seq![(off as u64, r)] + Seq::<(u64, SegmentRecordModel)>::empty() =~= Seq::<
            (u64, SegmentRecordModel),
        >::empty().push((d.len() as u64, r)));
        assert(spec_decode_segment_record(d2.subrange(off, off + r.encoded_len())) is Ok);
        assert(off + r.encoded_len() == d2.len());
        assert(tiles(d2, off + r.encoded_len()));
    } else {
        let l = le32_at(d, off) as int;
        lemma_scan_append(d, off + l, r);
        assert(d2.subrange(off, off + 4) =~= d.subrange(off, off + 4));
        assert(d2.subrange(off, off + l) =~= d.subrange(off, off + l));
        assert(le32_at(d2, off) == le32_at(d, off));
        assert(tiles(d2, off + l));
        let rec = spec_decode_segment_record(d.subrange(off, off + l))->Ok_0;
        let rest = scan_records(d, off + l)->Ok_0;
        assert((seq![(off as u64, rec)] + rest).push((d.len() as u64, r)) =~= seq![(off as u64, rec)]
            + rest.push((d.len() as u64, r)));
    }
}

/// A scan of all segments depends only on their ids and bytes.
proof fn lemma_scan_all_same(s: Seq<SegmentView>, t: Seq<SegmentView>)
    requires
        s.len() == t.len(),
        forall|i: int| 0 <= i < s.len() ==> (#[trigger] t[i]).id == s[i].id && t[i].data == s[i].data,
    ensures
        scan_all_spec(t) == scan_all_spec(s),
    decreases s.len(),
{
    if s.len() > 0 {
        lemma_scan_all_same(s.drop_last(), t.drop_last());
        assert(t.last() == t[t.len() - 1]);
    }
}

/// Appending a record to one segment made of whole records inserts it into
/// the scan of all segments; returns where.
proof fn lemma_scan_all_grow(s: Seq<SegmentView>, t: Seq<SegmentView>, q: int, r: SegmentRecordModel) -> (j: int)
    requires
        s.len() == t.len(),
        0 <= q < s.len(),
        forall|i: int| 0 <= i < s.len() ==> (#[trigger] t[i]).id == s[i].id,
        forall|i: int| 0 <= i < s.len() && i != q ==> (#[trigger] t[i]).data == s[i].data,
        t[q].data == s[q].data + spec_encode_segment_record(r),
        tiles(s[q].data, 0),
        scan_all_spec(s) is Ok,
        r.entity_id.len() == 16,
        r.encodable(),
    ensures
        0 <= j <= scan_all_spec(s)->Ok_0.len(),
        scan_all_spec(t) == Ok::<Seq<(u64, u64, SegmentRecordModel)>, SegmentDecodeFailure>(
            scan_all_spec(s)->Ok_0.insert(j, (s[q].id, s[q].data.len() as u64, r)),
        ),
    decreases s.len(),
{
    let n = s.len() - 1;
    let x = (s[q].id, s[q].data.len() as u64, r);
    if q == n {
        lemma_scan_all_same(s.drop_last(), t.drop_last());
        lemma_scan_append(s[q].data, 0, r);
        let prev = scan_all_spec(s.drop_last())->Ok_0;
        let rs = scan_records(s[q].data, 0)->Ok_0;
        assert(tag_records(s[q].id, rs.push((s[q].data.len() as u64, r))) =~= tag_records(
            s[q].id,
            rs,
        ).push(x));
        assert((prev + tag_records(s[q].id, rs)).push(x) =~= prev + tag_records(s[q].id, rs).push(x));
        assert(t.last() == t[n]);
        let es = prev + tag_records(s[q].id, rs);
        assert(es.insert(es.len() as int, x) =~= es.push(x));
        es.len() as int
    } else {
        let j = lemma_scan_all_grow(s.drop_last(), t.drop_last(), q, r);
        let prev = scan_all_spec(s.drop_last())->Ok_0;
        let b = tag_records(s[n].id, scan_records(s[n].data, 0)->Ok_0);
        assert(t.last() == t[n]);
        assert(prev.insert(j, x) + b =~= (prev + b).insert(j, x));
        j
    }
}

/// The bytes of a store whose segments are made of whole records, and what
/// a reader at any snapshot below a new record's sequence number sees, stay
/// so when that record is written.
pub(crate) proof fn lemma_write_keeps_snapshots(v: StoreView, n: int, r: SegmentRecordModel)
    requires
        store_ok(v),
        tidy(v),
        scan_all_spec(v.segments) is Ok,
        needs_seal(v, n) ==> v.last_id < u64::MAX,
        r.entity_id.len() == 16,
        r.encodable(),
        lookup(written(pre_write(v, n, Seq::empty()), r), seg_key(r)) is Some,
    ensures
        tidy(written(pre_write(v, n, Seq::empty()), r)),
        scan_all_spec(written(pre_write(v, n, Seq::empty()), r).segments) is Ok,
        exists|j: int|
            0 <= j <= all_records(scan_all_spec(v.segments)->Ok_0).len() && all_records(
                scan_all_spec(written(pre_write(v, n, Seq::empty()), r).segments)->Ok_0,
            ) == #[trigger] all_records(scan_all_spec(v.segments)->Ok_0).insert(j, r),
        forall|k: EntityKey, snap: u64|
            snap < r.sequence ==> #[trigger] latest_at(
                all_records(scan_all_spec(written(pre_write(v, n, Seq::empty()), r).segments)->Ok_0),
                k,
                snap,
            ) == latest_at(all_records(scan_all_spec(v.segments)->Ok_0), k, snap),
{
    let p = pre_write(v, n, Seq::empty());
    if needs_seal(v, n) {
        lemma_rotated_ok(v, Seq::empty());
        let ms = mark_sealed(v.segments, v.active);
        lemma_scan_all_same(v.segments, ms);
        assert(p.segments.drop_last() =~= ms);
        assert(scan_records(Seq::<u8>::empty(), 0) == Ok::<
            Seq<(u64, SegmentRecordModel)>,
            SegmentDecodeFailure,
        >(Seq::empty()));
        assert(tag_records(p.active, Seq::empty()) =~= Seq::<(u64, u64, SegmentRecordModel)>::empty());
        assert(scan_all_spec(p.segments) == scan_all_spec(v.segments)) by {
            let e = scan_all_spec(ms)->Ok_0;
            assert(e + Seq::<(u64, u64, SegmentRecordModel)>::empty() =~= e);
        }
        assert forall|i: int| 0 <= i < p.segments.len() implies tiles(#[trigger] p.segments[i].data, 0) by {
            if i < v.segments.len() {
                assert(tiles(v.segments[i].data, 0));
            }
        }
    }
    assert(store_ok(p));
    assert(tidy(p));
    let w = written(p, r);
    let es = scan_all_spec(p.segments)->Ok_0;
    if exists|q: int| 0 <= q < p.segments.len() && p.segments[q].id == p.active {
        let q = choose|q: int| 0 <= q < p.segments.len() && p.segments[q].id == p.active;
        assert forall|i: int| 0 <= i < p.segments.len() && i != q implies (#[trigger] w.segments[i]).data
            == p.segments[i].data by {
            if i < q {
                assert(p.segments[i].id < p.segments[q].id);
            } else {
                assert(p.segments[i].id > p.segments[q].id);
            }
        }
        assert(tiles(p.segments[q].data, 0));
        let j = lemma_scan_all_grow(p.segments, w.segments, q, r);
        lemma_scan_append(p.segments[q].data, 0, r);
        let x = (p.segments[q].id, p.segments[q].data.len() as u64, r);
        assert(all_records(es.insert(j, x)) =~= all_records(es).insert(j, r));
        assert(all_records(scan_all_spec(w.segments)->Ok_0) == all_records(es).insert(j, r));
        assert forall|k: EntityKey, snap: u64| snap < r.sequence implies #[trigger] latest_at(
            all_records(scan_all_spec(w.segments)->Ok_0),
            k,
            snap,
        ) == latest_at(all_records(scan_all_spec(v.segments)->Ok_0), k, snap) by {
            lemma_latest_at_insert(all_records(es), j, r, k, snap);
        }
        assert forall|i: int| 0 <= i < w.segments.len() implies tiles(#[trigger] w.segments[i].data, 0) by {
            if i != q {
                assert(tiles(p.segments[i].data, 0));
            }
        }
    } else {
        assert(w.segments =~= p.segments);
        lemma_seg_of_none(p.segments, p.active);
        assert(w.index[seg_key(r)].0 == p.active);
    }
}

proof fn lemma_sizes_total_prefix(s: Seq<SegmentView>, n: int)
    requires
        0 <= n <= s.len(),
    ensures
        sizes_total(s.take(n)) <= sizes_total(s),
    decreases s.len(),
{
    if n < s.len() {
        assert(s.drop_last().take(n) =~= s.take(n));
        lemma_sizes_total_prefix(s.drop_last(), n);
    } else {
        assert(s.take(n) =~= s);
    }
}

/// The segments after compaction: the unsealed ones, followed by the new
/// sealed segment (whose backend first held `fresh`) when there are records.
pub open spec fn compacted(v: StoreView, fresh: Seq<u8>, recs: Seq<SegmentRecordModel>) -> Seq<
    SegmentView,
> {
    if recs.len() > 0 {
        unsealed(v.segments).push(
            SegmentView {
                id: (v.last_id + 1) as u64,
                sealed: true,
                size: total_encoded_len(recs) as u64,
                record_count: recs.len() as usize,
                data: fresh + spec_encode_all(recs),
            },
        )
    } else {
        unsealed(v.segments)
    }
}

/// A segment as loaded at start: its id and seal state given, no records
/// counted, and its size read from the backend (zero when that fails).
pub open spec fn loaded(sv: SegmentView, id: u64, sealed: bool) -> bool {
    &&& sv.id == id
    &&& sv.sealed == sealed
    &&& sv.record_count == 0
    &&& (sv.size == sv.data.len() || sv.size == 0)
}

/// A new store: one active segment with id 1 and an empty index.
pub open spec fn fresh_store(v: StoreView, max_segment_size: u64) -> bool {
    &&& v.segments.len() == 1
    &&& loaded(v.segments[0], 1, false)
    &&& v.active == 1
    &&& v.last_id == 1
    &&& v.max_segment_size == max_segment_size
    &&& v.index == Map::<EntityKey, (u64, u64, u64)>::empty()
}

proof fn lemma_unsealed(s: Seq<SegmentView>)
    requires
        ids_increasing(s),
    ensures
        ids_increasing(unsealed(s)),
        forall|j: int|
            0 <= j < unsealed(s).len() ==> exists|i: int|
                0 <= i < s.len() && s[i] == #[trigger] unsealed(s)[j],
    decreases s.len(),
{
    if s.len() > 0 {
        let t = s.drop_last();
        assert(ids_increasing(t));
        lemma_unsealed(t);
        let u = unsealed(t);
        assert forall|j: int| 0 <= j < unsealed(s).len() implies exists|i: int|
            0 <= i < s.len() && s[i] == #[trigger] unsealed(s)[j] by {
            if j < u.len() {
                let i = choose|i: int| 0 <= i < t.len() && t[i] == #[trigger] u[j];
                assert(s[i] == t[i]);
            } else {
                assert(s[s.len() - 1] == unsealed(s)[j]);
            }
        }
        if !s.last().sealed {
            assert forall|a: int, b: int| 0 <= a < b < unsealed(s).len() implies unsealed(s)[a].id
                < unsealed(s)[b].id by {
                if b == u.len() {
                    let i = choose|i: int| 0 <= i < t.len() && t[i] == #[trigger] u[a];
                    assert(s[i].id < s[s.len() - 1].id);
                }
            }
        }
    }
}

proof fn lemma_total_prefix(s: Seq<SegmentRecordModel>, n: int)
    requires
        0 <= n <= s.len(),
    ensures
        total_encoded_len(s.take(n)) <= total_encoded_len(s),
        total_encoded_len(s.take(n)) >= 0,
    decreases s.len(),
{
    if n < s.len() {
        assert(s.drop_last().take(n) =~= s.take(n));
        lemma_total_prefix(s.drop_last(), n);
    } else {
        assert(s.take(n) =~= s);
    }
    lemma_total_nonneg(s.take(n));
}

proof fn lemma_total_nonneg(s: Seq<SegmentRecordModel>)
    ensures
        total_encoded_len(s) >= 0,
    decreases s.len(),
{
    if s.len() > 0 {
        lemma_total_nonneg(s.drop_last());
    }
}

proof fn lemma_compacted_ok(v0: StoreView, v1: StoreView, fresh: Seq<u8>, ms: Seq<SegmentRecordModel>)
    requires
        store_ok(v0),
        ms.len() > 0 ==> v0.last_id < u64::MAX,
        v1.segments == compacted(v0, fresh, ms),
        v1.index == v0.index,
        v1.last_id == (if ms.len() > 0 {
            (v0.last_id + 1) as u64
        } else {
            v0.last_id
        }),
    ensures
        store_ok(v1),
{
    lemma_unsealed(v0.segments);
    let u = unsealed(v0.segments);
    let t = v1.segments;
    assert forall|j: int| 0 <= j < u.len() implies (#[trigger] u[j]).id <= v0.last_id by {
        let i = choose|i: int| 0 <= i < v0.segments.len() && v0.segments[i] == #[trigger] u[j];
    }
    assert(ids_increasing(t)) by {
        assert forall|a: int, b: int| 0 <= a < b < t.len() implies t[a].id < t[b].id by {
            if b == u.len() {
                assert(t[a] == u[a]);
            } else {
                assert(t[a] == u[a] && t[b] == u[b]);
            }
        }
    }
    assert forall|j: int| 0 <= j < t.len() implies (#[trigger] t[j]).id <= v1.last_id by {
        if j < u.len() {
            assert(t[j] == u[j]);
        }
    }
    assert(kept_from(v0.segments, t, v0.last_id)) by {
        assert forall|j: int| 0 <= j < t.len() && t[j].id <= v0.last_id implies exists|i: int|
            0 <= i < v0.segments.len() && v0.segments[i].id == (#[trigger] t[j]).id
                && v0.segments[i].data.is_prefix_of(t[j].data) by {
            assert(j < u.len());
            assert(t[j] == u[j]);
            let i = choose|i: int| 0 <= i < v0.segments.len() && v0.segments[i] == #[trigger] u[j];
            assert(v0.segments[i].data.subrange(0, v0.segments[i].data.len() as int) =~= t[j].data);
        }
    }
    lemma_index_kept(v0, v1);
}

/// A record that is the latest of its entity can be read back: the payload
/// seen for its entity is the one it carries, or none for a tombstone.
pub proof fn lemma_latest_record_visible(v: StoreView, r: SegmentRecordModel)
    requires
        lookup(v, seg_key(r)) == Some(r),
    ensures
        visible(v, seg_key(r)) == (if r.is_tombstone() {
            None
        } else {
            Some(r.payload)
        }),
{
}

/// The segment store.
pub struct SegmentManager<B: StorageBackend, F: BackendFactory<B>, L: SealListener> {
    factory: F,
    slots: Vec<SegmentSlot<B>>,
    active_segment_id: u64,
    last_segment_id: u64,
    max_segment_size: u64,
    index: Vec<(TxnKey, IndexEntry)>,
    listener: L,
}

impl<B: StorageBackend, F: BackendFactory<B>, L: SealListener> View for SegmentManager<B, F, L> {
    type V = StoreView;

    closed spec fn view(&self) -> StoreView {
        StoreView {
            segments: slots_view(self.slots@),
            active: self.active_segment_id,
            last_id: self.last_segment_id,
            max_segment_size: self.max_segment_size,
            index: keyed_map(self.index@, entry_view()),
        }
    }
}

/// The index entry of `k` points either to a segment that is gone or to a
/// record of `k` with the recorded sequence number.
pub open spec fn entry_ok(v: StoreView, k: EntityKey) -> bool {
    &&& v.index[k].0 <= v.last_id
    &&& seg_of(v.segments, v.index[k].0) matches Some(sv) ==> (record_at(
        sv.data,
        v.index[k].1 as int,
    ) matches Some(r) && seg_key(r) == k && r.sequence == v.index[k].2)
}

/// Invariant of the store's model.
pub open spec fn store_ok(v: StoreView) -> bool {
    &&& ids_increasing(v.segments)
    &&& forall|i: int| 0 <= i < v.segments.len() ==> v.segments[i].id <= v.last_id
    &&& forall|k: EntityKey| v.index.contains_key(k) ==> entry_ok(v, k)
}

/// In a store that meets its invariant, every indexed entity whose
/// segment is present reads back: the index points at a record of that
/// entity, so listing a collection (which fails only where a read fails)
/// succeeds, tombstones included.
pub proof fn law_indexed_records_read_back(v: StoreView, k: EntityKey)
    requires
        store_ok(v),
        v.index.contains_key(k),
        seg_of(v.segments, v.index[k].0) is Some,
    ensures
        lookup(v, k) matches Some(r) && seg_key(r) == k && r.sequence == v.index[k].2,
{
    assert(entry_ok(v, k));
}

impl<B: StorageBackend, F: BackendFactory<B>, L: SealListener> SegmentManager<B, F, L> {
    /// Well-formedness.
    pub closed spec fn wf(&self) -> bool {
        &&& store_ok(self@)
        &&& keys_unique(self.index@)
        &&& backends_valid(self.slots@)
    }

    /// Whether the factory creates, and every segment has, a backend that
    /// declares itself infallible.
    pub closed spec fn infallible(&self) -> bool {
        &&& self.factory.creates_infallible()
        &&& backends_infallible(self.slots@)
    }

    /// A well-formed store satisfies the invariant of its model.
    pub(crate) proof fn lemma_store_ok(&self)
        requires
            self.wf(),
        ensures
            store_ok(self@),
    {
    }

    /// Position of the slot with id `id`.
    fn slot_position(&self, id: u64) -> (r: Option<usize>)
        requires
            ids_increasing(self@.segments),
        ensures
            match r {
                Some(p) => p < self.slots@.len() && self.slots@[p as int].info.id == id && seg_of(
                    self@.segments,
                    id,
                ) == Some(self@.segments[p as int]),
                None => seg_of(self@.segments, id) is None,
            },
    {
        let mut i: usize = 0;
        while i < self.slots.len()
            invariant
                i <= self.slots@.len(),
                ids_increasing(self@.segments),
                forall|j: int| 0 <= j < i ==> self.slots@[j].info.id != id,
            decreases self.slots@.len() - i,
        {
            if self.slots[i].info.id == id {
                proof {
                    assert(self@.segments[i as int] == slot_view(self.slots@[i as int]));
                    lemma_seg_of_at(self@.segments, i as int);
                }
                return Some(i);
            }
            i = i + 1;
        }
        proof {
            assert forall|j: int| 0 <= j < self@.segments.len() implies self@.segments[j].id != id by {
                assert(self@.segments[j] == slot_view(self.slots@[j]));
            }
        }
        None
    }

    /// Returns the id of the segment receiving writes.
    pub fn active_segment_id(&self) -> (r: u64)
        ensures
            r == self@.active,
    {
        self.active_segment_id
    }

    /// Lists the segments by increasing id.
    pub fn list_segments(&self) -> (r: Vec<SegmentInfo>)
        ensures
            r@ == self@.segments.map_values(|s: SegmentView| info_of(s)),
    {
        let mut out: Vec<SegmentInfo> = Vec::new();
        let mut i: usize = 0;
        while i < self.slots.len()
            invariant
                i <= self.slots@.len(),
                out@ == self@.segments.take(i as int).map_values(|s: SegmentView| info_of(s)),
            decreases self.slots@.len() - i,
        {
            out.push(self.slots[i].info);
            proof {
                assert(self@.segments[i as int] == slot_view(self.slots@[i as int]));
                assert(out@ =~= self@.segments.take(i + 1).map_values(|s: SegmentView| info_of(s)));
            }
            i = i + 1;
        }
        assert(self@.segments.take(i as int) =~= self@.segments);
        out
    }

    /// The information of the segment with id `segment_id`.
    pub fn segment_info(&self, segment_id: u64) -> (r: Option<SegmentInfo>)
        requires
            self.wf(),
        ensures
            r == (match seg_of(self@.segments, segment_id) {
                Some(s) => Some(info_of(s)),
                None => None,
            }),
    {
        match self.slot_position(segment_id) {
            Some(p) => Some(self.slots[p].info),
            None => None,
        }
    }

    /// Whether writing `additional_bytes` more seals the active segment first.
    fn should_seal(&self, additional_bytes: usize) -> (r: bool)
        requires
            self.wf(),
        ensures
            r == needs_seal(self@, additional_bytes as int),
    {
        match self.slot_position(self.active_segment_id) {
            Some(p) => {
                let info = self.slots[p].info;
                !info.sealed && (info.size > self.max_segment_size || additional_bytes as u64
                    > self.max_segment_size - info.size)
            },
            None => false,
        }
    }

    /// Whether a record of `n` bytes can be appended: the active segment's
    /// counters do not overflow, and a fresh segment id is left if it must
    /// be sealed first.
    pub(crate) fn has_room(&self, n: usize) -> (r: bool)
        requires
            self.wf(),
        ensures
            r == (can_grow(self@, n as int) && (needs_seal(self@, n as int) ==> self@.last_id
                < u64::MAX)),
    {
        let seal = self.should_seal(n);
        if seal && self.last_segment_id == u64::MAX {
            return false;
        }
        match self.slot_position(self.active_segment_id) {
            Some(p) => {
                let info = self.slots[p].info;
                proof {
                    lemma_seg_of_at(self@.segments, p as int);
                    assert(self@.segments[p as int] == slot_view(self.slots@[p as int]));
                }
                n as u64 <= u64::MAX - info.size && info.record_count < usize::MAX
            },
            None => true,
        }
    }

    /// Reads the record at `offset` of a backend.
    fn read_from(backend: &B, offset: u64) -> (r: Result<SegmentRecord, CoreError>)
        requires
            backend.valid(),
        ensures
            match r {
                Ok(rec) => read_record(backend.contents(), offset as int) == Ok::<
                    SegmentRecordModel,
                    ReadFailure,
                >(rec@),
                Err(e) => e is Storage || (read_record(backend.contents(), offset as int) is Err
                    && read_error_matches(
                    read_record(backend.contents(), offset as int)->Err_0,
                    e,
                )),
            },
            backend.infallible() ==> !(r matches Err(e) && e is Storage),
    {
        let size = match backend.size() {
            Ok(n) => n,
            Err(e) => return Err(CoreError::Storage(e)),
        };
        if size < 4 || offset > size - 4 {
            return Err(CoreError::segment_corruption("offset beyond segment"));
        }
        let len_bytes = match backend.read_at(offset, 4) {
            Ok(b) => b,
            Err(e) => return Err(CoreError::Storage(e)),
        };
        let record_len = read_u32_le(len_bytes.as_slice(), 0) as usize;
        proof {
            assert(len_bytes@.subrange(0, 4) =~= len_bytes@);
        }
        if record_len as u64 > size - offset {
            return Err(CoreError::segment_corruption("record extends beyond segment"));
        }
        let data = match backend.read_at(offset, record_len) {
            Ok(b) => b,
            Err(e) => return Err(CoreError::Storage(e)),
        };
        SegmentRecord::decode(data.as_slice())
    }

    /// Reads the record at `offset` of the segment with id `segment_id`.
    pub fn read_at(&self, segment_id: u64, offset: u64) -> (r: Result<SegmentRecord, CoreError>)
        requires
            self.wf(),
        ensures
            match seg_of(self@.segments, segment_id) {
                None => r matches Err(e) && e matches CoreError::SegmentCorruption(m) && m@
                    == "segment not found"@,
                Some(sv) => match r {
                    Ok(rec) => read_record(sv.data, offset as int) == Ok::<
                        SegmentRecordModel,
                        ReadFailure,
                    >(rec@),
                    Err(e) => e is Storage || (read_record(sv.data, offset as int) is Err
                        && read_error_matches(read_record(sv.data, offset as int)->Err_0, e)),
                },
            },
            self.infallible() ==> !(r matches Err(e) && e is Storage),
    {
        match self.slot_position(segment_id) {
            Some(p) => {
                proof {
                    assert(self@.segments[p as int] == slot_view(self.slots@[p as int]));
                    if self.infallible() {
                        assert(self.slots@[p as int].backend.infallible());
                    }
                }
                Self::read_from(&self.slots[p].backend, offset)
            },
            None => Err(CoreError::segment_corruption("segment not found")),
        }
    }

    /// Scans the records of a backend from its start: their offsets and the records.
    fn scan_backend(backend: &B) -> (r: Result<(Vec<u64>, Vec<SegmentRecord>), CoreError>)
        requires
            backend.valid(),
        ensures
            match r {
                Ok((offs, recs)) => backend.contents().len() <= u64::MAX && offs@.len()
                    == recs@.len() && scan_records(backend.contents(), 0) == Ok::<
                    Seq<(u64, SegmentRecordModel)>,
                    SegmentDecodeFailure,
                >(pairs(offs@, models(recs@))),
                Err(e) => e is Storage || (scan_records(backend.contents(), 0) is Err
                    && decode_error_matches(scan_records(backend.contents(), 0)->Err_0, e)),
            },
            backend.infallible() ==> !(r matches Err(e) && e is Storage),
    {
        let size = match backend.size() {
            Ok(n) => n,
            Err(e) => return Err(CoreError::Storage(e)),
        };
        let ghost d = backend.contents();
        let mut offs: Vec<u64> = Vec::new();
        let mut recs: Vec<SegmentRecord> = Vec::new();
        let mut offset: u64 = 0;
        proof {
            assert(pairs(offs@, models(recs@)) + Seq::<(u64, SegmentRecordModel)>::empty()
                =~= pairs(offs@, models(recs@)));
            lemma_after_empty(scan_records(d, 0));
        }
        loop
            invariant
                backend.valid(),
                d == backend.contents(),
                size == d.len(),
                offset <= size,
                offs@.len() == recs@.len(),
                scan_records(d, 0) == after(pairs(offs@, models(recs@)), scan_records(d, offset as int)),
                backend.infallible() ==> true,
            ensures
                d == backend.contents(),
                size == d.len(),
                offs@.len() == recs@.len(),
                scan_records(d, 0) == after(pairs(offs@, models(recs@)), scan_records(d, offset as int)),
                scan_records(d, offset as int) == Ok::<Seq<(u64, SegmentRecordModel)>, SegmentDecodeFailure>(Seq::empty()),
            decreases size - offset,
        {
            if size - offset < 4 {
                break;
            }
            let len_bytes = match backend.read_at(offset, 4) {
                Ok(b) => b,
                Err(e) => return Err(CoreError::Storage(e)),
            };
            let record_len = read_u32_le(len_bytes.as_slice(), 0) as usize;
            proof {
                assert(len_bytes@.subrange(0, 4) =~= len_bytes@);
                assert(record_len == le32_at(d, offset as int));
            }
            if record_len as u64 > size - offset {
                break;
            }
            let data = match backend.read_at(offset, record_len) {
                Ok(b) => b,
                Err(e) => return Err(CoreError::Storage(e)),
            };
            let record = match SegmentRecord::decode(data.as_slice()) {
                Ok(r) => r,
                Err(e) => return Err(e),
            };
            proof {
                let done = pairs(offs@, models(recs@));
                let x = (offset, record@);
                let rest = scan_records(d, offset + record_len);
                assert(scan_records(d, offset as int) == after(seq![x], rest));
                lemma_pairs_push(offs@, models(recs@), offset, record@);
                assert(models(recs@.push(record)) =~= models(recs@).push(record@));
                lemma_after_assoc(done, x, rest);
            }
            offs.push(offset);
            recs.push(record);
            offset = offset + record_len as u64;
        }
        Ok((offs, recs))
    }

    /// Reads all records of the segment with id `segment_id`, in order.
    pub fn scan_segment(&self, segment_id: u64) -> (r: Result<Vec<SegmentRecord>, CoreError>)
        requires
            self.wf(),
        ensures
            match seg_of(self@.segments, segment_id) {
                None => r matches Err(e) && e matches CoreError::SegmentCorruption(m) && m@
                    == "segment not found"@,
                Some(sv) => match r {
                    Ok(v) => scan_records(sv.data, 0) matches Ok(rs) && models(v@) == rs.map_values(
                        |e: (u64, SegmentRecordModel)| e.1,
                    ),
                    Err(e) => e is Storage || (scan_records(sv.data, 0) is Err && decode_error_matches(
                        scan_records(sv.data, 0)->Err_0,
                        e,
                    )),
                },
            },
    {
        match self.slot_position(segment_id) {
            Some(p) => {
                proof {
                    assert(self@.segments[p as int] == slot_view(self.slots@[p as int]));
                }
                let (offs, recs) = match Self::scan_backend(&self.slots[p].backend) {
                    Ok(x) => x,
                    Err(e) => return Err(e),
                };
                proof {
                    assert(pairs(offs@, models(recs@)).map_values(|e: (u64, SegmentRecordModel)| e.1)
                        =~= models(recs@));
                }
                Ok(recs)
            },
            None => Err(CoreError::segment_corruption("segment not found")),
        }
    }

    /// Reads all records of all segments, by increasing segment id.
    pub fn scan_all(&self) -> (r: Result<Vec<SegmentRecord>, CoreError>)
        requires
            self.wf(),
        ensures
            match r {
                Ok(v) => scan_all_spec(self@.segments) matches Ok(es) && models(v@) == all_records(es),
                Err(e) => e is Storage || (scan_all_spec(self@.segments) is Err && decode_error_matches(
                    scan_all_spec(self@.segments)->Err_0,
                    e,
                )),
            },
            self.infallible() ==> !(r matches Err(e) && e is Storage),
    {
        let mut all: Vec<SegmentRecord> = Vec::new();
        let mut i: usize = 0;
        while i < self.slots.len()
            invariant
                self.wf(),
                i <= self.slots@.len(),
                scan_all_spec(self@.segments.take(i as int)) matches Ok(es) && models(all@)
                    == all_records(es),
            decreases self.slots@.len() - i,
        {
            proof {
                let segs = self@.segments;
                assert(segs.take(i + 1).drop_last() =~= segs.take(i as int));
                assert(segs.take(i + 1).last() == segs[i as int]);
                assert(segs[i as int] == slot_view(self.slots@[i as int]));
            }
            let (offs, mut recs) = match Self::scan_backend(&self.slots[i].backend) {
                Ok(x) => x,
                Err(e) => {
                    proof {
                        if !(e is Storage) {
                            lemma_scan_all_err_prefix(self@.segments, i + 1);
                        }
                    }
                    return Err(e);
                },
            };
            proof {
                let segs = self@.segments;
                let es = scan_all_spec(segs.take(i as int))->Ok_0;
                let rs = pairs(offs@, models(recs@));
                assert(all_records(es + tag_records(segs[i as int].id, rs)) =~= models(all@) + models(
                    recs@,
                ));
            }
            let ghost before = all@;
            let ghost added = recs@;
            all.append(&mut recs);
            proof {
                assert(models(all@) =~= models(before) + models(added));
            }
            i = i + 1;
        }
        assert(self@.segments.take(i as int) =~= self@.segments);
        Ok(all)
    }

    /// Rebuilds the index from the records of all segments: for each entity,
    /// the first of its records with the highest sequence number.
    pub fn rebuild_index(&mut self) -> (r: Result<(), CoreError>)
        requires
            old(self).wf(),
        ensures
            final(self).wf(),
            final(self)@.segments == old(self)@.segments,
            final(self)@.active == old(self)@.active,
            final(self)@.last_id == old(self)@.last_id,
            final(self)@.max_segment_size == old(self)@.max_segment_size,
            r is Ok ==> (scan_all_spec(old(self)@.segments) matches Ok(es) && final(self)@.index
                == index_fold(es)),
            r matches Err(e) ==> final(self)@ == old(self)@ && (e is Storage || (scan_all_spec(
                old(self)@.segments,
            ) is Err && decode_error_matches(scan_all_spec(old(self)@.segments)->Err_0, e))),
            final(self).infallible() == old(self).infallible(),
            old(self).infallible() ==> (r is Ok <==> scan_all_spec(old(self)@.segments) is Ok),
            old(self).infallible() ==> !(r matches Err(e) && e is Storage),
    {
        let mut new_index: Vec<(TxnKey, IndexEntry)> = Vec::new();
        let mut i: usize = 0;
        proof {
            assert(self@.segments.take(0) =~= Seq::<SegmentView>::empty());
            assert(keyed_map(new_index@, entry_view()) =~= Map::<EntityKey, (u64, u64, u64)>::empty());
        }
        while i < self.slots.len()
            invariant
                i <= self.slots@.len(),
                self.wf(),
                self.infallible() == old(self).infallible(),
                self.slots == old(self).slots,
                keys_unique(new_index@),
                scan_all_spec(self@.segments.take(i as int)) matches Ok(es) && keyed_map(
                    new_index@,
                    entry_view(),
                ) == index_fold(es),
                forall|j: int| 0 <= j < i ==> (#[trigger] self@.segments[j]).data.len() <= u64::MAX,
            decreases self.slots@.len() - i,
        {
            let seg_id = self.slots[i].info.id;
            proof {
                let segs = self@.segments;
                assert(segs.take(i + 1).drop_last() =~= segs.take(i as int));
                assert(segs.take(i + 1).last() == segs[i as int]);
                assert(segs[i as int] == slot_view(self.slots@[i as int]));
            }
            let (offs, recs) = match Self::scan_backend(&self.slots[i].backend) {
                Ok(x) => x,
                Err(e) => {
                    proof {
                        if !(e is Storage) {
                            lemma_scan_all_err_prefix(self@.segments, i + 1);
                        }
                    }
                    return Err(e);
                },
            };
            let ghost es0 = scan_all_spec(self@.segments.take(i as int))->Ok_0;
            let ghost rs = pairs(offs@, models(recs@));
            let mut j: usize = 0;
            proof {
                assert(rs.take(0) =~= Seq::<(u64, SegmentRecordModel)>::empty());
                assert(es0 + tag_records(seg_id, rs.take(0)) =~= es0);
            }
            while j < recs.len()
                invariant
                    j <= recs@.len(),
                    offs@.len() == recs@.len(),
                    rs == pairs(offs@, models(recs@)),
                    keys_unique(new_index@),
                    keyed_map(new_index@, entry_view()) == index_fold(
                        es0 + tag_records(seg_id, rs.take(j as int)),
                    ),
                decreases recs@.len() - j,
            {
                let key: TxnKey = (recs[j].collection_id, EntityId(recs[j].entity_id));
                let seq = recs[j].sequence;
                let ghost e = (seg_id, offs@[j as int], recs@[j as int]@);
                let ghost before = es0 + tag_records(seg_id, rs.take(j as int));
                proof {
                    assert(tag_records(seg_id, rs.take(j + 1)) =~= tag_records(
                        seg_id,
                        rs.take(j as int),
                    ).push(e));
                    assert(before.push(e) =~= es0 + tag_records(seg_id, rs.take(j + 1)));
                    assert(before.push(e).drop_last() =~= before);
                    assert(key_of(key) == seg_key(e.2));
                }
                let update = match find_key(&new_index, &key) {
                    Some(p) => {
                        proof {
                            lemma_keyed_lookup(new_index@, entry_view(), p as int);
                        }
                        seq.0 > new_index[p].1.sequence.0
                    },
                    None => {
                        proof {
                            lemma_keyed_absent(new_index@, entry_view(), key_of(key));
                        }
                        true
                    },
                };
                if update {
                    set_entry::<IndexEntry, (u64, u64, u64)>(
                        &mut new_index,
                        key,
                        IndexEntry { segment_id: seg_id, offset: offs[j], sequence: seq },
                        Ghost(entry_view()),
                    );
                }
                j = j + 1;
            }
            proof {
                assert(rs.take(recs@.len() as int) =~= rs);
            }
            i = i + 1;
        }
        proof {
            assert(self@.segments.take(i as int) =~= self@.segments);
        }
        let ghost es = scan_all_spec(self@.segments)->Ok_0;
        self.index = new_index;
        proof {
            lemma_rebuilt_ok(self@, es);
        }
        Ok(())
    }

    /// Seals the active segment and opens a new one, with a fresh id, that
    /// becomes active; returns the new id.
    pub fn seal_and_rotate(&mut self) -> (r: Result<u64, CoreError>)
        requires
            old(self).wf(),
            old(self)@.last_id < u64::MAX,
        ensures
            final(self).wf(),
            r matches Ok(n) ==> n == old(self)@.last_id + 1 && exists|fresh: Seq<u8>|
                final(self)@ == rotated(old(self)@, fresh),
            r is Ok ==> final(self)@ == rotated(old(self)@, Seq::<u8>::empty()),
            r matches Err(e) ==> e is Storage && final(self)@ == sealed_active(old(self)@),
            old(self).infallible() ==> r is Ok && final(self).infallible(),
    {
        let ghost v0 = self@;
        let old_id = self.active_segment_id;
        let pos = self.slot_position(old_id);
        match pos {
            Some(p) => {
                let slot = &mut self.slots[p];
                slot.info.sealed = true;
            },
            None => {},
        }
        proof {
            if old(self).infallible() {
                assert forall|j: int| 0 <= j < self.slots@.len() implies (#[trigger] self.slots@[j]).backend.infallible() by {
                    assert(self.slots@[j].backend == old(self).slots@[j].backend);
                }
            }
        }
        let ghost inf0 = backends_infallible(self.slots@);
        proof {
            assert forall|j: int| 0 <= j < v0.segments.len() implies self@.segments[j]
                == mark_sealed(v0.segments, old_id)[j] by {
                assert(self@.segments[j] == slot_view(self.slots@[j]));
                assert(v0.segments[j] == slot_view(old(self).slots@[j]));
                if pos is Some && j != pos->Some_0 {
                    if j < pos->Some_0 {
                        assert(v0.segments[j].id < v0.segments[pos->Some_0 as int].id);
                    } else {
                        assert(v0.segments[j].id > v0.segments[pos->Some_0 as int].id);
                    }
                }
                if pos is None {
                    assert(v0.segments[j].id != old_id);
                }
            }
            assert(self@.segments =~= mark_sealed(v0.segments, old_id));
            assert(self@ == sealed_active(v0));
        }
        match pos {
            Some(p) => {
                let ghost sl0 = self.slots@;
                let slot = &mut self.slots[p];
                match slot.backend.flush() {
                    Ok(()) => {
                        proof {
                            if inf0 {
                                assert forall|j: int| 0 <= j < self.slots@.len() implies (#[trigger] self.slots@[j]).backend.infallible() by {
                                    if j != p {
                                        assert(self.slots@[j] == sl0[j]);
                                    }
                                }
                            }
                        }
                    },
                    Err(e) => {
                        proof {
                            assert(self@.segments =~= mark_sealed(v0.segments, old_id)) by {
                                assert forall|j: int| 0 <= j < v0.segments.len() implies self@.segments[j]
                                    == mark_sealed(v0.segments, old_id)[j] by {
                                    assert(self@.segments[j] == slot_view(self.slots@[j]));
                                }
                            }
                            lemma_sealed_active_ok(v0);
                        }
                        return Err(CoreError::Storage(e));
                    },
                }
            },
            None => {},
        }
        proof {
            assert forall|j: int| 0 <= j < v0.segments.len() implies self@.segments[j]
                == mark_sealed(v0.segments, old_id)[j] by {
                assert(self@.segments[j] == slot_view(self.slots@[j]));
            }
            assert(self@.segments =~= mark_sealed(v0.segments, old_id));
        }
        let new_id = self.last_segment_id + 1;
        let backend = self.factory.create(new_id);
        let ghost fresh = backend.contents();
        self.slots.push(
            SegmentSlot {
                info: SegmentInfo { id: new_id, sealed: false, size: 0, record_count: 0 },
                backend,
            },
        );
        self.active_segment_id = new_id;
        self.last_segment_id = new_id;
        self.listener.segment_sealed(old_id);
        proof {
            assert(self@.segments =~= rotated(v0, fresh).segments);
            lemma_rotated_ok(v0, fresh);
        }
        Ok(new_id)
    }

    /// Appends a record to the active segment, sealing it and opening a new
    /// one first when the record would make it exceed the maximum size.
    /// Returns the segment id and the offset where the record was written.
    pub fn append(&mut self, record: &SegmentRecord) -> (r: Result<(u64, u64), CoreError>)
        requires
            old(self).wf(),
            record@.encodable(),
            needs_seal(old(self)@, record@.encoded_len()) ==> old(self)@.last_id < u64::MAX,
            can_grow(old(self)@, record@.encoded_len()),
        ensures
            final(self).wf(),
            r matches Ok((sid, off)) ==> sid == final(self)@.active && lookup(
                final(self)@,
                seg_key(record@),
            ) == Some(record@) && exists|fresh: Seq<u8>|
                final(self)@ == written(pre_write(old(self)@, record@.encoded_len(), fresh), record@)
                    && off == seg_of(
                    pre_write(old(self)@, record@.encoded_len(), fresh).segments,
                    final(self)@.active,
                )->Some_0.data.len(),
            r is Ok ==> final(self)@ == written(
                pre_write(old(self)@, record@.encoded_len(), Seq::<u8>::empty()),
                record@,
            ),
            r is Ok ==> forall|k: EntityKey|
                k != seg_key(record@) ==> #[trigger] lookup(final(self)@, k) == lookup(old(self)@, k),
            r matches Err(e) ==> final(self)@.index == old(self)@.index && (e is Storage || (
            e is SegmentCorruption && seg_of(old(self)@.segments, old(self)@.active) is None)),
            old(self).infallible() ==> final(self).infallible() && !(r matches Err(e) && e is Storage),
    {
        let ghost v0 = self@;
        proof {
            lemma_segment_record_roundtrip(record@, Seq::empty());
        }
        let encoded = record.encode();
        let len = encoded.len();
        let mut rotated_now = false;
        if self.should_seal(len) {
            match self.seal_and_rotate() {
                Ok(_) => {},
                Err(e) => return Err(e),
            }
            rotated_now = true;
        }
        let ghost fresh = Seq::<u8>::empty();
        let ghost pre = self@;
        proof {
            if rotated_now {
                assert(pre == rotated(v0, fresh));
                lemma_rotated_ids(v0, fresh);
            }
        }
        let p = match self.slot_position(self.active_segment_id) {
            Some(p) => p,
            None => return Err(CoreError::segment_corruption("active segment not found")),
        };
        proof {
            assert(pre.segments[p as int] == slot_view(self.slots@[p as int]));
        }
        let offset = {
            let slot = &mut self.slots[p];
            match slot.backend.append(encoded.as_slice()) {
                Ok(o) => o,
                Err(e) => {
                    proof {
                        assert forall|j: int| 0 <= j < pre.segments.len() && j != p implies self@.segments[j]
                            == pre.segments[j] by {
                            assert(self@.segments[j] == slot_view(self.slots@[j]));
                        }
                        assert(self@.segments[p as int] == slot_view(self.slots@[p as int]));
                        lemma_grown_ok(pre, self@, p as int);
                    }
                    return Err(CoreError::Storage(e));
                },
            }
        };
        {
            let slot = &mut self.slots[p];
            slot.info.size = slot.info.size + len as u64;
            slot.info.record_count = slot.info.record_count + 1;
        }
        let key: TxnKey = (record.collection_id, EntityId(record.entity_id));
        let ghost mid = self@;
        proof {
            assert forall|j: int| 0 <= j < pre.segments.len() && j != p implies mid.segments[j]
                == pre.segments[j] by {
                assert(mid.segments[j] == slot_view(self.slots@[j]));
            }
            assert(mid.segments[p as int] == slot_view(self.slots@[p as int]));
            assert(pre.segments[p as int].data.is_prefix_of(mid.segments[p as int].data));
            lemma_grown_ok(pre, mid, p as int);
            assert(record@.entity_id.len() == 16);
        }
        set_entry::<IndexEntry, (u64, u64, u64)>(
            &mut self.index,
            key,
            IndexEntry { segment_id: self.active_segment_id, offset, sequence: record.sequence },
            Ghost(entry_view()),
        );
        proof {
            lemma_written_ok(pre, mid, self@, record@, p as int, offset);
            assert(len == record@.encoded_len());
            assert(pre == pre_write(v0, record@.encoded_len(), fresh));
            assert(self@ == written(pre_write(v0, record@.encoded_len(), fresh), record@)
                && offset == seg_of(
                pre_write(v0, record@.encoded_len(), fresh).segments,
                self@.active,
            )->Some_0.data.len());
            lemma_write_keeps_others(v0, record@.encoded_len(), fresh, record@);
        }
        Ok((self.active_segment_id, offset))
    }

    /// Appends a record and returns the offset where it was written.
    pub fn append_legacy(&mut self, record: &SegmentRecord) -> (r: Result<u64, CoreError>)
        requires
            old(self).wf(),
            record@.encodable(),
            needs_seal(old(self)@, record@.encoded_len()) ==> old(self)@.last_id < u64::MAX,
            can_grow(old(self)@, record@.encoded_len()),
        ensures
            final(self).wf(),
            r matches Ok(off) ==> lookup(final(self)@, seg_key(record@)) == Some(record@)
                && final(self)@.index[seg_key(record@)] == (final(self)@.active, off, record@.sequence),
            r matches Err(e) ==> final(self)@.index == old(self)@.index && (e is Storage || (
            e is SegmentCorruption && seg_of(old(self)@.segments, old(self)@.active) is None)),
            old(self).infallible() ==> final(self).infallible() && !(r matches Err(e) && e is Storage),
    {
        match self.append(record) {
            Ok((_sid, offset)) => Ok(offset),
            Err(e) => Err(e),
        }
    }

    /// Replaces the seal listener.
    pub fn on_segment_sealed<L2: SealListener>(self, callback: L2) -> (r: SegmentManager<B, F, L2>)
        ensures
            r@ == self@,
            self.wf() ==> r.wf(),
    {
        SegmentManager {
            factory: self.factory,
            slots: self.slots,
            active_segment_id: self.active_segment_id,
            last_segment_id: self.last_segment_id,
            max_segment_size: self.max_segment_size,
            index: self.index,
            listener: callback,
        }
    }

    /// Flushes every segment.
    pub fn flush(&mut self) -> (r: Result<(), CoreError>)
        requires
            old(self).wf(),
        ensures
            final(self).wf(),
            final(self)@ == old(self)@,
            r matches Err(e) ==> e is Storage,
            old(self).infallible() ==> r is Ok && final(self).infallible(),
    {
        let ghost v0 = self@;
        let mut i: usize = 0;
        while i < self.slots.len()
            invariant
                self.wf(),
                self@ == v0,
                v0 == old(self)@,
                self.index@ == old(self).index@,
                self.factory == old(self).factory,
                old(self).infallible() ==> self.infallible(),
            decreases self.slots@.len() - i,
        {
            let ghost before = self.slots@;
            let ghost inf0 = self.infallible();
            let res = {
                let slot = &mut self.slots[i];
                slot.backend.flush()
            };
            proof {
                if inf0 {
                    assert forall|j: int| 0 <= j < self.slots@.len() implies (#[trigger] self.slots@[j]).backend.infallible() by {
                        if j != i {
                            assert(self.slots@[j] == before[j]);
                        }
                    }
                }
            }
            proof {
                assert forall|j: int| 0 <= j < before.len() implies slot_view(self.slots@[j])
                    == slot_view(before[j]) by {}
                assert(slots_view(self.slots@) =~= slots_view(before));
            }
            match res {
                Ok(()) => {},
                Err(e) => return Err(CoreError::Storage(e)),
            }
            i = i + 1;
        }
        Ok(())
    }

    /// Makes every segment durable.
    pub fn sync(&mut self) -> (r: Result<(), CoreError>)
        requires
            old(self).wf(),
        ensures
            final(self).wf(),
            final(self)@ == old(self)@,
            r matches Err(e) ==> e is Storage,
            old(self).infallible() ==> r is Ok && final(self).infallible(),
    {
        let ghost v0 = self@;
        let mut i: usize = 0;
        while i < self.slots.len()
            invariant
                self.wf(),
                self@ == v0,
                v0 == old(self)@,
                self.index@ == old(self).index@,
                self.factory == old(self).factory,
                old(self).infallible() ==> self.infallible(),
            decreases self.slots@.len() - i,
        {
            let ghost before = self.slots@;
            let ghost inf0 = self.infallible();
            let res = {
                let slot = &mut self.slots[i];
                slot.backend.sync()
            };
            proof {
                if inf0 {
                    assert forall|j: int| 0 <= j < self.slots@.len() implies (#[trigger] self.slots@[j]).backend.infallible() by {
                        if j != i {
                            assert(self.slots@[j] == before[j]);
                        }
                    }
                }
            }
            proof {
                assert forall|j: int| 0 <= j < before.len() implies slot_view(self.slots@[j])
                    == slot_view(before[j]) by {}
                assert(slots_view(self.slots@) =~= slots_view(before));
            }
            match res {
                Ok(()) => {},
                Err(e) => return Err(CoreError::Storage(e)),
            }
            i = i + 1;
        }
        Ok(())
    }

    /// The sum of the sizes of all segments.
    pub fn total_size(&self) -> (r: Result<u64, CoreError>)
        requires
            sizes_total(self@.segments) <= u64::MAX,
        ensures
            r == Ok::<u64, CoreError>(sizes_total(self@.segments) as u64),
    {
        let mut total: u64 = 0;
        let mut i: usize = 0;
        while i < self.slots.len()
            invariant
                i <= self.slots@.len(),
                sizes_total(self@.segments) <= u64::MAX,
                total == sizes_total(self@.segments.take(i as int)),
            decreases self.slots@.len() - i,
        {
            proof {
                let segs = self@.segments;
                assert(segs.take(i + 1).drop_last() =~= segs.take(i as int));
                assert(segs[i as int] == slot_view(self.slots@[i as int]));
                lemma_sizes_total_prefix(segs, i + 1);
            }
            total = total + self.slots[i].info.size;
            i = i + 1;
        }
        assert(self@.segments.take(i as int) =~= self@.segments);
        Ok(total)
    }

    /// The size of the active segment's backend.
    pub fn size(&self) -> (r: Result<u64, CoreError>)
        requires
            self.wf(),
        ensures
            match seg_of(self@.segments, self@.active) {
                Some(sv) => match r {
                    Ok(n) => n == sv.data.len(),
                    Err(e) => e is Storage,
                },
                None => r == Ok::<u64, CoreError>(0),
            },
    {
        match self.slot_position(self.active_segment_id) {
            Some(p) => {
                proof {
                    assert(self@.segments[p as int] == slot_view(self.slots@[p as int]));
                }
                match self.slots[p].backend.size() {
                    Ok(n) => Ok(n),
                    Err(e) => Err(CoreError::Storage(e)),
                }
            },
            None => Ok(0),
        }
    }

    /// The number of entities in the index, tombstoned ones included.
    pub fn entity_count(&self) -> (r: usize)
        requires
            self.wf(),
        ensures
            r == self@.index.len(),
    {
        proof {
            lemma_keyed_len(self.index@, entry_view());
        }
        self.index.len()
    }

    /// Whether the index holds the entity (a tombstone counts).
    pub fn contains(&self, collection_id: CollectionId, entity_id: &[u8; 16]) -> (r: bool)
        requires
            self.wf(),
        ensures
            r == self@.index.contains_key((collection_id.0, entity_id@)),
    {
        let key: TxnKey = (collection_id, EntityId(*entity_id));
        match find_key(&self.index, &key) {
            Some(i) => {
                proof {
                    lemma_keyed_lookup(self.index@, entry_view(), i as int);
                }
                true
            },
            None => {
                proof {
                    lemma_keyed_absent(self.index@, entry_view(), key_of(key));
                }
                false
            },
        }
    }

    /// The number of sealed segments.
    pub fn sealed_segment_count(&self) -> (r: usize)
        ensures
            r == sealed_ids(self@.segments).len(),
    {
        let ids = self.sealed_segment_ids();
        ids.len()
    }

    /// The number of segments.
    pub fn segment_count(&self) -> (r: usize)
        ensures
            r == self@.segments.len(),
    {
        self.slots.len()
    }

    /// The ids of the sealed segments, by increasing id.
    pub fn sealed_segment_ids(&self) -> (r: Vec<u64>)
        ensures
            r@ == sealed_ids(self@.segments),
    {
        let mut out: Vec<u64> = Vec::new();
        let mut i: usize = 0;
        while i < self.slots.len()
            invariant
                i <= self.slots@.len(),
                out@ == sealed_ids(self@.segments.take(i as int)),
            decreases self.slots@.len() - i,
        {
            proof {
                let segs = self@.segments;
                assert(segs.take(i + 1).drop_last() =~= segs.take(i as int));
                assert(segs[i as int] == slot_view(self.slots@[i as int]));
            }
            if self.slots[i].info.sealed {
                out.push(self.slots[i].info.id);
            }
            i = i + 1;
        }
        assert(self@.segments.take(i as int) =~= self@.segments);
        out
    }

    /// The live entities of a collection, each entity id with its payload.
    pub fn iter_collection(&self, collection_id: CollectionId) -> (r: Result<
        Vec<([u8; 16], Vec<u8>)>,
        CoreError,
    >)
        requires
            self.wf(),
        ensures
            r matches Ok(v) ==> forall|i: int|
                0 <= i < v@.len() ==> visible(self@, (collection_id.0, (#[trigger] v@[i]).0@)) == Some(
                    v@[i].1@,
                ),
            r matches Ok(v) ==> forall|i: int, j: int|
                0 <= i < j < v@.len() ==> (#[trigger] v@[i]).0@ != (#[trigger] v@[j]).0@,
            r matches Ok(v) ==> forall|k: EntityKey|
                k.0 == collection_id.0 && (#[trigger] visible(self@, k)) is Some ==> exists|i: int|
                    0 <= i < v@.len() && (#[trigger] v@[i]).0@ == k.1,
            r matches Err(e) ==> e is Storage || e is SegmentCorruption,
            self.infallible() ==> (r is Ok <==> forall|k: EntityKey|
                #![trigger self@.index.contains_key(k)]
                self@.index.contains_key(k) && k.0 == collection_id.0 ==> lookup(self@, k) is Some),
    {
        let mut out: Vec<([u8; 16], Vec<u8>)> = Vec::new();
        let mut pos: usize = 0;
        while pos < self.index.len()
            invariant
                self.wf(),
                pos <= self.index@.len(),
                forall|i: int|
                    0 <= i < out@.len() ==> visible(self@, (collection_id.0, (#[trigger] out@[i]).0@))
                        == Some(out@[i].1@),
                forall|i: int, j: int|
                    0 <= i < j < out@.len() ==> (#[trigger] out@[i]).0@ != (#[trigger] out@[j]).0@,
                forall|i: int|
                    0 <= i < out@.len() ==> exists|q: int|
                        0 <= q < pos && key_of(self.index@[q].0) == (collection_id.0, (
                        #[trigger] out@[i]).0@),
                forall|q: int|
                    0 <= q < pos && key_of(self.index@[q].0).0 == collection_id.0 && (#[trigger] visible(
                        self@,
                        key_of(self.index@[q].0),
                    )) is Some ==> exists|i: int|
                        0 <= i < out@.len() && (#[trigger] out@[i]).0@ == key_of(self.index@[q].0).1,
                forall|q: int|
                    0 <= q < pos && key_of(self.index@[q].0).0 == collection_id.0 ==> lookup(
                        self@,
                        #[trigger] key_of(self.index@[q].0),
                    ) is Some,
            decreases self.index@.len() - pos,
        {
            let key = self.index[pos].0;
            let entry = self.index[pos].1;
            let ghost k = key_of(key);
            let ghost out0 = out@;
            proof {
                lemma_keyed_lookup(self.index@, entry_view(), pos as int);
                assert(entry_ok(self@, k));
            }
            if key.0.0 == collection_id.0 {
                let record = match self.read_at(entry.segment_id, entry.offset) {
                    Ok(rec) => rec,
                    Err(e) => {
                        proof {
                            assert(self@.index[k] == (entry.segment_id, entry.offset, entry.sequence.0));
                            assert(self@.index.contains_key(k) && k.0 == collection_id.0);
                            if self.infallible() {
                                assert(lookup(self@, k) is None);
                            }
                        }
                        return Err(e);
                    },
                };
                proof {
                    assert(self@.index[k] == (entry.segment_id, entry.offset, entry.sequence.0));
                    assert(lookup(self@, k) is Some);
                }
                if !record.is_tombstone() {
                    proof {
                        assert forall|i: int| 0 <= i < out@.len() implies (#[trigger] out@[i]).0@ != key.1.0@ by {
                            let q = choose|q: int|
                                0 <= q < pos && key_of(self.index@[q].0) == (collection_id.0, (
                                #[trigger] out@[i]).0@);
                            assert(key_of(self.index@[q].0) != key_of(self.index@[pos as int].0));
                        }
                    }
                    out.push((key.1.0, record.payload));
                }
            }
            proof {
                assert forall|q: int|
                    0 <= q < pos + 1 && key_of(self.index@[q].0).0 == collection_id.0 && (#[trigger] visible(
                        self@,
                        key_of(self.index@[q].0),
                    )) is Some implies exists|i: int|
                        0 <= i < out@.len() && (#[trigger] out@[i]).0@ == key_of(self.index@[q].0).1 by {
                    if q < pos {
                        let i = choose|i: int|
                            0 <= i < out0.len() && (#[trigger] out0[i]).0@ == key_of(self.index@[q].0).1;
                        assert(out@[i] == out0[i]);
                    } else {
                        assert(out@[out@.len() - 1].0@ == key_of(self.index@[q].0).1);
                    }
                }
                assert forall|i: int| 0 <= i < out@.len() implies exists|q: int|
                    0 <= q < pos + 1 && key_of(self.index@[q].0) == (collection_id.0, (
                    #[trigger] out@[i]).0@) by {
                    if i < out0.len() {
                        assert(out@[i] == out0[i]);
                        let q = choose|q: int|
                            0 <= q < pos && key_of(self.index@[q].0) == (collection_id.0, (
                            #[trigger] out0[i]).0@);
                    } else {
                        assert(key_of(self.index@[pos as int].0) == (collection_id.0, out@[i].0@));
                    }
                }
            }
            pos = pos + 1;
        }
        proof {
            assert forall|k: EntityKey| k.0 == collection_id.0 && (#[trigger] visible(self@, k)) is Some implies exists|i: int|
                0 <= i < out@.len() && (#[trigger] out@[i]).0@ == k.1 by {
                if forall|q: int| 0 <= q < self.index@.len() ==> key_of(self.index@[q].0) != k {
                    lemma_keyed_absent(self.index@, entry_view(), k);
                }
                let q = choose|q: int| 0 <= q < self.index@.len() && key_of(self.index@[q].0) == k;
                assert(key_of(self.index@[q].0).0 == collection_id.0);
                assert(visible(self@, key_of(self.index@[q].0)) is Some);
            }
            assert forall|k: EntityKey| self@.index.contains_key(k) && k.0 == collection_id.0 implies lookup(
                self@,
                k,
            ) is Some by {
                if forall|q: int| 0 <= q < self.index@.len() ==> key_of(self.index@[q].0) != k {
                    lemma_keyed_absent(self.index@, entry_view(), k);
                }
                let q = choose|q: int| 0 <= q < self.index@.len() && key_of(self.index@[q].0) == k;
                assert(key_of(self.index@[q].0).0 == collection_id.0);
            }
        }
        Ok(out)
    }

    /// Writes `records` to a new backend for the segment with id `id`;
    /// returns the backend and the number of bytes written.
    fn build_segment(&self, id: u64, records: &Vec<SegmentRecord>) -> (r: Result<(B, u64), CoreError>)
        requires
            forall|i: int| 0 <= i < records@.len() ==> (#[trigger] records@[i])@.encodable(),
            total_encoded_len(models(records@)) <= u64::MAX,
        ensures
            r matches Ok((b, total)) ==> b.valid(),
            r matches Ok((b, total)) ==> total == total_encoded_len(models(records@)) && b.contents()
                == spec_encode_all(models(records@)),
            r matches Err(e) ==> e is Storage,
            self.factory.creates_infallible() ==> r is Ok && (r matches Ok((b, total)) && b.infallible()),
    {
        let n = records.len();
        let ghost ms = models(records@);
        let mut backend = self.factory.create(id);
        let ghost fresh = backend.contents();
        proof {
            assert(ms.take(0) =~= Seq::<SegmentRecordModel>::empty());
            assert(fresh + spec_encode_all(ms.take(0)) =~= fresh);
        }
        let mut total: u64 = 0;
        let mut i: usize = 0;
        while i < n
            invariant
                i <= n,
                n == records@.len(),
                ms == models(records@),
                backend.valid(),
                backend.contents() == fresh + spec_encode_all(ms.take(i as int)),
                total == total_encoded_len(ms.take(i as int)),
                total_encoded_len(ms) <= u64::MAX,
                forall|j: int| 0 <= j < records@.len() ==> (#[trigger] records@[j])@.encodable(),
                self.factory.creates_infallible() ==> backend.infallible(),
            decreases n - i,
        {
            proof {
                assert(ms.take(i + 1).drop_last() =~= ms.take(i as int));
                assert(ms.take(i + 1).last() == records@[i as int]@);
                lemma_total_prefix(ms, i + 1);
                lemma_segment_record_roundtrip(records@[i as int]@, Seq::empty());
            }
            let enc = records[i].encode();
            total = total + enc.len() as u64;
            match backend.append(enc.as_slice()) {
                Ok(_) => {},
                Err(e) => return Err(CoreError::Storage(e)),
            }
            proof {
                assert(fresh + spec_encode_all(ms.take(i + 1)) =~= (fresh + spec_encode_all(
                    ms.take(i as int),
                )) + enc@);
            }
            i = i + 1;
        }
        match backend.sync() {
            Ok(()) => {},
            Err(e) => return Err(CoreError::Storage(e)),
        }
        proof {
            assert(ms.take(n as int) =~= ms);
            assert(fresh + spec_encode_all(ms) =~= spec_encode_all(ms));
        }
        Ok((backend, total))
    }

    /// Keeps the unsealed segments, in order.
    fn drop_sealed(slots: Vec<SegmentSlot<B>>) -> (r: Vec<SegmentSlot<B>>)
        requires
            backends_valid(slots@),
        ensures
            slots_view(r@) == unsealed(slots_view(slots@)),
            backends_valid(r@),
            backends_infallible(slots@) ==> backends_infallible(r@),
    {
        let mut old_slots = slots;
        let ghost orig = old_slots@;
        let mut kept: Vec<SegmentSlot<B>> = Vec::new();
        proof {
            assert(slots_view(orig).take(0) =~= Seq::<SegmentView>::empty());
            assert(slots_view(kept@) =~= Seq::<SegmentView>::empty());
            assert(orig.subrange(0, orig.len() as int) =~= orig);
        }
        while old_slots.len() > 0
            invariant
                backends_valid(orig),
                backends_valid(kept@),
                backends_infallible(orig) ==> backends_infallible(kept@),
                old_slots@.len() <= orig.len(),
                old_slots@ == orig.subrange(orig.len() - old_slots@.len(), orig.len() as int),
                slots_view(kept@) == unsealed(slots_view(orig).take(orig.len() - old_slots@.len())),
            decreases old_slots@.len(),
        {
            let ghost i = orig.len() - old_slots@.len();
            let slot = old_slots.remove(0);
            proof {
                assert(slot == orig[i]);
                assert(old_slots@ =~= orig.subrange(i + 1, orig.len() as int));
                let sv = slots_view(orig);
                assert(sv.take(i + 1).drop_last() =~= sv.take(i));
                assert(sv.take(i + 1).last() == slot_view(slot));
            }
            let ghost kept_before = kept@;
            if !slot.info.sealed {
                kept.push(slot);
                proof {
                    assert(slots_view(kept@) =~= slots_view(kept_before).push(slot_view(slot)));
                    assert(orig[i].backend.valid());
                    assert(forall|j: int| 0 <= j < kept@.len() - 1 ==> kept@[j] == kept_before[j]);
                }
            }
        }
        proof {
            assert(slots_view(orig).take(orig.len() as int) =~= slots_view(orig));
        }
        kept
    }

    /// Replaces every sealed segment by one new sealed segment, with a fresh
    /// id, holding `compacted_records`, then rebuilds the index. Returns the
    /// ids of the removed segments and the id of the new one (none when there
    /// are no records). Nothing changes when there is neither a sealed segment
    /// nor a record.
    pub fn replace_sealed_with_compacted(&mut self, compacted_records: Vec<SegmentRecord>) -> (r:
        Result<(Vec<u64>, Option<u64>), CoreError>)
        requires
            old(self).wf(),
            forall|i: int|
                0 <= i < compacted_records@.len() ==> (#[trigger] compacted_records@[i])@.encodable(),
            total_encoded_len(models(compacted_records@)) <= u64::MAX,
            compacted_records@.len() > 0 ==> old(self)@.last_id < u64::MAX,
        ensures
            final(self).wf(),
            final(self)@.active == old(self)@.active,
            r matches Ok((removed, created)) ==> removed@ == sealed_ids(old(self)@.segments),
            r matches Ok((removed, created)) ==> created == (if compacted_records@.len() > 0 {
                Some((old(self)@.last_id + 1) as u64)
            } else {
                None::<u64>
            }),
            r matches Ok((removed, created)) ==> (removed@.len() == 0 && compacted_records@.len() == 0
                ==> final(self)@ == old(self)@),
            r matches Ok((removed, created)) ==> (removed@.len() > 0 || compacted_records@.len() > 0
                ==> final(self)@.segments == compacted(old(self)@, Seq::<u8>::empty(), models(compacted_records@))
                && (scan_all_spec(final(self)@.segments) matches Ok(es) && final(self)@.index
                == index_fold(es))),
            r matches Err(e) ==> e is Storage || e is SegmentCorruption || e is ChecksumMismatch,
            old(self).infallible() ==> final(self).infallible() && !(r matches Err(e) && e is Storage),
    {
        let ghost v0 = self@;
        let ghost ms = models(compacted_records@);
        let sealed = self.sealed_segment_ids();
        if sealed.len() == 0 && compacted_records.len() == 0 {
            return Ok((sealed, None));
        }
        let mut new_slot: Option<SegmentSlot<B>> = None;
        let mut created: Option<u64> = None;
        if compacted_records.len() > 0 {
            let new_id = self.last_segment_id + 1;
            let (backend, total) = match self.build_segment(new_id, &compacted_records) {
                Ok(x) => x,
                Err(e) => return Err(e),
            };
            new_slot = Some(
                SegmentSlot {
                    info: SegmentInfo {
                        id: new_id,
                        sealed: true,
                        size: total,
                        record_count: compacted_records.len(),
                    },
                    backend,
                },
            );
            created = Some(new_id);
        }
        let ghost fresh: Seq<u8> = Seq::empty();
        proof {
            if compacted_records@.len() > 0 {
                assert(new_slot->Some_0.backend.contents() =~= fresh + spec_encode_all(ms));
            }
        }
        let mut old_slots: Vec<SegmentSlot<B>> = Vec::new();
        std::mem::swap(&mut old_slots, &mut self.slots);
        let mut kept = Self::drop_sealed(old_slots);
        let ghost kept0 = kept@;
        match new_slot {
            Some(ns) => {
                self.last_segment_id = self.last_segment_id + 1;
                kept.push(ns);
            },
            None => {},
        }
        proof {
            if old(self).infallible() {
                assert forall|j: int| 0 <= j < kept@.len() implies (#[trigger] kept@[j]).backend.infallible() by {
                    if j < kept0.len() {
                        assert(kept@[j] == kept0[j]);
                    }
                }
            }
        }
        self.slots = kept;
        proof {
            assert(self@.segments =~= compacted(v0, fresh, ms));
            lemma_compacted_ok(v0, self@, fresh, ms);
        }
        match self.rebuild_index() {
            Ok(()) => {},
            Err(e) => return Err(e),
        }
        Ok((sealed, created))
    }

    /// Gets the payload of an entity: `None` when it has no record or its
    /// latest record is a tombstone.
    pub fn get(&self, collection_id: CollectionId, entity_id: &[u8; 16]) -> (r: Result<
        Option<Vec<u8>>,
        CoreError,
    >)
        requires
            self.wf(),
        ensures
            !self@.index.contains_key((collection_id.0, entity_id@)) ==> r matches Ok(None),
            r matches Ok(v) ==> opt_bytes(v) == visible(self@, (collection_id.0, entity_id@)),
            r matches Err(e) ==> self@.index.contains_key((collection_id.0, entity_id@)) && (
            e is Storage || (e is SegmentCorruption && lookup(self@, (collection_id.0, entity_id@))
                is None)),
            self.infallible() ==> (r is Ok <==> (!self@.index.contains_key((collection_id.0, entity_id@))
                || lookup(self@, (collection_id.0, entity_id@)) is Some)),
    {
        let key: TxnKey = (collection_id, EntityId(*entity_id));
        let ghost k = (collection_id.0, entity_id@);
        assert(key_of(key) == k);
        match find_key(&self.index, &key) {
            None => {
                proof {
                    lemma_keyed_absent(self.index@, entry_view(), k);
                }
                Ok(None)
            },
            Some(i) => {
                let entry = self.index[i].1;
                proof {
                    lemma_keyed_lookup(self.index@, entry_view(), i as int);
                    assert(self@.index[k] == (entry.segment_id, entry.offset, entry.sequence.0));
                    assert(entry_ok(self@, k));
                }
                let record = match self.read_at(entry.segment_id, entry.offset) {
                    Ok(rec) => rec,
                    Err(e) => return Err(e),
                };
                if record.is_tombstone() {
                    Ok(None)
                } else {
                    Ok(Some(record.payload))
                }
            },
        }
    }
}

impl<B: StorageBackend, F: BackendFactory<B>, L: SealListener> SegmentManager<B, F, L> {
    /// Gets the payload of an entity as a reader at `snapshot` sees it: of
    /// its records with a sequence number not above the snapshot, the latest,
    /// unless that is a tombstone. Without a snapshot, the latest record.
    pub fn get_at_snapshot(
        &self,
        collection_id: CollectionId,
        entity_id: &[u8; 16],
        snapshot: Option<SequenceNumber>,
    ) -> (r: Result<Option<Vec<u8>>, CoreError>)
        requires
            self.wf(),
        ensures
            snapshot is None && !self@.index.contains_key((collection_id.0, entity_id@)) ==> r matches Ok(
                None,
            ),
            snapshot is None ==> match r {
                Ok(v) => opt_bytes(v) == visible(self@, (collection_id.0, entity_id@)),
                Err(e) => self@.index.contains_key((collection_id.0, entity_id@)) && (e is Storage || (
                e is SegmentCorruption && lookup(self@, (collection_id.0, entity_id@)) is None)),
            },
            snapshot matches Some(s) ==> match r {
                Ok(v) => scan_all_spec(self@.segments) matches Ok(es) && opt_bytes(v) == payload_of(
                    latest_at(all_records(es), (collection_id.0, entity_id@), s.0),
                ),
                Err(e) => e is Storage || (scan_all_spec(self@.segments) is Err && decode_error_matches(
                    scan_all_spec(self@.segments)->Err_0,
                    e,
                )),
            },
            self.infallible() && snapshot is None ==> (r is Ok <==> (!self@.index.contains_key(
                (collection_id.0, entity_id@),
            ) || lookup(self@, (collection_id.0, entity_id@)) is Some)),
            self.infallible() && snapshot is Some ==> (r is Ok <==> scan_all_spec(self@.segments) is Ok),
    {
        let snap = match snapshot {
            None => return self.get(collection_id, entity_id),
            Some(s) => s,
        };
        let records = self.scan_all()?;
        let ghost rs = models(records@);
        let ghost k = (collection_id.0, entity_id@);
        let key: TxnKey = (collection_id, EntityId(*entity_id));
        assert(key_of(key) == k);
        let mut best: Option<usize> = None;
        let mut i: usize = 0;
        while i < records.len()
            invariant
                i <= records@.len(),
                rs == models(records@),
                rs.len() == records@.len(),
                key_of(key) == k,
                match best {
                    Some(b) => b < i && latest_at(rs.take(i as int), k, snap.0) == Some(rs[b as int]),
                    None => latest_at(rs.take(i as int), k, snap.0) is None,
                },
            decreases records@.len() - i,
        {
            let rec = &records[i];
            assert(rs.take(i + 1).drop_last() =~= rs.take(i as int));
            assert(rs[i as int] == rec@);
            let rkey: TxnKey = (rec.collection_id, EntityId(rec.entity_id));
            assert(key_of(rkey) == seg_key(rec@));
            if same_key(&rkey, &key) && rec.sequence.0 <= snap.0 {
                let better = match best {
                    None => true,
                    Some(b) => records[b].sequence.0 < rec.sequence.0,
                };
                if better {
                    best = Some(i);
                }
            }
            i = i + 1;
        }
        assert(rs.take(i as int) =~= rs);
        match best {
            Some(b) => {
                if records[b].is_tombstone() {
                    Ok(None)
                } else {
                    Ok(Some(records[b].payload.clone()))
                }
            },
            None => Ok(None),
        }
    }
}

impl<B: StorageBackend, F: BackendFactory<B>> SegmentManager<B, F, NoListener> {
    /// Creates a store whose first segment, with id 1, gets its backend from
    /// the factory.
    pub fn with_factory(backend_factory: F, max_segment_size: u64) -> (r: Self)
        ensures
            r.wf(),
            fresh_store(r@, max_segment_size),
            backend_factory.creates_infallible() ==> r.infallible(),
    {
        let backend = backend_factory.create(1);
        let size = match backend.size() {
            Ok(n) => n,
            Err(_) => 0,
        };
        let mut slots: Vec<SegmentSlot<B>> = Vec::new();
        slots.push(
            SegmentSlot { info: SegmentInfo { id: 1, sealed: false, size, record_count: 0 }, backend },
        );
        let r = SegmentManager {
            factory: backend_factory,
            slots,
            active_segment_id: 1,
            last_segment_id: 1,
            max_segment_size,
            index: Vec::new(),
            listener: NoListener,
        };
        proof {
            assert(r@.index =~= Map::<EntityKey, (u64, u64, u64)>::empty());
            assert(r@.segments[0] == slot_view(r.slots@[0]));
        }
        r
    }

    /// Creates a store over existing segments, given by increasing ids: all
    /// but the last are sealed, and the last one receives writes. Without
    /// existing segments, this is `with_factory`.
    pub fn with_factory_and_existing(
        backend_factory: F,
        max_segment_size: u64,
        existing_segment_ids: Vec<u64>,
    ) -> (r: Self)
        requires
            forall|i: int, j: int|
                0 <= i < j < existing_segment_ids@.len() ==> existing_segment_ids@[i]
                    < existing_segment_ids@[j],
        ensures
            r.wf(),
            existing_segment_ids@.len() == 0 ==> fresh_store(r@, max_segment_size),
            existing_segment_ids@.len() > 0 ==> r@.segments.len() == existing_segment_ids@.len()
                && r@.active == existing_segment_ids@.last() && r@.last_id
                == existing_segment_ids@.last() && r@.max_segment_size == max_segment_size
                && r@.index == Map::<EntityKey, (u64, u64, u64)>::empty() && forall|i: int|
                0 <= i < r@.segments.len() ==> loaded(
                    #[trigger] r@.segments[i],
                    existing_segment_ids@[i],
                    i < r@.segments.len() - 1,
                ),
    {
        let n = existing_segment_ids.len();
        if n == 0 {
            return Self::with_factory(backend_factory, max_segment_size);
        }
        let last = existing_segment_ids[n - 1];
        let mut slots: Vec<SegmentSlot<B>> = Vec::new();
        let mut i: usize = 0;
        while i < n
            invariant
                n == existing_segment_ids@.len(),
                n > 0,
                i <= n,
                slots@.len() == i,
                backends_valid(slots@),
                forall|j: int|
                    0 <= j < i ==> loaded(
                        slot_view(#[trigger] slots@[j]),
                        existing_segment_ids@[j],
                        j < n - 1,
                    ),
            decreases n - i,
        {
            let id = existing_segment_ids[i];
            let backend = backend_factory.create(id);
            let size = match backend.size() {
                Ok(s) => s,
                Err(_) => 0,
            };
            slots.push(
                SegmentSlot {
                    info: SegmentInfo { id, sealed: i + 1 < n, size, record_count: 0 },
                    backend,
                },
            );
            i = i + 1;
        }
        let r = SegmentManager {
            factory: backend_factory,
            slots,
            active_segment_id: last,
            last_segment_id: last,
            max_segment_size,
            index: Vec::new(),
            listener: NoListener,
        };
        proof {
            assert(r@.index =~= Map::<EntityKey, (u64, u64, u64)>::empty());
            assert forall|a: int| 0 <= a < r@.segments.len() implies loaded(
                #[trigger] r@.segments[a],
                existing_segment_ids@[a],
                a < r@.segments.len() - 1,
            ) by {
                assert(r@.segments[a] == slot_view(r.slots@[a]));
            }
            assert forall|a: int, b: int| 0 <= a < b < r@.segments.len() implies r@.segments[a].id
                < r@.segments[b].id by {
                assert(loaded(r@.segments[a], existing_segment_ids@[a], a < n - 1));
                assert(loaded(r@.segments[b], existing_segment_ids@[b], b < n - 1));
            }
            assert forall|a: int| 0 <= a < r@.segments.len() implies r@.segments[a].id <= r@.last_id by {
                assert(loaded(r@.segments[a], existing_segment_ids@[a], a < n - 1));
                if a < n - 1 {
                    assert(existing_segment_ids@[a] < existing_segment_ids@[n - 1]);
                }
            }
        }
        r
    }
}

impl SegmentManager<InMemoryBackend, InMemoryFactory, NoListener> {
    /// Creates a store whose first segment, with id 1, is `backend`; later
    /// segments are held in memory.
    pub fn new(backend: InMemoryBackend, max_segment_size: u64) -> (r: Self)
        ensures
            r.wf(),
            r@.segments == seq![
                SegmentView {
                    id: 1,
                    sealed: false,
                    size: backend@.len() as u64,
                    record_count: 0,
                    data: backend@,
                },
            ],
            r@.active == 1,
            r@.last_id == 1,
            r@.max_segment_size == max_segment_size,
            r@.index == Map::<EntityKey, (u64, u64, u64)>::empty(),
            r.infallible(),
    {
        let size = match backend.size() {
            Ok(n) => n,
            Err(_) => 0,
        };
        let mut slots: Vec<SegmentSlot<InMemoryBackend>> = Vec::new();
        slots.push(
            SegmentSlot { info: SegmentInfo { id: 1, sealed: false, size, record_count: 0 }, backend },
        );
        let r = SegmentManager {
            factory: InMemoryFactory,
            slots,
            active_segment_id: 1,
            last_segment_id: 1,
            max_segment_size,
            index: Vec::new(),
            listener: NoListener,
        };
        proof {
            assert(r@.index =~= Map::<EntityKey, (u64, u64, u64)>::empty());
            assert(r@.segments =~= seq![slot_view(r.slots@[0])]);
        }
        r
    }

    /// Creates a store held entirely in memory.
    pub fn new_in_memory(max_segment_size: u64) -> (r: Self)
        ensures
            r.wf(),
            r@.segments == seq![
                SegmentView {
                    id: 1,
                    sealed: false,
                    size: 0,
                    record_count: 0,
                    data: Seq::<u8>::empty(),
                },
            ],
            r@.active == 1,
            r@.last_id == 1,
            r@.max_segment_size == max_segment_size,
            r@.index == Map::<EntityKey, (u64, u64, u64)>::empty(),
            r.infallible(),
    {
        Self::new(InMemoryBackend::new(), max_segment_size)
    }
}

} // verus!
