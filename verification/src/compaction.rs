//! Segment compaction: keeps the latest version of each entity and drops
//! tombstones that are older than the retention window.

use crate::bytes::push_bytes;
use crate::error::CoreError;
use crate::segment_record::{
    decode_error_matches, declared_len, spec_decode_segment_record, spec_encode_segment_record,
    SegmentDecodeFailure, SegmentRecord, SegmentRecordModel,
};
use crate::types::SequenceNumber;
use crate::bytes::read_u32_le;
use vstd::prelude::*;

verus! {

/// The identity of an entity: its collection and its 16-byte id.
pub type EntityKey = (u32, Seq<u8>);

/// The key of a record.
pub open spec fn seg_key(r: SegmentRecordModel) -> EntityKey {
    (r.collection_id, r.entity_id)
}

/// Big-endian numeric value of a byte sequence.
pub open spec fn be_value(s: Seq<u8>) -> nat
    decreases s.len(),
{
    if s.len() == 0 {
        0
    } else {
        be_value(s.drop_last()) * 256 + s.last() as nat
    }
}

/// `256^n`.
pub open spec fn pow256(n: nat) -> nat
    decreases n,
{
    if n == 0 {
        1
    } else {
        pow256((n - 1) as nat) * 256
    }
}

/// Strict order on keys: by collection, then by entity id read as a big-endian
/// number (for 16-byte ids, the bytewise lexicographic order).
pub open spec fn key_lt(a: EntityKey, b: EntityKey) -> bool {
    a.0 < b.0 || (a.0 == b.0 && be_value(a.1) < be_value(b.1))
}

proof fn lemma_be_value_bound(s: Seq<u8>)
    ensures
        be_value(s) < pow256(s.len()),
    decreases s.len(),
{
    if s.len() > 0 {
        lemma_be_value_bound(s.drop_last());
        let a = be_value(s.drop_last());
        let p = pow256(s.drop_last().len());
        let x = s.last() as nat;
        assert(a * 256 + x < p * 256) by (nonlinear_arith)
            requires
                a < p,
                x < 256,
        ;
    }
}

/// Two byte sequences of the same length with the same big-endian value are equal.
proof fn lemma_be_value_injective(s: Seq<u8>, t: Seq<u8>)
    requires
        s.len() == t.len(),
        be_value(s) == be_value(t),
    ensures
        s == t,
    decreases s.len(),
{
    if s.len() > 0 {
        let a1 = be_value(s.drop_last());
        let a2 = be_value(t.drop_last());
        let x1 = s.last() as int;
        let x2 = t.last() as int;
        assert(x1 == x2 && a1 == a2) by (nonlinear_arith)
            requires
                a1 * 256 + x1 == a2 * 256 + x2,
                0 <= x1 < 256,
                0 <= x2 < 256,
                a1 >= 0,
                a2 >= 0,
        ;
        lemma_be_value_injective(s.drop_last(), t.drop_last());
        assert(s =~= s.drop_last().push(s.last()));
        assert(t =~= t.drop_last().push(t.last()));
    }
}

/// Numeric value of a 16-byte entity id.
fn entity_value(e: &[u8; 16]) -> (r: u128)
    ensures
        r == be_value(e@),
{
    let mut v: u128 = 0;
    let mut i: usize = 0;
    while i < 16
        invariant
            i <= 16,
            e@.len() == 16,
            v == be_value(e@.take(i as int)),
        decreases 16 - i,
    {
        proof {
            lemma_be_value_bound(e@.take(i as int));
            assert(pow256(i as nat) <= pow256(15)) by {
                lemma_pow256_mono(i as nat, 15);
            }
            assert(pow256(15) * 256 == 0x1_0000_0000_0000_0000_0000_0000_0000_0000) by {
                reveal_with_fuel(pow256, 16);
            }
            assert(e@.take(i + 1).drop_last() =~= e@.take(i as int));
            assert(v * 256 + 255 <= 0xFFFF_FFFF_FFFF_FFFF_FFFF_FFFF_FFFF_FFFF) by (nonlinear_arith)
                requires
                    v < pow256(i as nat),
                    pow256(i as nat) <= pow256(15),
                    pow256(15) * 256 == 0x1_0000_0000_0000_0000_0000_0000_0000_0000,
            ;
        }
        v = v * 256 + e[i] as u128;
        i = i + 1;
    }
    assert(e@.take(16) =~= e@);
    v
}

proof fn lemma_pow256_mono(a: nat, b: nat)
    requires
        a <= b,
    ensures
        pow256(a) <= pow256(b),
    decreases b,
{
    if a < b {
        lemma_pow256_mono(a, (b - 1) as nat);
        assert(pow256((b - 1) as nat) <= pow256((b - 1) as nat) * 256) by (nonlinear_arith);
    }
}

/// Compares the keys of two records: -1, 0 or 1 as the first is before, equal to, or after the second.
fn compare_keys(a: &SegmentRecord, b: &SegmentRecord) -> (r: i8)
    requires
        a@.entity_id.len() == 16,
        b@.entity_id.len() == 16,
    ensures
        r == -1 <==> key_lt(seg_key(a@), seg_key(b@)),
        r == 1 <==> key_lt(seg_key(b@), seg_key(a@)),
        r == 0 <==> seg_key(a@) == seg_key(b@),
        r == -1 || r == 0 || r == 1,
{
    if a.collection_id.0 < b.collection_id.0 {
        return -1;
    }
    if a.collection_id.0 > b.collection_id.0 {
        return 1;
    }
    let va = entity_value(&a.entity_id);
    let vb = entity_value(&b.entity_id);
    if va < vb {
        -1
    } else if va > vb {
        1
    } else {
        proof {
            lemma_be_value_injective(a.entity_id@, b.entity_id@);
        }
        0
    }
}

/// The latest version of each entity among `s`: the record with the highest
/// sequence number, the earliest one among records with equal sequence numbers.
pub open spec fn latest_versions(s: Seq<SegmentRecordModel>) -> Map<EntityKey, SegmentRecordModel>
    decreases s.len(),
{
    if s.len() == 0 {
        Map::empty()
    } else {
        let m = latest_versions(s.drop_last());
        let r = s.last();
        if m.contains_key(seg_key(r)) && r.sequence <= m[seg_key(r)].sequence {
            m
        } else {
            m.insert(seg_key(r), r)
        }
    }
}


/// The records laid out back to back in `d`: parsing stops cleanly when fewer
/// than four bytes remain, and fails when a record's length reaches past the
/// end or a record does not decode.
pub open spec fn spec_parse_records(d: Seq<u8>) -> Option<Seq<SegmentRecordModel>>
    decreases d.len(),
{
    if d.len() < 4 {
        Some(Seq::empty())
    } else if declared_len(d) > d.len() || declared_len(d) < 37 {
        None
    } else {
        match spec_decode_segment_record(d.subrange(0, declared_len(d))) {
            Ok(r) => match spec_parse_records(d.subrange(declared_len(d), d.len() as int)) {
                Some(rest) => Some(seq![r] + rest),
                None => None,
            },
            Err(_) => None,
        }
    }
}

/// The concatenated encodings of a sequence of records.
pub open spec fn spec_encode_all(s: Seq<SegmentRecordModel>) -> Seq<u8>
    decreases s.len(),
{
    if s.len() == 0 {
        Seq::empty()
    } else {
        spec_encode_all(s.drop_last()) + spec_encode_segment_record(s.last())
    }
}

/// Parsed records are well formed: 16-byte ids and encodable lengths.
proof fn lemma_parsed_well_formed(d: Seq<u8>)
    requires
        spec_parse_records(d) is Some,
    ensures
        forall|i: int| 0 <= i < spec_parse_records(d)->0.len() ==> (#[trigger] spec_parse_records(d)->0[i]).entity_id.len() == 16
            && spec_parse_records(d)->0[i].encodable(),
        total_encoded_len(spec_parse_records(d)->0) <= d.len(),
    decreases d.len(),
{
    if d.len() >= 4 {
        let l = declared_len(d);
        let rest = d.subrange(l, d.len() as int);
        let r = spec_decode_segment_record(d.subrange(0, l))->Ok_0;
        lemma_parsed_well_formed(rest);
        let tail = spec_parse_records(rest)->0;
        let all = seq![r] + tail;
        assert(d.subrange(0, l).subrange(0, 4) =~= d.subrange(0, 4));
        assert(l <= u32::MAX);
        assert(r.payload.len() == l - 37);
        lemma_total_cons(r, tail);
    }
}

proof fn lemma_total_cons(r: SegmentRecordModel, tail: Seq<SegmentRecordModel>)
    ensures
        total_encoded_len(seq![r] + tail) == r.encoded_len() + total_encoded_len(tail),
    decreases tail.len(),
{
    if tail.len() == 0 {
        assert(seq![r] + tail =~= seq![r]);
        assert(seq![r].drop_last() =~= Seq::<SegmentRecordModel>::empty());
        assert(total_encoded_len(Seq::<SegmentRecordModel>::empty()) == 0);
        assert(seq![r].last() == r);
    } else {
        lemma_total_cons(r, tail.drop_last());
        assert((seq![r] + tail).drop_last() =~= seq![r] + tail.drop_last());
        assert((seq![r] + tail).last() == tail.last());
    }
}

/// Configuration for compaction.
#[derive(Debug, Clone)]
pub struct CompactionConfig {
    /// Minimum age (in sequence numbers) before tombstones can be removed.
    pub tombstone_retention: u64,
    /// Whether to preserve tombstones that are newer than the retention period.
    pub preserve_recent_tombstones: bool,
}

/// The statistics of compacting `input` into `out`: the record counts,
/// the versions superseded by later ones, the tombstones dropped and the
/// bytes saved.
pub open spec fn compaction_stats(
    input: Seq<SegmentRecordModel>,
    out: Seq<SegmentRecordModel>,
    stats: CompactionResult,
) -> bool {
    let m = latest_versions(input);
    &&& stats.input_records == input.len()
    &&& stats.output_records == out.len()
    &&& stats.obsolete_versions_removed == input.len() - m.dom().len()
    &&& stats.tombstones_removed == m.dom().len() - out.len()
    &&& stats.bytes_saved == (if total_encoded_len(input) >= total_encoded_len(out) {
        total_encoded_len(input) - total_encoded_len(out)
    } else {
        0
    })
}

impl CompactionConfig {
    /// Whether a surviving record is written to the output under this
    /// configuration, at the given current sequence number.
    pub open spec fn keeps(self, r: SegmentRecordModel, current: u64) -> bool {
        !r.is_tombstone() || (self.preserve_recent_tombstones && (if current >= r.sequence {
            current - r.sequence
        } else {
            0
        }) < self.tombstone_retention)
    }

    /// Creates a config that removes all tombstones.
    pub fn remove_all_tombstones() -> (r: Self)
        ensures
            r.tombstone_retention == 0,
            !r.preserve_recent_tombstones,
    {
        CompactionConfig { tombstone_retention: 0, preserve_recent_tombstones: false }
    }

    /// Creates a config that preserves tombstones for a number of sequences.
    pub fn with_tombstone_retention(sequences: u64) -> (r: Self)
        ensures
            r.tombstone_retention == sequences,
            r.preserve_recent_tombstones,
    {
        CompactionConfig { tombstone_retention: sequences, preserve_recent_tombstones: true }
    }
}

impl Default for CompactionConfig {
    fn default() -> (r: Self)
        ensures
            r.tombstone_retention == 0,
            !r.preserve_recent_tombstones,
    {
        CompactionConfig { tombstone_retention: 0, preserve_recent_tombstones: false }
    }
}

/// Result of a compaction operation.
#[derive(Debug)]
pub struct CompactionResult {
    /// Number of records in the input.
    pub input_records: usize,
    /// Number of records in the output.
    pub output_records: usize,
    /// Number of tombstones removed.
    pub tombstones_removed: usize,
    /// Number of obsolete versions removed.
    pub obsolete_versions_removed: usize,
    /// Bytes saved (input size - output size, or zero).
    pub bytes_saved: usize,
}

/// Compactor for merging segment records.
pub struct Compactor {
    pub config: CompactionConfig,
}

/// The models of a sequence of records.
pub open spec fn models(v: Seq<SegmentRecord>) -> Seq<SegmentRecordModel> {
    v.map_values(|r: SegmentRecord| r@)
}

/// Total encoded size of a sequence of records.
pub open spec fn total_encoded_len(s: Seq<SegmentRecordModel>) -> int
    decreases s.len(),
{
    if s.len() == 0 {
        0
    } else {
        total_encoded_len(s.drop_last()) + s.last().encoded_len()
    }
}

/// Keys strictly increasing along the sequence.
pub open spec fn sorted_by_key(s: Seq<SegmentRecordModel>) -> bool {
    forall|i: int, j: int| 0 <= i < j < s.len() ==> key_lt(seg_key(s[i]), seg_key(s[j]))
}

/// What compaction writes for `input`: the latest version of each entity that the
/// configuration keeps, in key order, each key once.
pub open spec fn compaction_output_spec(
    config: CompactionConfig,
    input: Seq<SegmentRecordModel>,
    current: u64,
    out: Seq<SegmentRecordModel>,
) -> bool {
    let m = latest_versions(input);
    &&& sorted_by_key(out)
    &&& forall|i: int|
        0 <= i < out.len() ==> m.contains_key(seg_key(out[i])) && m[seg_key(out[i])] == out[i]
            && config.keeps(out[i], current)
    &&& forall|k: EntityKey|
        m.contains_key(k) && config.keeps(m[k], current) ==> exists|i: int|
            0 <= i < out.len() && seg_key(out[i]) == k
}

/// Invariant of the sorted working set: it holds exactly the latest versions.
spec fn holds_latest(lat: Seq<SegmentRecordModel>, m: Map<EntityKey, SegmentRecordModel>) -> bool {
    &&& sorted_by_key(lat)
    &&& forall|j: int|
        0 <= j < lat.len() ==> m.contains_key(#[trigger] seg_key(lat[j])) && m[seg_key(lat[j])]
            == lat[j]
    &&& forall|k: EntityKey| m.contains_key(k) ==> exists|j: int| 0 <= j < lat.len() && seg_key(lat[j]) == k
    &&& m.dom().finite()
    &&& m.dom().len() == lat.len()
    &&& forall|j: int| 0 <= j < lat.len() ==> (#[trigger] lat[j]).entity_id.len() == 16
}

impl Compactor {
    /// Creates a new compactor with the given configuration.
    pub fn new(config: CompactionConfig) -> (r: Self)
        ensures
            r.config == config,
    {
        Compactor { config }
    }

    /// Creates a compactor with the default configuration.
    pub fn with_defaults() -> (r: Self)
        ensures
            r.config.tombstone_retention == 0,
            !r.config.preserve_recent_tombstones,
    {
        Compactor { config: CompactionConfig { tombstone_retention: 0, preserve_recent_tombstones: false } }
    }

    /// Compacts a set of records, producing deduplicated output in key order.
    pub fn compact(&self, records: Vec<SegmentRecord>, current_sequence: SequenceNumber) -> (r: Result<
        (Vec<SegmentRecord>, CompactionResult),
        CoreError,
    >)
        requires
            total_encoded_len(models(records@)) <= usize::MAX,
            forall|i: int| 0 <= i < records@.len() ==> (#[trigger] records@[i])@.entity_id.len() == 16,
        ensures
            r is Ok,
            r matches Ok((out, stats)) ==> forall|i: int| 0 <= i < out@.len() ==> models(records@).contains(#[trigger] models(out@)[i]),
            r matches Ok((out, stats)) ==> compaction_output_spec(
                self.config,
                models(records@),
                current_sequence.0,
                models(out@),
            ) && compaction_stats(models(records@), models(out@), stats),
    {
        let ghost input = models(records@);
        let n = records.len();
        let input_size = total_size(&records);
        let (lat, obsolete) = latest_sorted(records);
        let ghost latm = models(lat@);
        let (out, removed) = self.keep_retained(lat, current_sequence.0);
        let out_size = total_size_saturating(&out);
        proof {
            lemma_compact_glue(latest_versions(input), latm, models(out@), self.config, current_sequence.0);
            assert forall|i: int| 0 <= i < out@.len() implies input.contains(#[trigger] models(out@)[i]) by {
                lemma_latest_values_in_input(input, seg_key(models(out@)[i]));
            }
        }
        let stats = CompactionResult {
            input_records: n,
            output_records: out.len(),
            tombstones_removed: removed,
            obsolete_versions_removed: obsolete,
            bytes_saved: input_size.saturating_sub(out_size),
        };
        Ok((out, stats))
    }


    /// Compacts records given as raw segment bytes and returns the encoded output.
    pub fn compact_bytes(&self, input: &[u8], current_sequence: SequenceNumber) -> (r: Result<
        (Vec<u8>, CompactionResult),
        CoreError,
    >)
        ensures
            r is Ok <==> spec_parse_records(input@) is Some,
            r matches Ok((bytes, stats)) ==> exists|out: Seq<SegmentRecordModel>|
                compaction_output_spec(self.config, spec_parse_records(input@)->0, current_sequence.0, out)
                    && bytes@ == spec_encode_all(out) && compaction_stats(spec_parse_records(input@)->0, out, stats),
            r matches Err(e) ==> e is SegmentCorruption || e is ChecksumMismatch,
    {
        let _input_len = input.len();
        let records = match Self::parse_records(input) {
            Ok(v) => v,
            Err(e) => return Err(e),
        };
        proof {
            lemma_parsed_well_formed(input@);
            assert(spec_parse_records(input@)->0 == models(records@));
            assert forall|i: int| 0 <= i < records@.len() implies (#[trigger] records@[i])@.entity_id.len() == 16 by {
                assert(models(records@)[i] == records@[i]@);
            }
        }
        let ghost parsed = models(records@);
        let result = self.compact(records, current_sequence);
        let (compacted, stats) = match result {
            Ok(x) => x,
            Err(e) => return Err(e),
        };
        let mut output: Vec<u8> = Vec::new();
        let mut i: usize = 0;
        while i < compacted.len()
            invariant
                i <= compacted@.len(),
                output@ == spec_encode_all(models(compacted@).take(i as int)),
                forall|j: int| 0 <= j < compacted@.len() ==> parsed.contains(#[trigger] models(compacted@)[j]),
                forall|j: int| 0 <= j < parsed.len() ==> (#[trigger] parsed[j]).encodable(),
            decreases compacted@.len() - i,
        {
            proof {
                let x = models(compacted@)[i as int];
                assert(parsed.contains(x));
                let j = choose|j: int| 0 <= j < parsed.len() && parsed[j] == x;
                assert(parsed[j].encodable());
                assert(models(compacted@).take(i + 1).drop_last() =~= models(compacted@).take(i as int));
            }
            let enc = compacted[i].encode();
            push_bytes(&mut output, enc.as_slice());
            i = i + 1;
        }
        assert(models(compacted@).take(compacted@.len() as int) =~= models(compacted@));
        Ok((output, stats))
    }

    /// Parses back-to-back records from raw bytes.
    fn parse_records(data: &[u8]) -> (r: Result<Vec<SegmentRecord>, CoreError>)
        ensures
            match r {
                Ok(v) => spec_parse_records(data@) == Some(models(v@)),
                Err(e) => spec_parse_records(data@) is None && (e is SegmentCorruption || e is ChecksumMismatch),
            },
    {
        let n = data.len();
        let mut records: Vec<SegmentRecord> = Vec::new();
        let mut offset: usize = 0;
        proof {
            assert(data@.subrange(0, n as int) =~= data@);
            if spec_parse_records(data@) is Some {
                assert(models(records@) + spec_parse_records(data@)->0 =~= spec_parse_records(data@)->0);
            }
        }
        while offset < n
            invariant
                offset <= n,
                n == data@.len(),
                spec_parse_records(data@) == match spec_parse_records(data@.subrange(offset as int, n as int)) {
                    Some(rest) => Some(models(records@) + rest),
                    None => None::<Seq<SegmentRecordModel>>,
                },
            ensures
                offset <= n,
                n - offset < 4,
                spec_parse_records(data@) == match spec_parse_records(data@.subrange(offset as int, n as int)) {
                    Some(rest) => Some(models(records@) + rest),
                    None => None::<Seq<SegmentRecordModel>>,
                },
            decreases n - offset,
        {
            let ghost d = data@.subrange(offset as int, n as int);
            if n - offset < 4 {
                proof {
                    assert(d.len() < 4);
                }
                break;
            }
            let record_len = read_u32_le(data, offset) as usize;
            proof {
                assert(d.subrange(0, 4) =~= data@.subrange(offset as int, offset + 4));
            }
            if record_len > n - offset {
                return Err(CoreError::segment_corruption("record extends beyond data"));
            }
            let end = offset + record_len;
            let slice = vstd::slice::slice_subrange(data, offset, end);
            proof {
                assert(slice@ =~= d.subrange(0, record_len as int));
            }
            let record = match SegmentRecord::decode(slice) {
                Ok(rec) => rec,
                Err(e) => return Err(e),
            };
            proof {
                assert(data@.subrange(end as int, n as int) =~= d.subrange(record_len as int, d.len() as int));
                assert(models(records@.push(record)) =~= models(records@) + seq![record@]);
            }
            records.push(record);
            offset = end;
        }
        proof {
            let d = data@.subrange(offset as int, n as int);
            assert(d.len() < 4);
            assert(spec_parse_records(d) == Some(Seq::<SegmentRecordModel>::empty()));
            assert(models(records@) + Seq::<SegmentRecordModel>::empty() =~= models(records@));
        }
        Ok(records)
    }

    /// The records of `lat` that the configuration keeps, in order, and how many were dropped.
    fn keep_retained(&self, lat: Vec<SegmentRecord>, current: u64) -> (r: (Vec<SegmentRecord>, usize))
        requires
            sorted_by_key(models(lat@)),
        ensures
            sorted_by_key(models(r.0@)),
            r.1 + r.0@.len() == lat@.len(),
            models(r.0@) == models(lat@).filter(|x: SegmentRecordModel| self.config.keeps(x, current)),
    {
        let ghost all = models(lat@);
        let ghost pred = |x: SegmentRecordModel| self.config.keeps(x, current);
        let ghost lat0 = lat@;
        let n = lat.len();
        let mut rev = reverse_vec(lat);
        let mut out: Vec<SegmentRecord> = Vec::new();
        let mut removed: usize = 0;
        let mut q: usize = 0;
        assert(all.take(0).filter(pred) =~= Seq::<SegmentRecordModel>::empty());
        while rev.len() > 0
            invariant
                sorted_by_key(all),
                all == models(lat0),
                n == lat0.len(),
                q + rev@.len() == n,
                rev@ == lat0.subrange(q as int, n as int).reverse(),
                removed + out@.len() == q,
                models(out@) == all.take(q as int).filter(pred),
                sorted_by_key(models(out@)),
                out@.len() > 0 ==> forall|j: int| q <= j < n ==> key_lt(seg_key(models(out@).last()), seg_key(#[trigger] all[j])),
                pred == (|x: SegmentRecordModel| self.config.keeps(x, current)),
            decreases rev@.len(),
        {
            let ghost rev0 = rev@;
            let r = rev.pop().unwrap();
            proof {
                assert(rev0.last() == lat0[q as int]);
                assert(rev@ =~= lat0.subrange(q + 1, n as int).reverse());
                assert(all[q as int] == r@);
                assert(all.take(q + 1).drop_last() =~= all.take(q as int));
                reveal(Seq::filter);
                assert(all.take(q + 1).last() == all[q as int]);
            }
            let keep = if r.flags.is_tombstone() {
                let age = current.saturating_sub(r.sequence.0);
                self.config.preserve_recent_tombstones && age < self.config.tombstone_retention
            } else {
                true
            };
            assert(keep == pred(all[q as int]));
            let ghost out0 = models(out@);
            if keep {
                out.push(r);
                proof {
                    assert(models(out@) =~= out0.push(all[q as int]));
                    assert forall|a: int, b: int| 0 <= a < b < models(out@).len() implies key_lt(seg_key(models(out@)[a]), seg_key(models(out@)[b])) by {
                        if b == out0.len() && a < out0.len() - 1 {
                            assert(key_lt(seg_key(out0[a]), seg_key(out0.last())));
                        }
                    }
                }
            } else {
                removed = removed + 1;
            }
            q = q + 1;
        }
        assert(all.take(n as int) =~= all);
        (out, removed)
    }
}

/// Every latest version is one of the input records.
proof fn lemma_latest_values_in_input(s: Seq<SegmentRecordModel>, k: EntityKey)
    requires
        latest_versions(s).contains_key(k),
    ensures
        s.contains(latest_versions(s)[k]),
    decreases s.len(),
{
    let m = latest_versions(s.drop_last());
    let r = s.last();
    if m.contains_key(seg_key(r)) && r.sequence <= m[seg_key(r)].sequence {
        lemma_latest_values_in_input(s.drop_last(), k);
        let j = choose|j: int| 0 <= j < s.drop_last().len() && s.drop_last()[j] == m[k];
        assert(s[j] == latest_versions(s)[k]);
    } else if k == seg_key(r) {
        assert(s[s.len() - 1] == latest_versions(s)[k]);
    } else {
        lemma_latest_values_in_input(s.drop_last(), k);
        let j = choose|j: int| 0 <= j < s.drop_last().len() && s.drop_last()[j] == m[k];
        assert(s[j] == latest_versions(s)[k]);
    }
}

/// Every element of a filtered sequence comes from the sequence.
proof fn lemma_filter_member(s: Seq<SegmentRecordModel>, pred: spec_fn(SegmentRecordModel) -> bool, i: int)
    requires
        0 <= i < s.filter(pred).len(),
    ensures
        s.contains(s.filter(pred)[i]),
    decreases s.len(),
{
    reveal(Seq::filter);
    let sub = s.drop_last().filter(pred);
    if i < sub.len() {
        lemma_filter_member(s.drop_last(), pred, i);
        let j = choose|j: int| 0 <= j < s.drop_last().len() && s.drop_last()[j] == sub[i];
        assert(s[j] == s.filter(pred)[i]);
    } else {
        assert(s[s.len() - 1] == s.filter(pred)[i]);
    }
}

proof fn lemma_compact_glue(
    m: Map<EntityKey, SegmentRecordModel>,
    latm: Seq<SegmentRecordModel>,
    om: Seq<SegmentRecordModel>,
    config: CompactionConfig,
    cur: u64,
)
    requires
        holds_latest(latm, m),
        om == latm.filter(|x: SegmentRecordModel| config.keeps(x, cur)),
    ensures
        forall|i: int|
            0 <= i < om.len() ==> m.contains_key(seg_key(om[i])) && m[seg_key(om[i])] == om[i]
                && config.keeps(om[i], cur),
        forall|k: EntityKey|
            m.contains_key(k) && config.keeps(m[k], cur) ==> exists|i: int|
                0 <= i < om.len() && seg_key(om[i]) == k,
{
    let pred = |x: SegmentRecordModel| config.keeps(x, cur);
    assert forall|i: int| 0 <= i < om.len() implies m.contains_key(seg_key(om[i])) && m[seg_key(om[i])] == om[i] && config.keeps(om[i], cur) by {
        latm.lemma_filter_pred(pred, i);
        lemma_filter_member(latm, pred, i);
        let b = choose|b: int| 0 <= b < latm.len() && latm[b] == om[i];
        assert(m.contains_key(seg_key(latm[b])));
    }
    assert forall|k: EntityKey| m.contains_key(k) && config.keeps(m[k], cur) implies exists|i: int| 0 <= i < om.len() && seg_key(om[i]) == k by {
        let j = choose|j: int| 0 <= j < latm.len() && seg_key(latm[j]) == k;
        assert(m[seg_key(latm[j])] == latm[j]);
        latm.lemma_filter_contains(pred, j);
        let a = choose|a: int| 0 <= a < om.len() && om[a] == latm[j];
        assert(seg_key(om[a]) == k);
    }
}

/// Reverses a vector.
pub fn reverse_vec<T>(v: Vec<T>) -> (r: Vec<T>)
    ensures
        r@ == v@.reverse(),
{
    let ghost v0 = v@;
    let n = v.len();
    let mut src = v;
    let mut out: Vec<T> = Vec::new();
    while src.len() > 0
        invariant
            n == v0.len(),
            src@.len() <= n,
            src@ == v0.take(src@.len() as int),
            out@ == v0.subrange(src@.len() as int, n as int).reverse(),
        decreases src@.len(),
    {
        let ghost k = src@.len() as int;
        let r = src.pop().unwrap();
        proof {
            assert(v0.take(k).drop_last() =~= v0.take(k - 1));
            assert(v0.subrange(k - 1, n as int).reverse() =~= v0.subrange(k, n as int).reverse().push(v0[k - 1]));
        }
        out.push(r);
    }
    assert(v0.subrange(0, n as int) =~= v0);
    out
}

/// Total encoded size of the records.
fn total_size(v: &Vec<SegmentRecord>) -> (r: usize)
    requires
        total_encoded_len(models(v@)) <= usize::MAX,
    ensures
        r == total_encoded_len(models(v@)),
{
    let mut total: usize = 0;
    let mut i: usize = 0;
    while i < v.len()
        invariant
            i <= v@.len(),
            total == total_encoded_len(models(v@).take(i as int)),
            total_encoded_len(models(v@)) <= usize::MAX,
        decreases v@.len() - i,
    {
        proof {
            lemma_total_prefix_bound(models(v@), i + 1);
        }
        total = total + (37 + v[i].payload.len());
        i = i + 1;
    }
    assert(models(v@).take(v@.len() as int) =~= models(v@));
    total
}

/// Total encoded size of the records, or `usize::MAX` if it is larger.
fn total_size_saturating(v: &Vec<SegmentRecord>) -> (r: usize)
    ensures
        r == (if total_encoded_len(models(v@)) <= usize::MAX {
            total_encoded_len(models(v@))
        } else {
            usize::MAX as int
        }),
{
    let mut total: usize = 0;
    let mut i: usize = 0;
    while i < v.len()
        invariant
            i <= v@.len(),
            total == (if total_encoded_len(models(v@).take(i as int)) <= usize::MAX {
                total_encoded_len(models(v@).take(i as int))
            } else {
                usize::MAX as int
            }),
        decreases v@.len() - i,
    {
        proof {
            lemma_total_prefix_bound(models(v@), i + 1);
        }
        total = total.saturating_add(37usize.saturating_add(v[i].payload.len()));
        i = i + 1;
    }
    assert(models(v@).take(v@.len() as int) =~= models(v@));
    total
}

/// The latest version of each entity among `records`, sorted by key, and the
/// number of records that an other version of the same entity supersedes.
fn latest_sorted(records: Vec<SegmentRecord>) -> (r: (Vec<SegmentRecord>, usize))
    requires
        forall|i: int| 0 <= i < records@.len() ==> (#[trigger] records@[i])@.entity_id.len() == 16,
    ensures
        holds_latest(models(r.0@), latest_versions(models(records@))),
        r.1 + r.0@.len() == records@.len(),
{
    let ghost input = models(records@);
    let ghost rec0 = records@;
    let n = records.len();
    let mut stack = reverse_vec(records);
    let mut lat: Vec<SegmentRecord> = Vec::new();
    let mut obsolete: usize = 0;
    let mut i: usize = 0;
    assert(input.take(0) =~= Seq::<SegmentRecordModel>::empty());
    assert(latest_versions(input.take(0)).dom() =~= Set::<EntityKey>::empty());
    while stack.len() > 0
        invariant
            n == input.len(),
            input == models(rec0),
            i + stack@.len() == n,
            stack@ == rec0.subrange(i as int, n as int).reverse(),
            holds_latest(models(lat@), latest_versions(input.take(i as int))),
            obsolete + lat@.len() == i,
            forall|j: int| 0 <= j < rec0.len() ==> (#[trigger] rec0[j])@.entity_id.len() == 16,
        decreases stack@.len(),
    {
        let ghost stack0 = stack@;
        let r = stack.pop().unwrap();
        let ghost lat0 = models(lat@);
        let ghost m0 = latest_versions(input.take(i as int));
        proof {
            assert(stack0.last() == rec0[i as int]);
            assert(stack@ =~= rec0.subrange(i + 1, n as int).reverse());
            assert(input.take(i + 1).drop_last() =~= input.take(i as int));
            assert(input.take(i + 1).last() == input[i as int]);
            assert(input[i as int] == r@);
        }
        // Find the first position whose key is not before the record's key.
        let mut p: usize = 0;
        while p < lat.len() && compare_keys(&lat[p], &r) == -1
            invariant
                p <= lat@.len(),
                forall|j: int| 0 <= j < p ==> key_lt(seg_key(lat@[j]@), seg_key(r@)),
            decreases lat@.len() - p,
        {
            p = p + 1;
        }
        if p < lat.len() && compare_keys(&lat[p], &r) == 0 {
            assert(seg_key(lat0[p as int]) == seg_key(r@));
            if r.sequence.0 > lat[p].sequence.0 {
                let _old = lat.remove(p);
                lat.insert(p, r);
                proof {
                    assert(models(lat@) =~= lat0.update(p as int, input[i as int]));
                    lemma_latest_replace(lat0, m0, p as int, input[i as int]);
                }
            } else {
                proof {
                    assert(models(lat@) =~= lat0);
                }
            }
            obsolete = obsolete + 1;
        } else {
            proof {
                lemma_latest_insert(lat0, m0, p as int, input[i as int]);
            }
            lat.insert(p, r);
            proof {
                assert(models(lat@) =~= lat0.insert(p as int, input[i as int]));
            }
        }
        i = i + 1;
    }
    assert(input.take(n as int) =~= input);
    (lat, obsolete)
}

proof fn lemma_total_prefix_bound(s: Seq<SegmentRecordModel>, k: int)
    requires
        0 < k <= s.len(),
    ensures
        total_encoded_len(s.take(k)) == total_encoded_len(s.take(k - 1)) + s[k - 1].encoded_len(),
        total_encoded_len(s.take(k - 1)) >= 0,
        total_encoded_len(s.take(k)) <= total_encoded_len(s),
{
    assert(s.take(k).drop_last() =~= s.take(k - 1));
    lemma_total_nonneg(s.take(k - 1));
    lemma_total_prefix_le(s, k);
}

proof fn lemma_total_nonneg(s: Seq<SegmentRecordModel>)
    ensures
        total_encoded_len(s) >= 0,
    decreases s.len(),
{
    if s.len() > 0 {
        lemma_total_nonneg(s.drop_last());
    }
}

proof fn lemma_total_prefix_le(s: Seq<SegmentRecordModel>, k: int)
    requires
        0 <= k <= s.len(),
    ensures
        total_encoded_len(s.take(k)) <= total_encoded_len(s),
    decreases s.len() - k,
{
    if k < s.len() {
        lemma_total_prefix_le(s, k + 1);
        assert(s.take(k + 1).drop_last() =~= s.take(k));
    } else {
        assert(s.take(k) =~= s);
    }
}

proof fn lemma_latest_replace(
    lat: Seq<SegmentRecordModel>,
    m: Map<EntityKey, SegmentRecordModel>,
    p: int,
    r: SegmentRecordModel,
)
    requires
        holds_latest(lat, m),
        0 <= p < lat.len(),
        seg_key(lat[p]) == seg_key(r),
        r.sequence > lat[p].sequence,
        r.entity_id.len() == 16,
    ensures
        holds_latest(lat.update(p, r), m.insert(seg_key(r), r)),
{
    let lat2 = lat.update(p, r);
    let m2 = m.insert(seg_key(r), r);
    assert(m.dom().insert(seg_key(r)) =~= m.dom());
    assert forall|k: EntityKey| m2.contains_key(k) implies exists|j: int| 0 <= j < lat2.len() && seg_key(lat2[j]) == k by {
        if k != seg_key(r) {
            let j = choose|j: int| 0 <= j < lat.len() && seg_key(lat[j]) == k;
            assert(seg_key(lat2[j]) == k);
        } else {
            assert(seg_key(lat2[p]) == k);
        }
    }
    assert forall|j: int| 0 <= j < lat2.len() implies m2.contains_key(#[trigger] seg_key(lat2[j])) && m2[seg_key(lat2[j])] == lat2[j] by {
        if j != p {
            assert(key_lt(seg_key(lat[j]), seg_key(lat[p])) || key_lt(seg_key(lat[p]), seg_key(lat[j])));
        }
    }
}

proof fn lemma_latest_insert(
    lat: Seq<SegmentRecordModel>,
    m: Map<EntityKey, SegmentRecordModel>,
    p: int,
    r: SegmentRecordModel,
)
    requires
        holds_latest(lat, m),
        0 <= p <= lat.len(),
        forall|j: int| 0 <= j < p ==> key_lt(seg_key(lat[j]), seg_key(r)),
        p < lat.len() ==> key_lt(seg_key(r), seg_key(lat[p])),
        r.entity_id.len() == 16,
    ensures
        !m.contains_key(seg_key(r)),
        holds_latest(lat.insert(p, r), m.insert(seg_key(r), r)),
{
    let k = seg_key(r);
    // Every key from position p on is after r's key.
    assert forall|j: int| p <= j < lat.len() implies key_lt(k, seg_key(lat[j])) by {
        if j > p {
            assert(key_lt(seg_key(lat[p]), seg_key(lat[j])));
        }
    }
    if m.contains_key(k) {
        let j = choose|j: int| 0 <= j < lat.len() && seg_key(lat[j]) == k;
        if j < p {
            assert(key_lt(seg_key(lat[j]), k));
        } else {
            assert(key_lt(k, seg_key(lat[j])));
        }
    }
    let lat2 = lat.insert(p, r);
    let m2 = m.insert(k, r);
    assert(m2.dom() =~= m.dom().insert(k));
    assert forall|a: int, b: int| 0 <= a < b < lat2.len() implies key_lt(seg_key(lat2[a]), seg_key(lat2[b])) by {
        if b < p {
        } else if b == p {
        } else if a < p {
            assert(key_lt(seg_key(lat[a]), k));
        } else if a == p {
        } else {
        }
    }
    assert forall|kk: EntityKey| m2.contains_key(kk) implies exists|j: int| 0 <= j < lat2.len() && seg_key(lat2[j]) == kk by {
        if kk != k {
            let j = choose|j: int| 0 <= j < lat.len() && seg_key(lat[j]) == kk;
            if j < p {
                assert(seg_key(lat2[j]) == kk);
            } else {
                assert(seg_key(lat2[j + 1]) == kk);
            }
        } else {
            assert(seg_key(lat2[p]) == kk);
        }
    }
    assert forall|j: int| 0 <= j < lat2.len() implies m2.contains_key(#[trigger] seg_key(lat2[j])) && m2[seg_key(lat2[j])] == lat2[j] by {
        if j < p {
            assert(lat2[j] == lat[j]);
            assert(key_lt(seg_key(lat[j]), k));
        } else if j > p {
            assert(lat2[j] == lat[j - 1]);
            assert(key_lt(k, seg_key(lat[j - 1])));
        }
    }
}

} // verus!
