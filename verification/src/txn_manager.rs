//! The transaction manager: begins, commits and aborts transactions over a
//! write-ahead log and the segment store.
//!
//! A commit logs every pending write and a commit record, flushes the log,
//! and only then applies the writes to the segments, all under one sequence
//! number. A transaction reads the database as of the sequence number that
//! was committed when it began (snapshot isolation), and sees its own
//! pending writes first. At most one write transaction is open at a time.

use crate::compaction::{seg_key, EntityKey};
use crate::error::CoreError;
use crate::segment_record::{decode_error_matches, SegmentDecodeFailure, SegmentRecord, SegmentRecordModel};
use crate::segment_store::{
    all_records, latest_at, lemma_latest_at_insert, lemma_latest_at_new,
    lemma_latest_record_visible, lemma_write_keeps_snapshots, lookup,
    can_grow, needs_seal, opt_bytes, payload_of, pre_write, scan_all_spec, seg_of, tag_records, tidy,
    tiles, visible, written,
    BackendFactory, SealListener, SegmentManager, SegmentView, StoreView,
};
use crate::storage::StorageBackend;
use crate::transaction::{
    before_hash_of, compute_content_hash, key_of, keyed_map, keys_unique, lemma_keyed_absent, lemma_keyed_lookup,
    sha256_digest, write_view, PendingWrite, PendingWriteModel, Transaction, TransactionModel,
    TransactionState, TxnKey,
};
use crate::types::{CollectionId, EntityId, SequenceNumber, TransactionId};
use crate::wal::{frameable, spec_frame, spec_frames, WalManager};
use crate::wal_record::{hash_model, WalRecord, WalRecordModel};
use vstd::bytes::{lemma_auto_spec_u32_to_from_le_bytes, lemma_auto_spec_u64_to_from_le_bytes};
use vstd::prelude::*;

verus! {

/// The records a manager logs fit the log's length field.
proof fn lemma_frameable(r: WalRecordModel)
    requires
        match r {
            WalRecordModel::Put { entity_id, before_hash, after_bytes, .. } => entity_id.len() == 16
                && before_hash is None && after_bytes.len() + 37 <= u32::MAX,
            WalRecordModel::Delete { entity_id, before_hash, .. } => entity_id.len() == 16
                && before_hash is None,
            _ => true,
        },
    ensures
        frameable(r),
{
    lemma_auto_spec_u32_to_from_le_bytes();
    lemma_auto_spec_u64_to_from_le_bytes();
}

/// Mathematical model of the transaction manager.
pub struct ManagerView {
    /// The bytes of the write-ahead log.
    pub wal: Seq<u8>,
    /// The segment store.
    pub store: StoreView,
    /// The id the next transaction gets.
    pub next_txid: u64,
    /// The sequence number the next commit gets.
    pub next_seq: u64,
    /// The sequence number of the latest commit; new transactions read as of it.
    pub committed_seq: u64,
    /// The ids of the transactions begun and not yet finished.
    pub active: Seq<u64>,
    /// The open write transaction, if any.
    pub writer: Option<u64>,
}

/// The counter after `x`, wrapping around at the end of the range.
pub open spec fn following(x: u64) -> u64 {
    if x == u64::MAX {
        0
    } else {
        (x + 1) as u64
    }
}

/// The segment record a commit at sequence `s` writes for a pending write.
pub open spec fn commit_record(k: EntityKey, w: PendingWriteModel, s: u64) -> SegmentRecordModel {
    match w {
        PendingWriteModel::Put { payload, .. } => SegmentRecordModel {
            collection_id: k.0,
            entity_id: k.1,
            flags: 0,
            payload,
            sequence: s,
        },
        PendingWriteModel::Delete { .. } => SegmentRecordModel {
            collection_id: k.0,
            entity_id: k.1,
            flags: 1,
            payload: Seq::empty(),
            sequence: s,
        },
    }
}

/// What a reader sees of an entity once a pending write is committed.
/// The segment records a commit at sequence `s` appends, one per pending
/// write, in order.
pub open spec fn commit_records(writes: Seq<(TxnKey, PendingWrite)>, s: u64) -> Seq<SegmentRecordModel> {
    writes.map_values(|e: (TxnKey, PendingWrite)| commit_record(key_of(e.0), e.1@, s))
}

/// Whether the store `v` takes `recs` one after the other: before each,
/// it has an active segment with room for it (and, where it must seal
/// first, a segment id left for the next one).
pub open spec fn fits(v: StoreView, recs: Seq<SegmentRecordModel>) -> bool
    decreases recs.len(),
{
    if recs.len() == 0 {
        true
    } else {
        let n = recs[0].encoded_len();
        &&& can_grow(v, n)
        &&& needs_seal(v, n) ==> v.last_id < u64::MAX
        &&& seg_of(v.segments, v.active) is Some
        &&& fits(written(pre_write(v, n, Seq::empty()), recs[0]), recs.skip(1))
    }
}

pub open spec fn written_payload(w: PendingWriteModel) -> Option<Seq<u8>> {
    match w {
        PendingWriteModel::Put { payload, .. } => Some(payload),
        PendingWriteModel::Delete { .. } => None,
    }
}

/// The log record of one pending write of transaction `txid`.
pub open spec fn commit_op(txid: u64, e: (TxnKey, PendingWrite)) -> WalRecordModel {
    match e.1@ {
        PendingWriteModel::Put { payload, .. } => WalRecordModel::Put {
            txid,
            collection_id: key_of(e.0).0,
            entity_id: key_of(e.0).1,
            before_hash: None,
            after_bytes: payload,
        },
        PendingWriteModel::Delete { .. } => WalRecordModel::Delete {
            txid,
            collection_id: key_of(e.0).0,
            entity_id: key_of(e.0).1,
            before_hash: None,
        },
    }
}

/// The log records of a commit at sequence `s`: one per pending write, in
/// order, then the commit record.
pub open spec fn commit_log(txid: u64, es: Seq<(TxnKey, PendingWrite)>, s: u64) -> Seq<
    WalRecordModel,
> {
    es.map_values(|e: (TxnKey, PendingWrite)| commit_op(txid, e)).push(
        WalRecordModel::Commit { txid, sequence: s },
    )
}

/// A pending write whose record fits the segment format.
pub open spec fn storable(w: PendingWriteModel) -> bool {
    w matches PendingWriteModel::Put { payload, .. } ==> payload.len() + 37 <= u32::MAX
}

/// Every pending write of a transaction fits the segment format.
pub open spec fn all_storable(t: TransactionModel) -> bool {
    forall|k: EntityKey| t.writes.contains_key(k) ==> storable(#[trigger] t.writes[k])
}

/// The hash a read records: that of the content seen, if there was any.
pub open spec fn read_hash(v: Option<Vec<u8>>) -> Option<Seq<u8>> {
    match v {
        Some(p) => Some(sha256_digest(p@)),
        None => None,
    }
}

/// What an entity reads as in a transaction: its pending write if it has
/// one, else what the segments hold as of the transaction's snapshot.
pub open spec fn snapshot_read(t: TransactionModel, es: Seq<(u64, u64, SegmentRecordModel)>, k: EntityKey) -> Option<Seq<u8>> {
    if t.writes.contains_key(k) {
        written_payload(t.writes[k])
    } else {
        payload_of(latest_at(all_records(es), k, t.snapshot_seq))
    }
}

/// What a commit at sequence `s` of a transaction `t` leaves behind.
pub open spec fn committed(
    before: ManagerView,
    after: ManagerView,
    t: TransactionModel,
    s: u64,
) -> bool {
    &&& s == before.next_seq
    &&& after.next_seq == following(before.next_seq)
    &&& after.next_txid == before.next_txid
    &&& after.committed_seq == s
    &&& after.active == before.active.filter(|x: u64| x != t.id)
    &&& exists|es: Seq<(TxnKey, PendingWrite)>|
        #![trigger keyed_map(es, write_view())]
        keys_unique(es) && keyed_map(es, write_view()) == t.writes && after.wal == before.wal
            + spec_frames(commit_log(t.id, es, s))
    &&& forall|k: EntityKey|
        t.writes.contains_key(k) ==> lookup(after.store, k) == Some(
            commit_record(k, t.writes[k], s),
        ) && #[trigger] visible(after.store, k) == written_payload(t.writes[k])
    &&& forall|k: EntityKey| !t.writes.contains_key(k) ==> #[trigger] lookup(after.store, k) == lookup(before.store, k)
    &&& keeps_snapshots(before.store, after.store, s)
    &&& tidy(before.store) && seqs_below(before.store, s as int) ==> {
        &&& seqs_below(after.store, s + 1)
        &&& forall|k: EntityKey|
            t.writes.contains_key(k) ==> #[trigger] latest_at(store_records(after.store), k, s) == Some(
                commit_record(k, t.writes[k], s),
            )
    }
}

/// A store whose segments are made of whole records stays so, and what a
/// reader at any snapshot below `s` sees of it stays the same.
pub open spec fn keeps_snapshots(before: StoreView, after: StoreView, s: u64) -> bool {
    tidy(before) && scan_all_spec(before.segments) is Ok ==> {
        &&& tidy(after)
        &&& scan_all_spec(after.segments) is Ok
        &&& forall|k: EntityKey, snap: u64|
            snap < s ==> #[trigger] latest_at(all_records(scan_all_spec(after.segments)->Ok_0), k, snap)
                == latest_at(all_records(scan_all_spec(before.segments)->Ok_0), k, snap)
    }
}

/// The records a store holds, in the order a scan reads them.
pub open spec fn store_records(v: StoreView) -> Seq<SegmentRecordModel> {
    all_records(scan_all_spec(v.segments)->Ok_0)
}

/// The store can be scanned and each of its records has a sequence number
/// below `s`.
pub open spec fn seqs_below(v: StoreView, s: int) -> bool {
    &&& scan_all_spec(v.segments) is Ok
    &&& forall|i: int| 0 <= i < store_records(v).len() ==> (#[trigger] store_records(v)[i]).sequence < s
}

/// After the first `i` writes of a commit at `s` are stored: no record is
/// above `s`, each entity written so far reads as its new record at `s`,
/// and every other entity has only records below `s`.
spec fn fresh_after(cur: Seq<SegmentRecordModel>, writes: Seq<(TxnKey, PendingWrite)>, i: int, s: u64) -> bool {
    &&& forall|idx: int| 0 <= idx < cur.len() ==> (#[trigger] cur[idx]).sequence <= s
    &&& forall|j: int|
        0 <= j < i ==> #[trigger] latest_at(cur, key_of(writes[j].0), s) == Some(
            commit_record(key_of(writes[j].0), writes[j].1@, s),
        )
    &&& forall|idx: int|
        0 <= idx < cur.len() && (forall|j: int| 0 <= j < i ==> key_of(#[trigger] writes[j].0) != seg_key(cur[idx]))
            ==> (#[trigger] cur[idx]).sequence < s
}

proof fn lemma_fresh_step(
    cur: Seq<SegmentRecordModel>,
    p: int,
    writes: Seq<(TxnKey, PendingWrite)>,
    i: int,
    s: u64,
)
    requires
        0 <= i < writes.len(),
        0 <= p <= cur.len(),
        keys_unique(writes),
        fresh_after(cur, writes, i, s),
    ensures
        fresh_after(
            cur.insert(p, commit_record(key_of(writes[i].0), writes[i].1@, s)),
            writes,
            i + 1,
            s,
        ),
{
    let x = commit_record(key_of(writes[i].0), writes[i].1@, s);
    let k = key_of(writes[i].0);
    let t = cur.insert(p, x);
    cur.insert_ensures(p, x);
    assert(seg_key(x) == k);
    assert forall|idx: int| 0 <= idx < t.len() implies (#[trigger] t[idx]).sequence <= s by {
        if idx > p {
            assert(t[idx] == cur[idx - 1]);
        }
    }
    assert forall|idx: int| 0 <= idx < cur.len() && seg_key(#[trigger] cur[idx]) == k implies cur[idx].sequence < s by {
        assert forall|j: int| 0 <= j < i implies key_of(#[trigger] writes[j].0) != seg_key(cur[idx]) by {
        }
    }
    lemma_latest_at_new(cur, p, x, s);
    assert forall|j: int| 0 <= j < i + 1 implies #[trigger] latest_at(t, key_of(writes[j].0), s) == Some(
        commit_record(key_of(writes[j].0), writes[j].1@, s),
    ) by {
        if j < i {
            lemma_latest_at_insert(cur, p, x, key_of(writes[j].0), s);
        }
    }
    assert forall|idx: int|
        0 <= idx < t.len() && (forall|j: int| 0 <= j < i + 1 ==> key_of(#[trigger] writes[j].0) != seg_key(t[idx]))
            implies (#[trigger] t[idx]).sequence < s by {
        assert(key_of(writes[i].0) != seg_key(t[idx]));
        if idx < p {
            assert(t[idx] == cur[idx]);
        } else {
            assert(idx != p);
            assert(t[idx] == cur[idx - 1]);
        }
    }
}

/// Snapshot isolation: a commit changes nothing that a transaction whose
/// snapshot is older than the commit reads from the segments.
pub proof fn lemma_commit_keeps_older_snapshots(
    before: ManagerView,
    after: ManagerView,
    t: TransactionModel,
    s: u64,
    reader: TransactionModel,
    k: EntityKey,
)
    requires
        committed(before, after, t, s),
        tidy(before.store),
        scan_all_spec(before.store.segments) is Ok,
        reader.snapshot_seq < s,
    ensures
        scan_all_spec(after.store.segments) is Ok,
        snapshot_read(reader, scan_all_spec(after.store.segments)->Ok_0, k) == snapshot_read(
            reader,
            scan_all_spec(before.store.segments)->Ok_0,
            k,
        ),
{
    assert(latest_at(store_records(after.store), k, reader.snapshot_seq) == latest_at(
        store_records(before.store),
        k,
        reader.snapshot_seq,
    ));
}

/// Read after commit: a transaction that reads as of a commit sees each
/// entity the commit wrote as written, or gone if it was deleted, when
/// every record stored before had a lower sequence number.
pub proof fn lemma_commit_visible_at_its_sequence(
    before: ManagerView,
    after: ManagerView,
    t: TransactionModel,
    s: u64,
    reader: TransactionModel,
    k: EntityKey,
)
    requires
        committed(before, after, t, s),
        tidy(before.store),
        seqs_below(before.store, s as int),
        t.writes.contains_key(k),
        reader.snapshot_seq == s,
        !reader.writes.contains_key(k),
    ensures
        scan_all_spec(after.store.segments) is Ok,
        snapshot_read(reader, scan_all_spec(after.store.segments)->Ok_0, k) == written_payload(
            t.writes[k],
        ),
{
    assert(latest_at(store_records(after.store), k, s) == Some(commit_record(k, t.writes[k], s)));
    assert(0u8 & 1u8 == 0u8) by (bit_vector);
    assert(1u8 & 1u8 == 1u8) by (bit_vector);
}

proof fn lemma_empty_scan(segs: Seq<SegmentView>)
    requires
        forall|i: int| 0 <= i < segs.len() ==> (#[trigger] segs[i]).data.len() == 0,
    ensures
        scan_all_spec(segs) == Ok::<Seq<(u64, u64, SegmentRecordModel)>, SegmentDecodeFailure>(
            Seq::empty(),
        ),
    decreases segs.len(),
{
    if segs.len() > 0 {
        lemma_empty_scan(segs.drop_last());
        assert(segs.last() == segs[segs.len() - 1]);
        assert(tag_records(segs.last().id, Seq::empty()) =~= Seq::<
            (u64, u64, SegmentRecordModel),
        >::empty());
        assert(Seq::<(u64, u64, SegmentRecordModel)>::empty() + Seq::<(u64, u64, SegmentRecordModel)>::empty()
            =~= Seq::<(u64, u64, SegmentRecordModel)>::empty());
    }
}

/// A store whose segments hold no bytes yet, such as a new one, meets the
/// conditions of the commit laws for any sequence number.
pub proof fn lemma_empty_store_ready(v: StoreView, s: int)
    requires
        forall|i: int| 0 <= i < v.segments.len() ==> (#[trigger] v.segments[i]).data.len() == 0,
    ensures
        tidy(v),
        seqs_below(v, s),
{
    lemma_empty_scan(v.segments);
    assert forall|i: int| 0 <= i < v.segments.len() implies tiles(
        #[trigger] v.segments[i].data,
        0,
    ) by {
        assert(v.segments[i].data.len() == 0);
    }
}

/// Reads stay possible across commits: a store with no bytes yet scans
/// cleanly, and a commit on a store that scans cleanly leaves one that does,
/// so `get` on an infallible manager, which fails only where the scan
/// fails, keeps returning `Ok` whatever was committed.
pub proof fn law_reads_survive_commits(
    empty: StoreView,
    before: ManagerView,
    after: ManagerView,
    t: TransactionModel,
    s: u64,
)
    requires
        forall|i: int| 0 <= i < empty.segments.len() ==> (#[trigger] empty.segments[i]).data.len() == 0,
        committed(before, after, t, s),
        tidy(before.store),
        scan_all_spec(before.store.segments) is Ok,
    ensures
        tidy(empty),
        scan_all_spec(empty.segments) is Ok,
        tidy(after.store),
        scan_all_spec(after.store.segments) is Ok,
{
    lemma_empty_store_ready(empty, 0);
    lemma_empty_scan(empty.segments);
}

/// A transaction that holds the manager's single write slot.
#[derive(Debug)]
pub struct WriteTransaction {
    inner: Transaction,
}

impl WriteTransaction {
    /// The underlying transaction.
    pub closed spec fn txn(&self) -> Transaction {
        self.inner
    }

    /// The underlying transaction.
    pub fn inner(&self) -> (r: &Transaction)
        ensures
            *r == self.txn(),
    {
        &self.inner
    }

    /// The underlying transaction, for writing.
    pub fn inner_mut(&mut self) -> (r: &mut Transaction)
        ensures
            *r == old(self).txn(),
            final(self).txn() == *final(r),
    {
        &mut self.inner
    }

    /// Gives up the write slot's handle and returns the transaction.
    pub fn into_inner(self) -> (r: Transaction)
        ensures
            r == self.txn(),
    {
        self.inner
    }

    /// The transaction ID.
    pub fn id(&self) -> (r: TransactionId)
        ensures
            r.0 == self.txn()@.id,
    {
        self.inner.id()
    }

    /// The snapshot sequence number.
    pub fn snapshot_seq(&self) -> (r: SequenceNumber)
        ensures
            r.0 == self.txn()@.snapshot_seq,
    {
        self.inner.snapshot_seq()
    }

    /// Tells whether the transaction is still active.
    pub fn is_active(&self) -> (r: bool)
        ensures
            r == (self.txn()@.state == TransactionState::Active),
    {
        self.inner.is_active()
    }

    /// Records a put, as [`Transaction::put`] does.
    pub fn put(&mut self, collection_id: CollectionId, entity_id: EntityId, payload: Vec<u8>) -> (r:
        Result<(), CoreError>)
        requires
            old(self).txn().wf(),
        ensures
            final(self).txn().wf(),
            old(self).txn()@.state == TransactionState::Active ==> r is Ok && final(self).txn()@
                == (TransactionModel {
                writes: old(self).txn()@.writes.insert(
                    (collection_id.0, entity_id.0@),
                    PendingWriteModel::Put {
                        payload: payload@,
                        is_update: None,
                        before_hash: before_hash_of(
                            old(self).txn()@.reads,
                            (collection_id.0, entity_id.0@),
                        ),
                    },
                ),
                ..old(self).txn()@
            }),
            old(self).txn()@.state != TransactionState::Active ==> r is Err && final(self).txn()@
                == old(self).txn()@,
    {
        self.inner.put(collection_id, entity_id, payload)
    }

    /// Records a put known to be an update or an insert, as
    /// [`Transaction::put_with_op_type`] does.
    pub fn put_with_op_type(
        &mut self,
        collection_id: CollectionId,
        entity_id: EntityId,
        payload: Vec<u8>,
        is_update: bool,
    ) -> (r: Result<(), CoreError>)
        requires
            old(self).txn().wf(),
        ensures
            final(self).txn().wf(),
            old(self).txn()@.state == TransactionState::Active ==> r is Ok && final(self).txn()@
                == (TransactionModel {
                writes: old(self).txn()@.writes.insert(
                    (collection_id.0, entity_id.0@),
                    PendingWriteModel::Put {
                        payload: payload@,
                        is_update: Some(is_update),
                        before_hash: before_hash_of(
                            old(self).txn()@.reads,
                            (collection_id.0, entity_id.0@),
                        ),
                    },
                ),
                ..old(self).txn()@
            }),
            old(self).txn()@.state != TransactionState::Active ==> r is Err && final(self).txn()@
                == old(self).txn()@,
    {
        self.inner.put_with_op_type(collection_id, entity_id, payload, is_update)
    }

    /// Records a delete, as [`Transaction::delete`] does.
    pub fn delete(&mut self, collection_id: CollectionId, entity_id: EntityId) -> (r: Result<
        (),
        CoreError,
    >)
        requires
            old(self).txn().wf(),
        ensures
            final(self).txn().wf(),
            old(self).txn()@.state == TransactionState::Active ==> r is Ok && final(self).txn()@
                == (TransactionModel {
                writes: old(self).txn()@.writes.insert(
                    (collection_id.0, entity_id.0@),
                    PendingWriteModel::Delete {
                        before_hash: before_hash_of(
                            old(self).txn()@.reads,
                            (collection_id.0, entity_id.0@),
                        ),
                    },
                ),
                ..old(self).txn()@
            }),
            old(self).txn()@.state != TransactionState::Active ==> r is Err && final(self).txn()@
                == old(self).txn()@,
    {
        self.inner.delete(collection_id, entity_id)
    }

    /// The pending write for an entity, if any.
    pub fn get_pending_write(&self, collection_id: CollectionId, entity_id: EntityId) -> (r: Option<
        &PendingWrite,
    >)
        requires
            self.txn().wf(),
        ensures
            match r {
                Some(w) => self.txn()@.writes.contains_key((collection_id.0, entity_id.0@))
                    && self.txn()@.writes[(collection_id.0, entity_id.0@)] == w@,
                None => !self.txn()@.writes.contains_key((collection_id.0, entity_id.0@)),
            },
    {
        self.inner.get_pending_write(collection_id, entity_id)
    }

    /// Records a read, as [`Transaction::record_read`] does.
    pub fn record_read(
        &mut self,
        collection_id: CollectionId,
        entity_id: EntityId,
        observed_hash: Option<[u8; 32]>,
    )
        requires
            old(self).txn().wf(),
        ensures
            final(self).txn().wf(),
            old(self).txn()@.writes.contains_key((collection_id.0, entity_id.0@)) ==> final(self).txn()@ == old(self).txn()@,
            !old(self).txn()@.writes.contains_key((collection_id.0, entity_id.0@)) ==> final(self).txn()@ == (TransactionModel {
                reads: old(self).txn()@.reads.insert(
                    (collection_id.0, entity_id.0@),
                    hash_model(observed_hash),
                ),
                ..old(self).txn()@
            }),
    {
        self.inner.record_read(collection_id, entity_id, observed_hash)
    }
}

/// Manages transactions over a write-ahead log and a segment store.
pub struct TransactionManager<W: StorageBackend, B: StorageBackend, F: BackendFactory<B>, L: SealListener> {
    wal: WalManager<W>,
    segments: SegmentManager<B, F, L>,
    next_txid: u64,
    next_seq: u64,
    committed_seq: u64,
    active_txns: Vec<u64>,
    writer: Option<u64>,
}

impl<W: StorageBackend, B: StorageBackend, F: BackendFactory<B>, L: SealListener> View for TransactionManager<
    W,
    B,
    F,
    L,
> {
    type V = ManagerView;

    closed spec fn view(&self) -> ManagerView {
        ManagerView {
            wal: self.wal@,
            store: self.segments@,
            next_txid: self.next_txid,
            next_seq: self.next_seq,
            committed_seq: self.committed_seq,
            active: self.active_txns@,
            writer: self.writer,
        }
    }
}

/// The ids of `active` other than `txid`.
fn without(active: &Vec<u64>, txid: u64) -> (r: Vec<u64>)
    ensures
        r@ == active@.filter(|x: u64| x != txid),
{
    let mut out: Vec<u64> = Vec::new();
    let mut i: usize = 0;
    while i < active.len()
        invariant
            i <= active@.len(),
            out@ == active@.take(i as int).filter(|x: u64| x != txid),
        decreases active@.len() - i,
    {
        assert(active@.take(i + 1).drop_last() =~= active@.take(i as int));
        proof {
            active@.take(i as int).lemma_filter_push(active@[i as int], |x: u64| x != txid);
            assert(active@.take(i as int).push(active@[i as int]) =~= active@.take(i + 1));
        }
        if active[i] != txid {
            out.push(active[i]);
        }
        i = i + 1;
    }
    assert(active@.take(i as int) =~= active@);
    out
}

impl<W: StorageBackend, B: StorageBackend, F: BackendFactory<B>, L: SealListener> TransactionManager<
    W,
    B,
    F,
    L,
> {
    /// The log and the store are well-formed.
    pub closed spec fn wf(&self) -> bool {
        self.wal.wf() && self.segments.wf()
    }

    /// Whether neither the log nor the store can fail on storage: both sit
    /// on backends that declare themselves infallible.
    pub closed spec fn infallible(&self) -> bool {
        self.wal.infallible() && self.segments.infallible()
    }

    /// Creates a manager over a log and a store, with counters starting
    /// afresh.
    pub fn new(wal: WalManager<W>, segments: SegmentManager<B, F, L>) -> (r: Self)
        requires
            wal.wf(),
            segments.wf(),
        ensures
            r.wf(),
            r@ == (ManagerView {
                wal: wal@,
                store: segments@,
                next_txid: 1,
                next_seq: 1,
                committed_seq: 0,
                active: Seq::empty(),
                writer: None,
            }),
            r.infallible() == (wal.infallible() && segments.infallible()),
    {
        Self::with_state(wal, segments, 1, 1, 0)
    }

    /// Creates a manager with the counters found by recovery.
    pub fn with_state(
        wal: WalManager<W>,
        segments: SegmentManager<B, F, L>,
        next_txid: u64,
        next_seq: u64,
        committed_seq: u64,
    ) -> (r: Self)
        requires
            wal.wf(),
            segments.wf(),
        ensures
            r.wf(),
            r@ == (ManagerView {
                wal: wal@,
                store: segments@,
                next_txid,
                next_seq,
                committed_seq,
                active: Seq::empty(),
                writer: None,
            }),
            r.infallible() == (wal.infallible() && segments.infallible()),
    {
        let r = TransactionManager {
            wal,
            segments,
            next_txid,
            next_seq,
            committed_seq,
            active_txns: Vec::new(),
            writer: None,
        };
        assert(r@.active =~= Seq::<u64>::empty());
        r
    }

    /// Begins a transaction reading as of the latest commit: logs its begin
    /// record and adds it to the active ones.
    pub fn begin(&mut self) -> (r: Result<Transaction, CoreError>)
        requires
            old(self).wf(),
        ensures
            final(self).wf(),
            final(self)@.next_txid == following(old(self)@.next_txid),
            final(self)@.store == old(self)@.store,
            final(self)@.next_seq == old(self)@.next_seq,
            final(self)@.committed_seq == old(self)@.committed_seq,
            final(self)@.writer == old(self)@.writer,
            match r {
                Ok(t) => {
                    &&& t.wf()
                    &&& t@ == (TransactionModel {
                        id: old(self)@.next_txid,
                        snapshot_seq: old(self)@.committed_seq,
                        state: TransactionState::Active,
                        writes: Map::empty(),
                        reads: Map::empty(),
                    })
                    &&& final(self)@.wal == old(self)@.wal + spec_frame(
                        WalRecordModel::Begin { txid: old(self)@.next_txid },
                    )
                    &&& final(self)@.active == old(self)@.active.push(old(self)@.next_txid)
                },
                Err(e) => e is Storage && final(self)@.active == old(self)@.active,
            },
            old(self).infallible() ==> r is Ok && final(self).infallible(),
    {
        let txid = TransactionId(self.next_txid);
        self.next_txid = self.next_txid.wrapping_add(1);
        let snapshot_seq = SequenceNumber(self.committed_seq);
        let begin = WalRecord::Begin { txid };
        proof {
            lemma_frameable(begin@);
        }
        match self.wal.append(&begin) {
            Ok(_) => {},
            Err(e) => return Err(e),
        }
        self.active_txns.push(txid.0);
        Ok(Transaction::new(txid, snapshot_seq))
    }

    /// Begins the write transaction: only one is open at a time, so this is
    /// called only while none is.
    pub fn begin_write(&mut self) -> (r: Result<WriteTransaction, CoreError>)
        requires
            old(self).wf(),
            old(self)@.writer is None,
        ensures
            final(self).wf(),
            final(self)@.next_txid == following(old(self)@.next_txid),
            final(self)@.store == old(self)@.store,
            final(self)@.next_seq == old(self)@.next_seq,
            final(self)@.committed_seq == old(self)@.committed_seq,
            match r {
                Ok(w) => {
                    &&& w.txn().wf()
                    &&& w.txn()@ == (TransactionModel {
                        id: old(self)@.next_txid,
                        snapshot_seq: old(self)@.committed_seq,
                        state: TransactionState::Active,
                        writes: Map::empty(),
                        reads: Map::empty(),
                    })
                    &&& final(self)@.wal == old(self)@.wal + spec_frame(
                        WalRecordModel::Begin { txid: old(self)@.next_txid },
                    )
                    &&& final(self)@.active == old(self)@.active.push(old(self)@.next_txid)
                    &&& final(self)@.writer == Some(old(self)@.next_txid)
                },
                Err(e) => e is Storage && final(self)@.active == old(self)@.active
                    && final(self)@.writer is None,
            },
            old(self).infallible() ==> r is Ok && final(self).infallible(),
    {
        let txn = self.begin()?;
        self.writer = Some(txn.id().0);
        Ok(WriteTransaction { inner: txn })
    }

    /// Commits a transaction: see [`TransactionManager::commit_write`] for
    /// the write transaction. Called while no write transaction is open,
    /// since it takes the write slot for the time of the commit.
    pub fn commit(&mut self, txn: &mut Transaction) -> (r: Result<SequenceNumber, CoreError>)
        requires
            old(self).wf(),
            old(txn).wf(),
            old(self)@.writer is None,
        ensures
            final(self).wf(),
            final(txn).wf(),
            final(self)@.writer == old(self)@.writer,
            old(txn)@.state != TransactionState::Active ==> (r matches Err(
                CoreError::InvalidOperation(m),
            ) && m@ == "transaction not active"@ && final(self)@ == old(self)@),
            old(txn)@.state == TransactionState::Active && !all_storable(old(txn)@) ==> (r matches Err(
                CoreError::InvalidArgument(m),
            ) && m@ == "payload too large"@ && final(self)@ == old(self)@),
            r matches Ok(s) ==> old(txn)@.state == TransactionState::Active && committed(
                old(self)@,
                final(self)@,
                old(txn)@,
                s.0,
            ) && final(txn)@ == (TransactionModel {
                state: TransactionState::Committed,
                ..old(txn)@
            }),
            r is Err ==> final(txn)@ == old(txn)@ && final(self)@.active == old(self)@.active
                && final(self)@.committed_seq == old(self)@.committed_seq,
            old(self).infallible() ==> final(self).infallible() && !(r matches Err(e) && e is Storage),
            old(self).infallible() && old(txn)@.state == TransactionState::Active && old(txn)@.writes.dom()
                =~= Set::<EntityKey>::empty() ==> r is Ok,
            old(self).infallible() && old(txn)@.state == TransactionState::Active && all_storable(
                old(txn)@,
            ) ==> (r is Ok <==> fits(
                old(self)@.store,
                commit_records(old(txn).write_order(), old(self)@.next_seq),
            )),
    {
        self.commit_inner(txn)
    }

    /// Checks that every pending write fits the segment format.
    fn check_storable(writes: &[(TxnKey, PendingWrite)]) -> (r: bool)
        ensures
            r == forall|j: int| 0 <= j < writes@.len() ==> storable(#[trigger] writes@[j].1@),
    {
        let mut i: usize = 0;
        while i < writes.len()
            invariant
                i <= writes@.len(),
                forall|j: int| 0 <= j < i ==> storable(#[trigger] writes@[j].1@),
            decreases writes@.len() - i,
        {
            match &writes[i].1 {
                PendingWrite::Put { payload, .. } => {
                    if payload.len() > (u32::MAX - 37) as usize {
                        assert(!storable(writes@[i as int].1@));
                        return false;
                    }
                },
                PendingWrite::Delete { .. } => {},
            }
            i = i + 1;
        }
        true
    }

    /// Logs the pending writes and the commit record, then flushes the log.
    fn log_commit(
        &mut self,
        txid: TransactionId,
        writes: &[(TxnKey, PendingWrite)],
        sequence: SequenceNumber,
    ) -> (r: Result<(), CoreError>)
        requires
            old(self).wf(),
            forall|j: int| 0 <= j < writes@.len() ==> storable(#[trigger] writes@[j].1@),
        ensures
            final(self).wf(),
            final(self)@.store == old(self)@.store,
            final(self).next_txid == old(self).next_txid,
            final(self).next_seq == old(self).next_seq,
            final(self).committed_seq == old(self).committed_seq,
            final(self).active_txns == old(self).active_txns,
            final(self).writer == old(self).writer,
            r is Ok ==> final(self)@.wal == old(self)@.wal + spec_frames(
                commit_log(txid.0, writes@, sequence.0),
            ),
            r matches Err(e) ==> e is Storage,
            old(self).infallible() ==> r is Ok && final(self).infallible(),
    {
        let ghost w0 = self.wal@;
        let ghost ops = writes@.map_values(|e: (TxnKey, PendingWrite)| commit_op(txid.0, e));
        let mut i: usize = 0;
        while i < writes.len()
            invariant
                self.wf(),
                i <= writes@.len(),
                self.segments == old(self).segments,
                self.next_txid == old(self).next_txid,
                self.next_seq == old(self).next_seq,
                self.committed_seq == old(self).committed_seq,
                self.active_txns == old(self).active_txns,
                self.writer == old(self).writer,
                w0 == old(self)@.wal,
                ops == writes@.map_values(|e: (TxnKey, PendingWrite)| commit_op(txid.0, e)),
                forall|j: int| 0 <= j < writes@.len() ==> storable(#[trigger] writes@[j].1@),
                self.wal@ == w0 + spec_frames(ops.take(i as int)),
                old(self).infallible() ==> self.infallible(),
            decreases writes@.len() - i,
        {
            let entry = &writes[i];
            let collection_id = entry.0.0;
            let entity_id = entry.0.1.0;
            let record = match &entry.1 {
                PendingWrite::Put { payload, .. } => WalRecord::Put {
                    txid,
                    collection_id,
                    entity_id,
                    before_hash: None,
                    after_bytes: payload.clone(),
                },
                PendingWrite::Delete { .. } => WalRecord::Delete {
                    txid,
                    collection_id,
                    entity_id,
                    before_hash: None,
                },
            };
            assert(storable(writes@[i as int].1@));
            assert(record@ == ops[i as int]);
            proof {
                lemma_frameable(record@);
            }
            self.wal.append(&record)?;
            assert(ops.take(i + 1).drop_last() =~= ops.take(i as int));
            i = i + 1;
        }
        assert(ops.take(i as int) =~= ops);
        let commit = WalRecord::Commit { txid, sequence };
        proof {
            lemma_frameable(commit@);
        }
        self.wal.append(&commit)?;
        self.wal.flush()?;
        assert(commit_log(txid.0, writes@, sequence.0).drop_last() =~= ops);
        Ok(())
    }

    /// Applies the pending writes to the segments as records of `sequence`,
    /// then flushes the segments.
    fn apply_commit(&mut self, writes: &[(TxnKey, PendingWrite)], sequence: SequenceNumber) -> (r:
        Result<(), CoreError>)
        requires
            old(self).wf(),
            keys_unique(writes@),
            forall|j: int| 0 <= j < writes@.len() ==> storable(#[trigger] writes@[j].1@),
        ensures
            final(self).wf(),
            final(self)@.wal == old(self)@.wal,
            final(self).next_txid == old(self).next_txid,
            final(self).next_seq == old(self).next_seq,
            final(self).committed_seq == old(self).committed_seq,
            final(self).active_txns == old(self).active_txns,
            final(self).writer == old(self).writer,
            r is Ok ==> forall|j: int|
                0 <= j < writes@.len() ==> #[trigger] lookup(final(self)@.store, key_of(writes@[j].0))
                    == Some(commit_record(key_of(writes@[j].0), writes@[j].1@, sequence.0)),
            r is Ok ==> forall|k: EntityKey|
                (forall|j: int| 0 <= j < writes@.len() ==> key_of(#[trigger] writes@[j].0) != k)
                    ==> #[trigger] lookup(final(self)@.store, k) == lookup(old(self)@.store, k),
            r is Ok ==> keeps_snapshots(old(self)@.store, final(self)@.store, sequence.0),
            r is Ok && tidy(old(self)@.store) && seqs_below(old(self)@.store, sequence.0 as int)
                ==> fresh_after(store_records(final(self)@.store), writes@, writes@.len() as int, sequence.0),
            old(self).infallible() ==> final(self).infallible() && !(r matches Err(e) && e is Storage),
            old(self).infallible() && writes@.len() == 0 ==> r is Ok,
            old(self).infallible() ==> (r is Ok <==> fits(old(self)@.store, commit_records(writes@, sequence.0))),
    {
        let ghost s0 = self.segments@;
        let ghost recs = commit_records(writes@, sequence.0);
        assert(recs.skip(0) =~= recs);
        let mut i: usize = 0;
        while i < writes.len()
            invariant
                self.wf(),
                i <= writes@.len(),
                self.wal == old(self).wal,
                self.next_txid == old(self).next_txid,
                self.next_seq == old(self).next_seq,
                self.committed_seq == old(self).committed_seq,
                self.active_txns == old(self).active_txns,
                self.writer == old(self).writer,
                s0 == old(self)@.store,
                keys_unique(writes@),
                forall|j: int| 0 <= j < writes@.len() ==> storable(#[trigger] writes@[j].1@),
                forall|j: int|
                    0 <= j < i ==> #[trigger] lookup(self.segments@, key_of(writes@[j].0)) == Some(
                        commit_record(key_of(writes@[j].0), writes@[j].1@, sequence.0),
                    ),
                forall|k: EntityKey|
                    (forall|j: int| 0 <= j < i ==> key_of(#[trigger] writes@[j].0) != k)
                        ==> #[trigger] lookup(self.segments@, k) == lookup(s0, k),
                keeps_snapshots(s0, self.segments@, sequence.0),
                tidy(s0) && seqs_below(s0, sequence.0 as int) ==> fresh_after(
                    store_records(self.segments@),
                    writes@,
                    i as int,
                    sequence.0,
                ),
                old(self).infallible() ==> self.infallible(),
                recs == commit_records(writes@, sequence.0),
                old(self).infallible() ==> (fits(s0, recs) == fits(self.segments@, recs.skip(i as int))),
            decreases writes@.len() - i,
        {
            let entry = &writes[i];
            let collection_id = entry.0.0;
            let entity_id = entry.0.1.0;
            let ghost k = key_of(writes@[i as int].0);
            let ghost cur = self.segments@;
            assert(recs.skip(i as int)[0] == recs[i as int]);
            assert(recs.skip(i as int).skip(1) =~= recs.skip(i + 1));
            assert(storable(writes@[i as int].1@));
            let (record, n) = match &entry.1 {
                PendingWrite::Put { payload, .. } => {
                    let n = payload.len() + 37;
                    (SegmentRecord::put(collection_id, entity_id, payload.clone(), sequence), n)
                },
                PendingWrite::Delete { .. } => {
                    (SegmentRecord::tombstone(collection_id, entity_id, sequence), 37)
                },
            };
            assert(record@ == commit_record(k, writes@[i as int].1@, sequence.0));
            assert(seg_key(record@) == k);
            assert(n == record@.encoded_len());
            if !self.segments.has_room(n) {
                return Err(CoreError::invalid_operation("segment store is full"));
            }
            let ghost before = self.segments@;
            proof {
                self.segments.lemma_store_ok();
            }
            match self.segments.append(&record) {
                Ok(_) => {},
                Err(e) => return Err(e),
            }
            proof {
                if tidy(s0) && scan_all_spec(s0.segments) is Ok {
                    lemma_write_keeps_snapshots(before, n as int, record@);
                    assert(self.segments@ == written(pre_write(before, n as int, Seq::empty()), record@));
                    if seqs_below(s0, sequence.0 as int) {
                        let cur = store_records(before);
                        let p = choose|p: int|
                            0 <= p <= cur.len() && store_records(self.segments@) == #[trigger] cur.insert(
                                p,
                                record@,
                            );
                        lemma_fresh_step(cur, p, writes@, i as int, sequence.0);
                    }
                }
                assert forall|j: int| 0 <= j < i + 1 implies #[trigger] lookup(
                    self.segments@,
                    key_of(writes@[j].0),
                ) == Some(commit_record(key_of(writes@[j].0), writes@[j].1@, sequence.0)) by {
                    if j < i {
                        assert(key_of(writes@[j].0) != k);
                    }
                }
                assert forall|kk: EntityKey|
                    (forall|j: int| 0 <= j < i + 1 ==> key_of(#[trigger] writes@[j].0) != kk)
                        implies #[trigger] lookup(self.segments@, kk) == lookup(s0, kk) by {
                    assert(key_of(writes@[i as int].0) != kk);
                    assert(lookup(self.segments@, kk) == lookup(before, kk));
                }
            }
            i = i + 1;
        }
        assert(recs.skip(i as int) =~= Seq::<SegmentRecordModel>::empty());
        self.segments.flush()
    }

    fn commit_inner(&mut self, txn: &mut Transaction) -> (r: Result<SequenceNumber, CoreError>)
        requires
            old(self).wf(),
            old(txn).wf(),
        ensures
            final(self).wf(),
            final(txn).wf(),
            final(self)@.writer == old(self)@.writer,
            old(txn)@.state != TransactionState::Active ==> (r matches Err(
                CoreError::InvalidOperation(m),
            ) && m@ == "transaction not active"@ && final(self)@ == old(self)@),
            old(txn)@.state == TransactionState::Active && !all_storable(old(txn)@) ==> (r matches Err(
                CoreError::InvalidArgument(m),
            ) && m@ == "payload too large"@ && final(self)@ == old(self)@),
            r matches Ok(s) ==> old(txn)@.state == TransactionState::Active && committed(
                old(self)@,
                final(self)@,
                old(txn)@,
                s.0,
            ) && final(txn)@ == (TransactionModel {
                state: TransactionState::Committed,
                ..old(txn)@
            }),
            r is Err ==> final(txn)@ == old(txn)@ && final(self)@.active == old(self)@.active
                && final(self)@.committed_seq == old(self)@.committed_seq,
            old(self).infallible() ==> final(self).infallible() && !(r matches Err(e) && e is Storage),
            old(self).infallible() && old(txn)@.state == TransactionState::Active && old(txn)@.writes.dom()
                =~= Set::<EntityKey>::empty() ==> r is Ok,
            old(self).infallible() && old(txn)@.state == TransactionState::Active && all_storable(
                old(txn)@,
            ) ==> (r is Ok <==> fits(
                old(self)@.store,
                commit_records(old(txn).write_order(), old(self)@.next_seq),
            )),
    {
        if !txn.is_active() {
            return Err(CoreError::invalid_operation("transaction not active"));
        }
        let txid = txn.id();
        let ghost t0 = txn@;
        let ghost m0 = self@;
        let writes = txn.pending_writes();
        let ghost es = writes@;
        proof {
            assert(all_storable(t0) == forall|j: int|
                0 <= j < es.len() ==> storable(#[trigger] es[j].1@)) by {
                if all_storable(t0) {
                    assert forall|j: int| 0 <= j < es.len() implies storable(#[trigger] es[j].1@) by {
                        lemma_keyed_lookup(es, write_view(), j);
                    }
                } else {
                    let k = choose|k: EntityKey| t0.writes.contains_key(k) && !storable(
                        #[trigger] t0.writes[k],
                    );
                    if forall|j: int| 0 <= j < es.len() ==> key_of(es[j].0) != k {
                        lemma_keyed_absent(es, write_view(), k);
                    }
                    let j = choose|j: int| 0 <= j < es.len() && key_of(es[j].0) == k;
                    lemma_keyed_lookup(es, write_view(), j);
                }
            }
        }
        if !Self::check_storable(writes) {
            return Err(CoreError::invalid_argument("payload too large"));
        }
        proof {
            if es.len() > 0 {
                lemma_keyed_lookup(es, write_view(), 0);
                assert(t0.writes.dom().contains(key_of(es[0].0)));
            }
        }
        let sequence = SequenceNumber(self.next_seq);
        self.next_seq = self.next_seq.wrapping_add(1);
        self.log_commit(txid, writes, sequence)?;
        let ghost m1 = self@;
        self.apply_commit(writes, sequence)?;
        self.committed_seq = sequence.0;
        self.active_txns = without(&self.active_txns, txid.0);
        proof {
            let v = self@;
            assert(keyed_map(es, write_view()) == t0.writes);
            assert forall|k: EntityKey| t0.writes.contains_key(k) implies lookup(v.store, k) == Some(
                commit_record(k, t0.writes[k], sequence.0),
            ) && #[trigger] visible(v.store, k) == written_payload(t0.writes[k]) by {
                if forall|j: int| 0 <= j < es.len() ==> key_of(es[j].0) != k {
                    lemma_keyed_absent(es, write_view(), k);
                }
                let j = choose|j: int| 0 <= j < es.len() && key_of(es[j].0) == k;
                lemma_keyed_lookup(es, write_view(), j);
                assert(t0.writes[k] == es[j].1@);
                assert(lookup(v.store, key_of(es[j].0)) == Some(
                    commit_record(key_of(es[j].0), es[j].1@, sequence.0),
                ));
                assert(lookup(v.store, k) == Some(commit_record(k, t0.writes[k], sequence.0)));
                assert(0u8 & 1u8 == 0u8) by (bit_vector);
                assert(1u8 & 1u8 == 1u8) by (bit_vector);
                assert(seg_key(commit_record(k, t0.writes[k], sequence.0)) == k);
                lemma_latest_record_visible(v.store, commit_record(k, t0.writes[k], sequence.0));
            }
            assert forall|k: EntityKey| !t0.writes.contains_key(k) implies #[trigger] lookup(
                v.store,
                k,
            ) == lookup(m0.store, k) by {
                assert forall|j: int| 0 <= j < es.len() implies key_of(#[trigger] es[j].0) != k by {
                    lemma_keyed_lookup(es, write_view(), j);
                }
            }
            assert(keys_unique(es) && keyed_map(es, write_view()) == t0.writes && v.wal == m0.wal
                + spec_frames(commit_log(t0.id, es, sequence.0)));
            if tidy(m0.store) && seqs_below(m0.store, sequence.0 as int) {
                let cur = store_records(v.store);
                assert(fresh_after(cur, es, es.len() as int, sequence.0));
                assert forall|idx: int| 0 <= idx < cur.len() implies (#[trigger] cur[idx]).sequence
                    < sequence.0 + 1 by {
                }
                assert forall|k: EntityKey| t0.writes.contains_key(k) implies #[trigger] latest_at(
                    cur,
                    k,
                    sequence.0,
                ) == Some(commit_record(k, t0.writes[k], sequence.0)) by {
                    if forall|j: int| 0 <= j < es.len() ==> key_of(es[j].0) != k {
                        lemma_keyed_absent(es, write_view(), k);
                    }
                    let j = choose|j: int| 0 <= j < es.len() && key_of(es[j].0) == k;
                    lemma_keyed_lookup(es, write_view(), j);
                    assert(latest_at(cur, key_of(es[j].0), sequence.0) == Some(
                        commit_record(key_of(es[j].0), es[j].1@, sequence.0),
                    ));
                }
            }
        }
        txn.mark_committed();
        Ok(sequence)
    }

    /// Aborts a transaction: logs its abort record and drops its pending
    /// writes.
    pub fn abort(&mut self, txn: &mut Transaction) -> (r: Result<(), CoreError>)
        requires
            old(self).wf(),
            old(txn).wf(),
        ensures
            final(self).wf(),
            final(txn).wf(),
            final(self)@.store == old(self)@.store,
            final(self)@.next_txid == old(self)@.next_txid,
            final(self)@.next_seq == old(self)@.next_seq,
            final(self)@.committed_seq == old(self)@.committed_seq,
            final(self)@.writer == old(self)@.writer,
            old(txn)@.state != TransactionState::Active ==> (r matches Err(
                CoreError::InvalidOperation(m),
            ) && m@ == "transaction not active"@ && final(self)@ == old(self)@),
            r is Ok ==> old(txn)@.state == TransactionState::Active && final(self)@.wal == old(self)@.wal + spec_frame(WalRecordModel::Abort { txid: old(txn)@.id }) && final(self)@.active
                == old(self)@.active.filter(|x: u64| x != old(txn)@.id) && final(txn)@ == (
            TransactionModel { state: TransactionState::Aborted, ..old(txn)@ }),
            r matches Err(e) ==> final(txn)@ == old(txn)@ && final(self)@.active == old(self)@.active
                && (old(txn)@.state == TransactionState::Active ==> e is Storage),
            old(self).infallible() ==> final(self).infallible(),
            old(self).infallible() && old(txn)@.state == TransactionState::Active ==> r is Ok,
    {
        if !txn.is_active() {
            return Err(CoreError::invalid_operation("transaction not active"));
        }
        let txid = txn.id();
        let record = WalRecord::Abort { txid };
        proof {
            lemma_frameable(record@);
        }
        match self.wal.append(&record) {
            Ok(_) => {},
            Err(e) => return Err(e),
        }
        self.active_txns = without(&self.active_txns, txid.0);
        txn.mark_aborted();
        Ok(())
    }

    /// Reads an entity in a transaction: its pending write if it has one,
    /// else the segments as of the transaction's snapshot. A read from the
    /// segments is recorded in the read set with the content hash seen.
    pub fn get(&self, txn: &mut Transaction, collection_id: CollectionId, entity_id: EntityId) -> (r:
        Result<Option<Vec<u8>>, CoreError>)
        requires
            self.wf(),
            old(txn).wf(),
        ensures
            final(txn).wf(),
            old(txn)@.writes.contains_key((collection_id.0, entity_id.0@)) ==> (r matches Ok(v)
                && opt_bytes(v) == written_payload(old(txn)@.writes[(collection_id.0, entity_id.0@)])
                && final(txn)@ == old(txn)@),
            !old(txn)@.writes.contains_key((collection_id.0, entity_id.0@)) ==> match r {
                Ok(v) => scan_all_spec(self@.store.segments) matches Ok(es) && opt_bytes(v)
                    == snapshot_read(old(txn)@, es, (collection_id.0, entity_id.0@)) && final(txn)@
                    == (TransactionModel {
                    reads: old(txn)@.reads.insert((collection_id.0, entity_id.0@), read_hash(v)),
                    ..old(txn)@
                }),
                Err(e) => final(txn)@ == old(txn)@ && (e is Storage || (scan_all_spec(
                    self@.store.segments,
                ) is Err && decode_error_matches(scan_all_spec(self@.store.segments)->Err_0, e))),
            },
            self.infallible() ==> (r is Ok <==> (old(txn)@.writes.contains_key(
                (collection_id.0, entity_id.0@),
            ) || scan_all_spec(self@.store.segments) is Ok)),
    {
        match txn.get_pending_write(collection_id, entity_id) {
            Some(PendingWrite::Put { payload, .. }) => return Ok(Some(payload.clone())),
            Some(PendingWrite::Delete { .. }) => return Ok(None),
            None => {},
        }
        let snapshot_seq = txn.snapshot_seq();
        let result = self.segments.get_at_snapshot(
            collection_id,
            entity_id.as_bytes(),
            Some(snapshot_seq),
        )?;
        let observed = match &result {
            Some(payload) => Some(compute_content_hash(payload.as_slice())),
            None => None,
        };
        txn.record_read(collection_id, entity_id, observed);
        Ok(result)
    }

    /// Reads an entity in the write transaction, as [`TransactionManager::get`] does.
    pub fn get_write(
        &self,
        wtxn: &mut WriteTransaction,
        collection_id: CollectionId,
        entity_id: EntityId,
    ) -> (r: Result<Option<Vec<u8>>, CoreError>)
        requires
            self.wf(),
            old(wtxn).txn().wf(),
        ensures
            final(wtxn).txn().wf(),
            old(wtxn).txn()@.writes.contains_key((collection_id.0, entity_id.0@)) ==> (r matches Ok(v)
                && opt_bytes(v) == written_payload(
                old(wtxn).txn()@.writes[(collection_id.0, entity_id.0@)],
            ) && final(wtxn).txn()@ == old(wtxn).txn()@),
            !old(wtxn).txn()@.writes.contains_key((collection_id.0, entity_id.0@)) ==> match r {
                Ok(v) => scan_all_spec(self@.store.segments) matches Ok(es) && opt_bytes(v)
                    == snapshot_read(old(wtxn).txn()@, es, (collection_id.0, entity_id.0@)) && final(wtxn).txn()@ == (TransactionModel {
                    reads: old(wtxn).txn()@.reads.insert(
                        (collection_id.0, entity_id.0@),
                        read_hash(v),
                    ),
                    ..old(wtxn).txn()@
                }),
                Err(e) => final(wtxn).txn()@ == old(wtxn).txn()@ && (e is Storage || (scan_all_spec(
                    self@.store.segments,
                ) is Err && decode_error_matches(scan_all_spec(self@.store.segments)->Err_0, e))),
            },
            self.infallible() ==> (r is Ok <==> (old(wtxn).txn()@.writes.contains_key(
                (collection_id.0, entity_id.0@),
            ) || scan_all_spec(self@.store.segments) is Ok)),
    {
        self.get(&mut wtxn.inner, collection_id, entity_id)
    }

    /// Commits the write transaction, as [`TransactionManager::commit`]
    /// does, and frees the write slot once it has succeeded.
    pub fn commit_write(&mut self, wtxn: &mut WriteTransaction) -> (r: Result<SequenceNumber, CoreError>)
        requires
            old(self).wf(),
            old(wtxn).txn().wf(),
        ensures
            final(self).wf(),
            final(wtxn).txn().wf(),
            old(wtxn).txn()@.state != TransactionState::Active ==> (r matches Err(
                CoreError::InvalidOperation(m),
            ) && m@ == "transaction not active"@ && final(self)@ == old(self)@),
            old(wtxn).txn()@.state == TransactionState::Active && !all_storable(old(wtxn).txn()@)
                ==> (r matches Err(CoreError::InvalidArgument(m)) && m@ == "payload too large"@
                && final(self)@ == old(self)@),
            r matches Ok(s) ==> old(wtxn).txn()@.state == TransactionState::Active && committed(
                old(self)@,
                final(self)@,
                old(wtxn).txn()@,
                s.0,
            ) && final(wtxn).txn()@ == (TransactionModel {
                state: TransactionState::Committed,
                ..old(wtxn).txn()@
            }) && final(self)@.writer is None,
            r is Err ==> final(wtxn).txn()@ == old(wtxn).txn()@ && final(self)@.active == old(self)@.active && final(self)@.committed_seq == old(self)@.committed_seq && final(self)@.writer
                == old(self)@.writer,
            old(self).infallible() ==> final(self).infallible() && !(r matches Err(e) && e is Storage),
            old(self).infallible() && old(wtxn).txn()@.state == TransactionState::Active && old(
                wtxn,
            ).txn()@.writes.dom() =~= Set::<EntityKey>::empty() ==> r is Ok,
            old(self).infallible() && old(wtxn).txn()@.state == TransactionState::Active && all_storable(
                old(wtxn).txn()@,
            ) ==> (r is Ok <==> fits(
                old(self)@.store,
                commit_records(old(wtxn).txn().write_order(), old(self)@.next_seq),
            )),
    {
        let r = self.commit_inner(&mut wtxn.inner);
        if r.is_ok() {
            self.writer = None;
        }
        r
    }

    /// Aborts the write transaction, as [`TransactionManager::abort`] does,
    /// and frees the write slot once it has succeeded.
    pub fn abort_write(&mut self, wtxn: &mut WriteTransaction) -> (r: Result<(), CoreError>)
        requires
            old(self).wf(),
            old(wtxn).txn().wf(),
        ensures
            final(self).wf(),
            final(wtxn).txn().wf(),
            final(self)@.store == old(self)@.store,
            final(self)@.committed_seq == old(self)@.committed_seq,
            old(wtxn).txn()@.state != TransactionState::Active ==> (r matches Err(
                CoreError::InvalidOperation(m),
            ) && m@ == "transaction not active"@ && final(self)@ == old(self)@),
            r is Ok ==> old(wtxn).txn()@.state == TransactionState::Active && final(self)@.wal == old(self)@.wal + spec_frame(WalRecordModel::Abort { txid: old(wtxn).txn()@.id })
                && final(self)@.active == old(self)@.active.filter(
                |x: u64| x != old(wtxn).txn()@.id,
            ) && final(wtxn).txn()@ == (TransactionModel {
                state: TransactionState::Aborted,
                ..old(wtxn).txn()@
            }) && final(self)@.writer is None,
            r matches Err(e) ==> final(wtxn).txn()@ == old(wtxn).txn()@ && final(self)@.active == old(self)@.active && final(self)@.writer == old(self)@.writer,
            old(self).infallible() ==> final(self).infallible(),
            old(self).infallible() && old(wtxn).txn()@.state == TransactionState::Active ==> r is Ok,
    {
        let r = self.abort(&mut wtxn.inner);
        if r.is_ok() {
            self.writer = None;
        }
        r
    }

    /// Gives the write slot back for a write transaction that is dropped:
    /// one still active leaves the active ones without being logged as
    /// finished.
    pub fn release_write(&mut self, wtxn: WriteTransaction) -> (r: Transaction)
        requires
            old(self).wf(),
        ensures
            final(self).wf(),
            r == wtxn.txn(),
            final(self)@ == (ManagerView {
                active: if wtxn.txn()@.state == TransactionState::Active {
                    old(self)@.active.filter(|x: u64| x != wtxn.txn()@.id)
                } else {
                    old(self)@.active
                },
                writer: None,
                ..old(self)@
            }),
            final(self).infallible() == old(self).infallible(),
    {
        if wtxn.inner.is_active() {
            self.active_txns = without(&self.active_txns, wtxn.inner.id().0);
        }
        self.writer = None;
        wtxn.inner
    }

    /// The sequence number of the latest commit.
    pub fn committed_seq(&self) -> (r: SequenceNumber)
        ensures
            r.0 == self@.committed_seq,
    {
        SequenceNumber(self.committed_seq)
    }

    /// The number of transactions begun and not yet finished.
    pub fn active_count(&self) -> (r: usize)
        ensures
            r == self@.active.len(),
    {
        self.active_txns.len()
    }

    /// Takes a checkpoint: syncs the segments, which hold every committed
    /// write, logs a checkpoint record, flushes the log, then empties it.
    pub fn checkpoint(&mut self) -> (r: Result<(), CoreError>)
        requires
            old(self).wf(),
        ensures
            final(self).wf(),
            final(self)@.store == old(self)@.store,
            final(self)@.next_txid == old(self)@.next_txid,
            final(self)@.next_seq == old(self)@.next_seq,
            final(self)@.committed_seq == old(self)@.committed_seq,
            final(self)@.active == old(self)@.active,
            final(self)@.writer == old(self)@.writer,
            r is Ok ==> final(self)@.wal == Seq::<u8>::empty(),
            r matches Err(e) ==> e is Storage,
            old(self).infallible() ==> r is Ok && final(self).infallible(),
    {
        self.segments.sync()?;
        let sequence = SequenceNumber(self.committed_seq);
        let record = WalRecord::Checkpoint { sequence };
        proof {
            lemma_frameable(record@);
        }
        self.wal.append(&record)?;
        self.wal.flush()?;
        self.wal.clear()
    }
}

} // verus!
