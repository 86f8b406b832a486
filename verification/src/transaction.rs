//! Transaction state: the pending writes and the read set of one transaction.
//!
//! A transaction is active until it is committed or aborted; only an active
//! transaction accepts writes. Each entity has at most one pending write (the
//! latest), and a write captures the content hash observed by an earlier read
//! of the same entity, for optimistic conflict detection.

use crate::compaction::EntityKey;
use crate::error::CoreError;
use crate::types::{CollectionId, EntityId, SequenceNumber, TransactionId};
use crate::wal_record::hash_model;
use vstd::prelude::*;

verus! {

/// The name of what SHA-256 gives for a byte string.
pub uninterp spec fn sha256_digest(data: Seq<u8>) -> Seq<u8>;

/// SHA-256 of `data`, through the `sha2` crate.
///
/// Trusted: the result is the SHA-256 digest of the input, which is a
/// function of the input alone.
#[verifier::external_body]
fn sha256(data: &[u8]) -> (r: [u8; 32])
    ensures
        r@ == sha256_digest(data@),
{
    let mut hasher = <sha2::Sha256 as sha2::Digest>::new();
    sha2::Digest::update(&mut hasher, data);
    sha2::Digest::finalize(hasher).into()
}

/// The SHA-256 hash of entity content, used for conflict detection.
pub fn compute_content_hash(data: &[u8]) -> (r: [u8; 32])
    ensures
        r@ == sha256_digest(data@),
{
    sha256(data)
}

/// The key of an entity in a transaction's maps.
pub type TxnKey = (CollectionId, EntityId);

/// The mathematical key of an entity.
pub open spec fn key_of(k: TxnKey) -> EntityKey {
    (k.0.0, k.1.0@)
}

/// The map described by a list of (key, value) entries, later entries winning.
pub open spec fn keyed_map<V, W>(s: Seq<(TxnKey, V)>, f: spec_fn(V) -> W) -> Map<EntityKey, W>
    decreases s.len(),
{
    if s.len() == 0 {
        Map::empty()
    } else {
        keyed_map(s.drop_last(), f).insert(key_of(s.last().0), f(s.last().1))
    }
}

/// No key occurs twice in the entries.
pub open spec fn keys_unique<V>(s: Seq<(TxnKey, V)>) -> bool {
    forall|i: int, j: int| 0 <= i < j < s.len() ==> key_of(s[i].0) != key_of(s[j].0)
}

pub(crate) proof fn lemma_keyed_absent<V, W>(s: Seq<(TxnKey, V)>, f: spec_fn(V) -> W, k: EntityKey)
    requires
        forall|i: int| 0 <= i < s.len() ==> key_of(s[i].0) != k,
    ensures
        !keyed_map(s, f).contains_key(k),
    decreases s.len(),
{
    if s.len() > 0 {
        lemma_keyed_absent(s.drop_last(), f, k);
    }
}

pub(crate) proof fn lemma_keyed_lookup<V, W>(s: Seq<(TxnKey, V)>, f: spec_fn(V) -> W, i: int)
    requires
        keys_unique(s),
        0 <= i < s.len(),
    ensures
        keyed_map(s, f).contains_key(key_of(s[i].0)),
        keyed_map(s, f)[key_of(s[i].0)] == f(s[i].1),
    decreases s.len(),
{
    if i < s.len() - 1 {
        lemma_keyed_lookup(s.drop_last(), f, i);
    }
}

pub(crate) proof fn lemma_keyed_len<V, W>(s: Seq<(TxnKey, V)>, f: spec_fn(V) -> W)
    requires
        keys_unique(s),
    ensures
        keyed_map(s, f).dom().finite(),
        keyed_map(s, f).len() == s.len(),
    decreases s.len(),
{
    if s.len() > 0 {
        lemma_keyed_len(s.drop_last(), f);
        lemma_keyed_absent(s.drop_last(), f, key_of(s.last().0));
    }
}

pub(crate) proof fn lemma_keyed_update<V, W>(s: Seq<(TxnKey, V)>, f: spec_fn(V) -> W, i: int, e: (TxnKey, V))
    requires
        keys_unique(s),
        0 <= i < s.len(),
        key_of(e.0) == key_of(s[i].0),
    ensures
        keyed_map(s.update(i, e), f) == keyed_map(s, f).insert(key_of(e.0), f(e.1)),
        keys_unique(s.update(i, e)),
    decreases s.len(),
{
    let t = s.update(i, e);
    if i == s.len() - 1 {
        assert(t.drop_last() =~= s.drop_last());
        assert(keyed_map(t, f) =~= keyed_map(s, f).insert(key_of(e.0), f(e.1)));
    } else {
        lemma_keyed_update(s.drop_last(), f, i, e);
        assert(t.drop_last() =~= s.drop_last().update(i, e));
        assert(key_of(s.last().0) != key_of(e.0));
        assert(keyed_map(t, f) =~= keyed_map(s, f).insert(key_of(e.0), f(e.1)));
    }
}

pub(crate) proof fn lemma_keyed_push<V, W>(s: Seq<(TxnKey, V)>, f: spec_fn(V) -> W, e: (TxnKey, V))
    requires
        keys_unique(s),
        forall|i: int| 0 <= i < s.len() ==> key_of(s[i].0) != key_of(e.0),
    ensures
        keyed_map(s.push(e), f) == keyed_map(s, f).insert(key_of(e.0), f(e.1)),
        keys_unique(s.push(e)),
{
    assert(s.push(e).drop_last() =~= s);
}

/// Tells whether two entity keys are the same.
pub(crate) fn same_key(a: &TxnKey, b: &TxnKey) -> (r: bool)
    ensures
        r == (key_of(*a) == key_of(*b)),
{
    if a.0.0 != b.0.0 {
        return false;
    }
    let mut i: usize = 0;
    while i < 16
        invariant
            i <= 16,
            a.1.0@.len() == 16,
            b.1.0@.len() == 16,
            forall|k: int| 0 <= k < i ==> a.1.0@[k] == b.1.0@[k],
        decreases 16 - i,
    {
        if a.1.0[i] != b.1.0[i] {
            assert(a.1.0@[i as int] != b.1.0@[i as int]);
            return false;
        }
        i = i + 1;
    }
    assert(a.1.0@ =~= b.1.0@);
    true
}

/// Finds the entry with key `key`.
pub(crate) fn find_key<V>(entries: &Vec<(TxnKey, V)>, key: &TxnKey) -> (r: Option<usize>)
    ensures
        match r {
            Some(i) => i < entries@.len() && key_of(entries@[i as int].0) == key_of(*key),
            None => forall|i: int| 0 <= i < entries@.len() ==> key_of(entries@[i].0) != key_of(*key),
        },
{
    let mut i: usize = 0;
    while i < entries.len()
        invariant
            i <= entries@.len(),
            forall|j: int| 0 <= j < i ==> key_of(entries@[j].0) != key_of(*key),
        decreases entries@.len() - i,
    {
        if same_key(&entries[i].0, key) {
            return Some(i);
        }
        i = i + 1;
    }
    None
}

/// Sets the value of `key` among the entries: replaced where present,
/// appended otherwise.
pub(crate) fn set_entry<V, W>(entries: &mut Vec<(TxnKey, V)>, key: TxnKey, value: V, Ghost(f): Ghost<
    spec_fn(V) -> W,
>)
    requires
        keys_unique(old(entries)@),
    ensures
        keys_unique(final(entries)@),
        keyed_map(final(entries)@, f) == keyed_map(old(entries)@, f).insert(key_of(key), f(value)),
{
    match find_key(entries, &key) {
        Some(i) => {
            proof {
                lemma_keyed_update(entries@, f, i as int, (key, value));
            }
            entries.set(i, (key, value));
        },
        None => {
            proof {
                lemma_keyed_push(entries@, f, (key, value));
            }
            entries.push((key, value));
        },
    }
}

/// State of a transaction.
#[derive(Debug, Clone, Copy, PartialEq, Eq, Structural)]
pub enum TransactionState {
    /// The transaction is active and accepts operations.
    Active,
    /// The transaction has been committed.
    Committed,
    /// The transaction has been aborted.
    Aborted,
}

/// A pending write of a transaction.
#[derive(Debug, Clone)]
pub enum PendingWrite {
    /// Insert or update an entity.
    Put {
        /// Entity payload.
        payload: Vec<u8>,
        /// `Some(true)` for an update, `Some(false)` for an insert, `None`
        /// while not yet determined.
        is_update: Option<bool>,
        /// Hash of the entity's content before this write, if it existed.
        before_hash: Option<[u8; 32]>,
    },
    /// Delete an entity.
    Delete {
        /// Hash of the entity's content before this write, if it existed.
        before_hash: Option<[u8; 32]>,
    },
}

/// Mathematical model of a pending write.
pub enum PendingWriteModel {
    Put { payload: Seq<u8>, is_update: Option<bool>, before_hash: Option<Seq<u8>> },
    Delete { before_hash: Option<Seq<u8>> },
}

impl View for PendingWrite {
    type V = PendingWriteModel;

    open spec fn view(&self) -> PendingWriteModel {
        match self {
            PendingWrite::Put { payload, is_update, before_hash } => PendingWriteModel::Put {
                payload: payload@,
                is_update: *is_update,
                before_hash: hash_model(*before_hash),
            },
            PendingWrite::Delete { before_hash } => PendingWriteModel::Delete {
                before_hash: hash_model(*before_hash),
            },
        }
    }
}

/// Mathematical model of a transaction.
pub struct TransactionModel {
    pub id: u64,
    pub snapshot_seq: u64,
    pub state: TransactionState,
    /// The pending write of each written entity.
    pub writes: Map<EntityKey, PendingWriteModel>,
    /// The content hash observed by each read (`None`: the entity did not exist).
    pub reads: Map<EntityKey, Option<Seq<u8>>>,
}

/// The view of a pending write, as a function.
pub open spec fn write_view() -> spec_fn(PendingWrite) -> PendingWriteModel {
    |w: PendingWrite| w@
}

/// The view of an observed hash, as a function.
pub open spec fn read_view() -> spec_fn(Option<[u8; 32]>) -> Option<Seq<u8>> {
    |h: Option<[u8; 32]>| hash_model(h)
}

/// The hash a write to `k` records as the entity's previous content: the
/// one observed by a read of `k`, if any.
pub open spec fn before_hash_of(reads: Map<EntityKey, Option<Seq<u8>>>, k: EntityKey) -> Option<
    Seq<u8>,
> {
    if reads.contains_key(k) {
        reads[k]
    } else {
        None
    }
}

/// Message of the error raised when writing to a finished transaction.
pub open spec fn finished_message(s: TransactionState) -> Seq<char> {
    if s == TransactionState::Committed {
        "transaction already committed"@
    } else {
        "transaction already aborted"@
    }
}

/// An active transaction: its pending writes and read set.
#[derive(Debug)]
pub struct Transaction {
    id: TransactionId,
    snapshot_seq: SequenceNumber,
    state: TransactionState,
    writes: Vec<(TxnKey, PendingWrite)>,
    reads: Vec<(TxnKey, Option<[u8; 32]>)>,
}

impl View for Transaction {
    type V = TransactionModel;

    closed spec fn view(&self) -> TransactionModel {
        TransactionModel {
            id: self.id.0,
            snapshot_seq: self.snapshot_seq.0,
            state: self.state,
            writes: keyed_map(self.writes@, write_view()),
            reads: keyed_map(self.reads@, read_view()),
        }
    }
}

/// What a successful write of `w` to entity `k` does to a transaction.
pub open spec fn wrote(before: TransactionModel, after: TransactionModel, k: EntityKey, w: PendingWriteModel) -> bool {
    after == TransactionModel { writes: before.writes.insert(k, w), ..before }
}

/// What a refused write does: the transaction stays as it was and the error
/// says why.
pub open spec fn refused(before: TransactionModel, after: TransactionModel, r: Result<(), CoreError>) -> bool {
    &&& after == before
    &&& r matches Err(CoreError::InvalidOperation(m)) && m@ == finished_message(before.state)
}

impl Transaction {
    /// The entry lists have no repeated key.
    pub closed spec fn wf(self) -> bool {
        keys_unique(self.writes@) && keys_unique(self.reads@)
    }

    /// Creates an active transaction with no writes and no reads.
    pub fn new(id: TransactionId, snapshot_seq: SequenceNumber) -> (r: Self)
        ensures
            r.wf(),
            r@.id == id.0,
            r@.snapshot_seq == snapshot_seq.0,
            r@.state == TransactionState::Active,
            r@.writes == Map::<EntityKey, PendingWriteModel>::empty(),
            r@.reads == Map::<EntityKey, Option<Seq<u8>>>::empty(),
    {
        Transaction {
            id,
            snapshot_seq,
            state: TransactionState::Active,
            writes: Vec::new(),
            reads: Vec::new(),
        }
    }

    /// The transaction ID.
    pub fn id(&self) -> (r: TransactionId)
        ensures
            r.0 == self@.id,
    {
        self.id
    }

    /// The snapshot sequence number: reads see the database as of this point.
    pub fn snapshot_seq(&self) -> (r: SequenceNumber)
        ensures
            r.0 == self@.snapshot_seq,
    {
        self.snapshot_seq
    }

    /// The current state.
    pub fn state(&self) -> (r: TransactionState)
        ensures
            r == self@.state,
    {
        self.state
    }

    /// Tells whether the transaction is still active.
    pub fn is_active(&self) -> (r: bool)
        ensures
            r == (self@.state == TransactionState::Active),
    {
        match self.state {
            TransactionState::Active => true,
            _ => false,
        }
    }

    fn ensure_active(&self) -> (r: Result<(), CoreError>)
        ensures
            self@.state == TransactionState::Active ==> r is Ok,
            self@.state != TransactionState::Active ==> refused(self@, self@, r),
    {
        match self.state {
            TransactionState::Active => Ok(()),
            TransactionState::Committed => Err(
                CoreError::invalid_operation("transaction already committed"),
            ),
            TransactionState::Aborted => Err(
                CoreError::invalid_operation("transaction already aborted"),
            ),
        }
    }

    fn read_before_hash(&self, key: &TxnKey) -> (r: Option<[u8; 32]>)
        requires
            self.wf(),
        ensures
            hash_model(r) == before_hash_of(self@.reads, key_of(*key)),
    {
        match find_key(&self.reads, key) {
            Some(i) => {
                proof {
                    lemma_keyed_lookup(self.reads@, read_view(), i as int);
                }
                self.reads[i].1
            },
            None => {
                proof {
                    lemma_keyed_absent(self.reads@, read_view(), key_of(*key));
                }
                None
            },
        }
    }

    fn write(&mut self, key: TxnKey, w: PendingWrite)
        requires
            old(self).wf(),
        ensures
            final(self).wf(),
            wrote(old(self)@, final(self)@, key_of(key), w@),
    {
        set_entry::<PendingWrite, PendingWriteModel>(&mut self.writes, key, w, Ghost(write_view()));
    }

    /// Records a put of `payload`; whether it is an update is decided later.
    pub fn put(&mut self, collection_id: CollectionId, entity_id: EntityId, payload: Vec<u8>) -> (r:
        Result<(), CoreError>)
        requires
            old(self).wf(),
        ensures
            final(self).wf(),
            old(self)@.state == TransactionState::Active ==> r is Ok && wrote(
                old(self)@,
                final(self)@,
                (collection_id.0, entity_id.0@),
                PendingWriteModel::Put {
                    payload: payload@,
                    is_update: None,
                    before_hash: before_hash_of(old(self)@.reads, (collection_id.0, entity_id.0@)),
                },
            ),
            old(self)@.state != TransactionState::Active ==> refused(old(self)@, final(self)@, r),
    {
        self.ensure_active()?;
        let key = (collection_id, entity_id);
        let before_hash = self.read_before_hash(&key);
        self.write(key, PendingWrite::Put { payload, is_update: None, before_hash });
        Ok(())
    }

    /// Records a put of `payload` that is known to be an update or an insert.
    pub fn put_with_op_type(
        &mut self,
        collection_id: CollectionId,
        entity_id: EntityId,
        payload: Vec<u8>,
        is_update: bool,
    ) -> (r: Result<(), CoreError>)
        requires
            old(self).wf(),
        ensures
            final(self).wf(),
            old(self)@.state == TransactionState::Active ==> r is Ok && wrote(
                old(self)@,
                final(self)@,
                (collection_id.0, entity_id.0@),
                PendingWriteModel::Put {
                    payload: payload@,
                    is_update: Some(is_update),
                    before_hash: before_hash_of(old(self)@.reads, (collection_id.0, entity_id.0@)),
                },
            ),
            old(self)@.state != TransactionState::Active ==> refused(old(self)@, final(self)@, r),
    {
        self.ensure_active()?;
        let key = (collection_id, entity_id);
        let before_hash = self.read_before_hash(&key);
        self.write(key, PendingWrite::Put { payload, is_update: Some(is_update), before_hash });
        Ok(())
    }

    /// Records a delete.
    pub fn delete(&mut self, collection_id: CollectionId, entity_id: EntityId) -> (r: Result<
        (),
        CoreError,
    >)
        requires
            old(self).wf(),
        ensures
            final(self).wf(),
            old(self)@.state == TransactionState::Active ==> r is Ok && wrote(
                old(self)@,
                final(self)@,
                (collection_id.0, entity_id.0@),
                PendingWriteModel::Delete {
                    before_hash: before_hash_of(old(self)@.reads, (collection_id.0, entity_id.0@)),
                },
            ),
            old(self)@.state != TransactionState::Active ==> refused(old(self)@, final(self)@, r),
    {
        self.ensure_active()?;
        let key = (collection_id, entity_id);
        let before_hash = self.read_before_hash(&key);
        self.write(key, PendingWrite::Delete { before_hash });
        Ok(())
    }

    /// Records a read that observed `observed_hash` (`None`: the entity did
    /// not exist), unless the entity has already been written here.
    pub fn record_read(
        &mut self,
        collection_id: CollectionId,
        entity_id: EntityId,
        observed_hash: Option<[u8; 32]>,
    )
        requires
            old(self).wf(),
        ensures
            final(self).wf(),
            old(self)@.writes.contains_key((collection_id.0, entity_id.0@)) ==> final(self)@ == old(
                self,
            )@,
            !old(self)@.writes.contains_key((collection_id.0, entity_id.0@)) ==> final(self)@ == (
            TransactionModel {
                reads: old(self)@.reads.insert(
                    (collection_id.0, entity_id.0@),
                    hash_model(observed_hash),
                ),
                ..old(self)@
            }),
    {
        let key = (collection_id, entity_id);
        match find_key(&self.writes, &key) {
            Some(i) => {
                proof {
                    lemma_keyed_lookup(self.writes@, write_view(), i as int);
                }
            },
            None => {
                proof {
                    lemma_keyed_absent(self.writes@, write_view(), key_of(key));
                }
                set_entry::<Option<[u8; 32]>, Option<Seq<u8>>>(
                    &mut self.reads,
                    key,
                    observed_hash,
                    Ghost(read_view()),
                );
            },
        }
    }

    /// The pending write for an entity, if any.
    pub fn get_pending_write(&self, collection_id: CollectionId, entity_id: EntityId) -> (r: Option<
        &PendingWrite,
    >)
        requires
            self.wf(),
        ensures
            match r {
                Some(w) => self@.writes.contains_key((collection_id.0, entity_id.0@))
                    && self@.writes[(collection_id.0, entity_id.0@)] == w@,
                None => !self@.writes.contains_key((collection_id.0, entity_id.0@)),
            },
    {
        let key = (collection_id, entity_id);
        match find_key(&self.writes, &key) {
            Some(i) => {
                proof {
                    lemma_keyed_lookup(self.writes@, write_view(), i as int);
                }
                Some(&self.writes[i].1)
            },
            None => {
                proof {
                    lemma_keyed_absent(self.writes@, write_view(), key_of(key));
                }
                None
            },
        }
    }

    /// The pending writes in the order they are applied at commit.
    pub closed spec fn write_order(&self) -> Seq<(TxnKey, PendingWrite)> {
        self.writes@
    }

    /// All pending writes, each entity once.
    pub fn pending_writes(&self) -> (r: &[(TxnKey, PendingWrite)])
        requires
            self.wf(),
        ensures
            keys_unique(r@),
            keyed_map(r@, write_view()) == self@.writes,
            r@ == self.write_order(),
    {
        self.writes.as_slice()
    }

    /// The number of pending writes.
    pub fn write_count(&self) -> (r: usize)
        requires
            self.wf(),
        ensures
            r == self@.writes.len(),
    {
        proof {
            lemma_keyed_len(self.writes@, write_view());
        }
        self.writes.len()
    }

    /// The read set: each entity read (and not written) once, with the hash
    /// it observed.
    pub fn read_set(&self) -> (r: &[(TxnKey, Option<[u8; 32]>)])
        requires
            self.wf(),
        ensures
            keys_unique(r@),
            keyed_map(r@, read_view()) == self@.reads,
    {
        self.reads.as_slice()
    }

    /// The hash observed by a read of an entity: `None` if it was never read.
    pub fn get_read_hash(&self, collection_id: CollectionId, entity_id: EntityId) -> (r: Option<
        Option<[u8; 32]>,
    >)
        requires
            self.wf(),
        ensures
            match r {
                Some(h) => self@.reads.contains_key((collection_id.0, entity_id.0@))
                    && self@.reads[(collection_id.0, entity_id.0@)] == hash_model(h),
                None => !self@.reads.contains_key((collection_id.0, entity_id.0@)),
            },
    {
        let key = (collection_id, entity_id);
        match find_key(&self.reads, &key) {
            Some(i) => {
                proof {
                    lemma_keyed_lookup(self.reads@, read_view(), i as int);
                }
                Some(self.reads[i].1)
            },
            None => {
                proof {
                    lemma_keyed_absent(self.reads@, read_view(), key_of(key));
                }
                None
            },
        }
    }

    /// Marks the transaction as committed.
    pub fn mark_committed(&mut self)
        requires
            old(self).wf(),
        ensures
            final(self).wf(),
            final(self)@ == (TransactionModel { state: TransactionState::Committed, ..old(self)@ }),
    {
        self.state = TransactionState::Committed;
    }

    /// Marks the transaction as aborted.
    pub fn mark_aborted(&mut self)
        requires
            old(self).wf(),
        ensures
            final(self).wf(),
            final(self)@ == (TransactionModel { state: TransactionState::Aborted, ..old(self)@ }),
    {
        self.state = TransactionState::Aborted;
    }
}

} // verus!
