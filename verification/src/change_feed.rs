//! The change feed: committed changes, in commit order, for consumers to poll.
//!
//! Each emitted commit gets the next sequence number; all events of one
//! commit share it. Consumers poll the events after their cursor.

use crate::compaction::reverse_vec;
use crate::operation::{OperationType, SyncOperation, SyncOperationModel};
use vstd::prelude::*;

verus! {

/// Type of a change.
#[derive(Debug, Clone, Copy, PartialEq, Eq, Structural)]
pub enum ChangeType {
    /// The entity was inserted.
    Insert,
    /// The entity was updated.
    Update,
    /// The entity was deleted.
    Delete,
}

/// One committed change.
#[derive(Debug, Clone, PartialEq)]
pub struct ChangeEvent {
    /// Sequence number of the commit.
    pub sequence: u64,
    /// Collection ID.
    pub collection_id: u32,
    /// Entity ID.
    pub entity_id: [u8; 16],
    /// Type of change.
    pub change_type: ChangeType,
    /// New payload (insert and update).
    pub after_bytes: Option<Vec<u8>>,
    /// Hash of the previous payload (update and delete).
    pub before_hash: Option<[u8; 32]>,
}

impl ChangeEvent {
    /// An insert of `payload`.
    pub fn insert(sequence: u64, collection_id: u32, entity_id: [u8; 16], payload: Vec<u8>) -> (r:
        Self)
        ensures
            r == (ChangeEvent {
                sequence,
                collection_id,
                entity_id,
                change_type: ChangeType::Insert,
                after_bytes: Some(payload),
                before_hash: None,
            }),
    {
        ChangeEvent {
            sequence,
            collection_id,
            entity_id,
            change_type: ChangeType::Insert,
            after_bytes: Some(payload),
            before_hash: None,
        }
    }

    /// An update to `payload` of content that hashed to `before_hash`.
    pub fn update(
        sequence: u64,
        collection_id: u32,
        entity_id: [u8; 16],
        payload: Vec<u8>,
        before_hash: [u8; 32],
    ) -> (r: Self)
        ensures
            r == (ChangeEvent {
                sequence,
                collection_id,
                entity_id,
                change_type: ChangeType::Update,
                after_bytes: Some(payload),
                before_hash: Some(before_hash),
            }),
    {
        ChangeEvent {
            sequence,
            collection_id,
            entity_id,
            change_type: ChangeType::Update,
            after_bytes: Some(payload),
            before_hash: Some(before_hash),
        }
    }

    /// A delete of content that hashed to `before_hash`.
    pub fn delete(sequence: u64, collection_id: u32, entity_id: [u8; 16], before_hash: [u8; 32]) -> (r:
        Self)
        ensures
            r == (ChangeEvent {
                sequence,
                collection_id,
                entity_id,
                change_type: ChangeType::Delete,
                after_bytes: None,
                before_hash: Some(before_hash),
            }),
    {
        ChangeEvent {
            sequence,
            collection_id,
            entity_id,
            change_type: ChangeType::Delete,
            after_bytes: None,
            before_hash: Some(before_hash),
        }
    }

    /// The sync operation that replicates this change: a put of the new
    /// payload (empty if there is none) for an insert or update, a delete
    /// otherwise.
    pub fn to_sync_operation(&self, op_id: u64) -> (r: SyncOperation)
        ensures
            r@ == (SyncOperationModel {
                op_id,
                collection_id: self.collection_id,
                entity_id: self.entity_id@,
                op_type: if self.change_type == ChangeType::Delete {
                    OperationType::Delete
                } else {
                    OperationType::Put
                },
                payload: if self.change_type == ChangeType::Delete {
                    None
                } else {
                    match self.after_bytes {
                        Some(b) => Some(b@),
                        None => Some(Seq::empty()),
                    }
                },
                sequence: self.sequence,
            }),
    {
        match self.change_type {
            ChangeType::Insert | ChangeType::Update => {
                let payload = match &self.after_bytes {
                    Some(b) => {
                        let c = crate::bytes::copy_range(b.as_slice(), 0, b.len());
                        assert(c@ =~= b@);
                        c
                    },
                    None => {
                        let c: Vec<u8> = Vec::new();
                        assert(c@ =~= Seq::<u8>::empty());
                        c
                    },
                };
                SyncOperation::put(op_id, self.collection_id, self.entity_id, payload, self.sequence)
            },
            ChangeType::Delete => SyncOperation::delete(
                op_id,
                self.collection_id,
                self.entity_id,
                self.sequence,
            ),
        }
    }
}

/// Mathematical model of a change feed.
pub struct FeedModel {
    /// The events, in commit order.
    pub events: Seq<ChangeEvent>,
    /// The sequence number the next commit will get.
    pub next_sequence: u64,
}

impl FeedModel {
    /// Sequence numbers never decrease along the feed and stay below the next one.
    pub open spec fn ordered(self) -> bool {
        &&& forall|i: int, j: int|
            0 <= i <= j < self.events.len() ==> self.events[i].sequence <= self.events[j].sequence
        &&& forall|i: int| 0 <= i < self.events.len() ==> self.events[i].sequence < self.next_sequence
    }
}

/// The events of `s` with a sequence number after `cursor`, in order.
pub open spec fn events_after(s: Seq<ChangeEvent>, cursor: u64) -> Seq<ChangeEvent>
    decreases s.len(),
{
    if s.len() == 0 {
        Seq::empty()
    } else {
        let rest = events_after(s.drop_last(), cursor);
        if s.last().sequence > cursor {
            rest.push(s.last())
        } else {
            rest
        }
    }
}

/// The events of `s` with a sequence number of at least `min`, in order.
pub open spec fn events_from(s: Seq<ChangeEvent>, min: u64) -> Seq<ChangeEvent>
    decreases s.len(),
{
    if s.len() == 0 {
        Seq::empty()
    } else {
        let rest = events_from(s.drop_last(), min);
        if s.last().sequence >= min {
            rest.push(s.last())
        } else {
            rest
        }
    }
}

proof fn lemma_events_after_prefix(s: Seq<ChangeEvent>, cursor: u64, i: int)
    requires
        0 <= i <= s.len(),
    ensures
        events_after(s.take(i), cursor).len() <= events_after(s, cursor).len(),
        events_after(s, cursor).take(events_after(s.take(i), cursor).len() as int) == events_after(
            s.take(i),
            cursor,
        ),
    decreases s.len() - i,
{
    if i == s.len() {
        assert(s.take(i) =~= s);
        let p = events_after(s, cursor);
        assert(p.take(p.len() as int) =~= p);
    } else {
        lemma_events_after_prefix(s, cursor, i + 1);
        assert(s.take(i + 1).drop_last() =~= s.take(i));
        let p = events_after(s, cursor);
        let q1 = events_after(s.take(i + 1), cursor);
        let q = events_after(s.take(i), cursor);
        assert(p.take(q.len() as int) =~= q1.take(q.len() as int));
        assert(q1.take(q.len() as int) =~= q);
    }
}

proof fn lemma_events_from_members(s: Seq<ChangeEvent>, min: u64)
    ensures
        forall|k: int|
            0 <= k < events_from(s, min).len() ==> s.contains(#[trigger] events_from(s, min)[k]),
    decreases s.len(),
{
    if s.len() > 0 {
        lemma_events_from_members(s.drop_last(), min);
        let p = events_from(s, min);
        let q = events_from(s.drop_last(), min);
        assert forall|k: int| 0 <= k < p.len() implies s.contains(#[trigger] p[k]) by {
            if k < q.len() {
                assert(p[k] == q[k]);
                let w = choose|w: int| 0 <= w < s.drop_last().len() && s.drop_last()[w] == q[k];
                assert(s[w] == p[k]);
            } else {
                assert(s[s.len() - 1] == p[k]);
            }
        }
    }
}

proof fn lemma_events_from_order(s: Seq<ChangeEvent>, min: u64)
    requires
        forall|i: int, j: int| 0 <= i <= j < s.len() ==> s[i].sequence <= s[j].sequence,
    ensures
        forall|i: int, j: int|
            0 <= i <= j < events_from(s, min).len() ==> events_from(s, min)[i].sequence
                <= events_from(s, min)[j].sequence,
    decreases s.len(),
{
    if s.len() > 0 {
        lemma_events_from_order(s.drop_last(), min);
        lemma_events_from_members(s.drop_last(), min);
        let p = events_from(s, min);
        let q = events_from(s.drop_last(), min);
        assert forall|i: int, j: int| 0 <= i <= j < p.len() implies p[i].sequence <= p[j].sequence by {
            if j < q.len() {
                assert(p[i] == q[i] && p[j] == q[j]);
            } else if i < q.len() {
                let w = choose|w: int| 0 <= w < s.drop_last().len() && s.drop_last()[w] == q[i];
                assert(s[w] == p[i]);
                assert(p[j] == s.last());
                assert(s[s.len() - 1] == s.last());
            }
        }
    }
}

/// A feed of committed changes.
pub struct ChangeFeed {
    events: Vec<ChangeEvent>,
    next_sequence: u64,
}

impl View for ChangeFeed {
    type V = FeedModel;

    closed spec fn view(&self) -> FeedModel {
        FeedModel { events: self.events@, next_sequence: self.next_sequence }
    }
}

impl Default for ChangeFeed {
    fn default() -> (r: Self)
        ensures
            r@.ordered(),
            r@ == (FeedModel { events: Seq::empty(), next_sequence: 1 }),
    {
        ChangeFeed::new()
    }
}

impl ChangeFeed {
    /// Creates an empty feed whose first commit gets sequence 1.
    pub fn new() -> (r: Self)
        ensures
            r@.ordered(),
            r@ == (FeedModel { events: Seq::empty(), next_sequence: 1 }),
    {
        ChangeFeed { events: Vec::new(), next_sequence: 1 }
    }

    /// Creates an empty feed whose first commit gets sequence `sequence`.
    pub fn from_sequence(sequence: u64) -> (r: Self)
        ensures
            r@.ordered(),
            r@ == (FeedModel { events: Seq::empty(), next_sequence: sequence }),
    {
        ChangeFeed { events: Vec::new(), next_sequence: sequence }
    }

    /// Emits one event as a commit of its own, under the next sequence number.
    pub fn emit(&mut self, event: ChangeEvent)
        requires
            old(self)@.ordered(),
            old(self)@.next_sequence < u64::MAX,
        ensures
            final(self)@.ordered(),
            final(self)@ == (FeedModel {
                events: old(self)@.events.push(
                    ChangeEvent { sequence: old(self)@.next_sequence, ..event },
                ),
                next_sequence: (old(self)@.next_sequence + 1) as u64,
            }),
    {
        let mut event = event;
        event.sequence = self.next_sequence;
        self.next_sequence = self.next_sequence + 1;
        self.events.push(event);
    }

    /// Emits the events of one commit: they all get the next sequence number.
    pub fn emit_batch(&mut self, events: Vec<ChangeEvent>)
        requires
            old(self)@.ordered(),
            old(self)@.next_sequence < u64::MAX,
        ensures
            final(self)@.ordered(),
            final(self)@.next_sequence == old(self)@.next_sequence + 1,
            final(self)@.events.len() == old(self)@.events.len() + events@.len(),
            final(self)@.events.take(old(self)@.events.len() as int) == old(self)@.events,
            forall|k: int|
                0 <= k < events@.len() ==> #[trigger] final(self)@.events[old(self)@.events.len() + k]
                    == (ChangeEvent { sequence: old(self)@.next_sequence, ..events@[k] }),
    {
        let seq = self.next_sequence;
        self.next_sequence = self.next_sequence + 1;
        let ghost src = events@;
        let ghost base = self.events@;
        let n = events.len();
        let mut rev = reverse_vec(events);
        let mut i: usize = 0;
        while i < n
            invariant
                i <= n,
                n == src.len(),
                rev@ == src.subrange(i as int, n as int).reverse(),
                self.next_sequence == seq + 1,
                seq == old(self)@.next_sequence,
                base == old(self)@.events,
                self.events@.len() == base.len() + i,
                self.events@.take(base.len() as int) == base,
                forall|k: int|
                    0 <= k < i ==> #[trigger] self.events@[base.len() + k] == (ChangeEvent {
                        sequence: seq,
                        ..src[k]
                    }),
                (FeedModel { events: base, next_sequence: seq }).ordered(),
            decreases n - i,
        {
            proof {
                assert(rev@.len() > 0);
                assert(rev@.last() == src[i as int]);
                assert(rev@.drop_last() =~= src.subrange(i + 1, n as int).reverse());
            }
            let mut e = rev.pop().unwrap();
            e.sequence = seq;
            self.events.push(e);
            proof {
                assert(self.events@.take(base.len() as int) =~= base);
            }
            i = i + 1;
        }
        proof {
            let evs = self.events@;
            assert forall|a: int, b: int| 0 <= a <= b < evs.len() implies evs[a].sequence
                <= evs[b].sequence by {
                if b >= base.len() {
                    assert(evs[b] == evs[base.len() + (b - base.len())]);
                    if a >= base.len() {
                        assert(evs[a] == evs[base.len() + (a - base.len())]);
                    } else {
                        assert(evs[a] == base[a]);
                    }
                } else {
                    assert(evs[a] == base[a] && evs[b] == base[b]);
                }
            }
            assert forall|a: int| 0 <= a < evs.len() implies evs[a].sequence < self.next_sequence by {
                if a >= base.len() {
                    assert(evs[a] == evs[base.len() + (a - base.len())]);
                } else {
                    assert(evs[a] == base[a]);
                }
            }
        }
    }

    /// The events after `cursor`, in commit order, at most `limit` of them.
    pub fn poll(&self, cursor: u64, limit: usize) -> (r: Vec<&ChangeEvent>)
        requires
            self@.ordered(),
        ensures
            r@.len() == if limit < events_after(self@.events, cursor).len() {
                limit as int
            } else {
                events_after(self@.events, cursor).len() as int
            },
            forall|i: int|
                0 <= i < r@.len() ==> *(#[trigger] r@[i]) == events_after(self@.events, cursor)[i],
    {
        let ghost s = self.events@;
        let mut out: Vec<&ChangeEvent> = Vec::new();
        let mut i: usize = 0;
        while i < self.events.len() && out.len() < limit
            invariant
                s == self.events@,
                i <= s.len(),
                out@.len() <= limit,
                out@.len() <= events_after(s.take(i as int), cursor).len(),
                out@.len() == limit || out@.len() == events_after(s.take(i as int), cursor).len(),
                forall|k: int|
                    0 <= k < out@.len() ==> *(#[trigger] out@[k]) == events_after(
                        s.take(i as int),
                        cursor,
                    )[k],
            decreases s.len() - i,
        {
            proof {
                assert(s.take(i + 1).drop_last() =~= s.take(i as int));
            }
            if self.events[i].sequence > cursor {
                out.push(&self.events[i]);
            }
            i = i + 1;
        }
        proof {
            let full = events_after(s, cursor);
            let p = events_after(s.take(i as int), cursor);
            lemma_events_after_prefix(s, cursor, i as int);
            if i == s.len() {
                assert(s.take(i as int) =~= s);
            }
            assert forall|k: int| 0 <= k < out@.len() implies *(#[trigger] out@[k]) == full[k] by {
                assert(full.take(p.len() as int)[k] == full[k]);
            }
        }
        out
    }

    /// The sequence number of the latest commit (0 before any).
    pub fn latest_sequence(&self) -> (r: u64)
        ensures
            r == if self@.next_sequence == 0 {
                0
            } else {
                self@.next_sequence - 1
            },
    {
        if self.next_sequence == 0 {
            0
        } else {
            self.next_sequence - 1
        }
    }

    /// The number of events.
    pub fn len(&self) -> (r: usize)
        ensures
            r == self@.events.len(),
    {
        self.events.len()
    }

    /// Tells whether the feed holds no events.
    pub fn is_empty(&self) -> (r: bool)
        ensures
            r == (self@.events.len() == 0),
    {
        self.events.len() == 0
    }

    /// Drops the events of commits before `sequence`.
    pub fn truncate_before(&mut self, sequence: u64)
        requires
            old(self)@.ordered(),
        ensures
            final(self)@.ordered(),
            final(self)@ == (FeedModel {
                events: events_from(old(self)@.events, sequence),
                next_sequence: old(self)@.next_sequence,
            }),
    {
        let mut taken: Vec<ChangeEvent> = Vec::new();
        std::mem::swap(&mut taken, &mut self.events);
        let ghost src = taken@;
        let n = taken.len();
        let mut rev = reverse_vec(taken);
        let mut i: usize = 0;
        while i < n
            invariant
                i <= n,
                n == src.len(),
                src == old(self)@.events,
                rev@ == src.subrange(i as int, n as int).reverse(),
                self.events@ == events_from(src.take(i as int), sequence),
                self.next_sequence == old(self)@.next_sequence,
            decreases n - i,
        {
            proof {
                assert(rev@.len() > 0);
                assert(rev@.last() == src[i as int]);
                assert(rev@.drop_last() =~= src.subrange(i + 1, n as int).reverse());
                assert(src.take(i + 1).drop_last() =~= src.take(i as int));
                assert(src.take(i + 1).last() == src[i as int]);
            }
            let e = rev.pop().unwrap();
            if e.sequence >= sequence {
                self.events.push(e);
            }
            i = i + 1;
        }
        proof {
            assert(src.take(n as int) =~= src);
            lemma_events_from_order(src, sequence);
            lemma_events_from_members(src, sequence);
            let evs = self.events@;
            assert forall|a: int| 0 <= a < evs.len() implies evs[a].sequence < self.next_sequence by {
                let w = choose|w: int| 0 <= w < src.len() && src[w] == evs[a];
            }
        }
    }

    /// Removes all events.
    pub fn clear(&mut self)
        ensures
            final(self)@ == (FeedModel { events: Seq::empty(), next_sequence: old(self)@.next_sequence }),
            final(self)@.ordered(),
    {
        self.events.clear();
    }
}

} // verus!
