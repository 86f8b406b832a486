//! The logical oplog: local operations waiting to be pushed to the server.
//!
//! Operations get increasing IDs in commit order; the server acknowledges
//! them up to an ID, and acknowledged operations at the front can be
//! compacted away.

use crate::operation::{SyncOperation, SyncOperationModel};
use vstd::prelude::*;

verus! {

/// An entry of the oplog.
#[derive(Debug, Clone, PartialEq)]
pub struct OplogEntry {
    /// The operation.
    pub operation: SyncOperation,
    /// Whether the server has acknowledged it.
    pub acknowledged: bool,
}

impl OplogEntry {
    /// An unacknowledged entry.
    pub fn new(operation: SyncOperation) -> (r: Self)
        ensures
            r.operation == operation,
            !r.acknowledged,
    {
        OplogEntry { operation, acknowledged: false }
    }

    /// Marks the entry as acknowledged.
    pub fn acknowledge(&mut self)
        ensures
            final(self).operation == old(self).operation,
            final(self).acknowledged,
    {
        self.acknowledged = true;
    }
}

/// The operations of `ops` whose flag in `acked` is not set, in order.
pub open spec fn pending_ops(ops: Seq<SyncOperationModel>, acked: Seq<bool>) -> Seq<
    SyncOperationModel,
>
    decreases ops.len(),
{
    if ops.len() == 0 {
        Seq::empty()
    } else {
        let rest = pending_ops(ops.drop_last(), acked.drop_last());
        if acked.last() {
            rest
        } else {
            rest.push(ops.last())
        }
    }
}

/// The operations of `s` whose ID is above `x`, in order.
pub open spec fn ops_above(s: Seq<SyncOperationModel>, x: u64) -> Seq<SyncOperationModel>
    decreases s.len(),
{
    if s.len() == 0 {
        Seq::empty()
    } else {
        let rest = ops_above(s.drop_last(), x);
        if s.last().op_id > x {
            rest.push(s.last())
        } else {
            rest
        }
    }
}

/// Acknowledging every operation with an ID up to `x` leaves pending the
/// pending operations with an ID above `x`.
pub proof fn lemma_ack_pending(ops: Seq<SyncOperationModel>, a: Seq<bool>, a2: Seq<bool>, x: u64)
    requires
        ops.len() == a.len(),
        a2.len() == a.len(),
        forall|i: int| 0 <= i < a.len() ==> #[trigger] a2[i] == (a[i] || ops[i].op_id <= x),
    ensures
        pending_ops(ops, a2) == ops_above(pending_ops(ops, a), x),
    decreases ops.len(),
{
    if ops.len() > 0 {
        let n = ops.len() - 1;
        assert forall|i: int| 0 <= i < a.drop_last().len() implies #[trigger] a2.drop_last()[i] == (
        a.drop_last()[i] || ops.drop_last()[i].op_id <= x) by {
            assert(a2[i] == (a[i] || ops[i].op_id <= x));
        }
        lemma_ack_pending(ops.drop_last(), a.drop_last(), a2.drop_last(), x);
        assert(a2[n] == (a[n] || ops[n].op_id <= x));
        let p = pending_ops(ops.drop_last(), a.drop_last());
        if !a.last() {
            assert(pending_ops(ops, a) == p.push(ops.last()));
            assert(p.push(ops.last()).drop_last() =~= p);
            assert(p.push(ops.last()).last() == ops.last());
        }
    }
}

/// The number of acknowledged entries at the front.
pub open spec fn leading_acked(acked: Seq<bool>) -> nat
    decreases acked.len(),
{
    if acked.len() > 0 && acked[0] {
        1 + leading_acked(acked.drop_first())
    } else {
        0
    }
}

/// Mathematical model of an oplog.
pub struct OplogModel {
    /// The operations, in commit order.
    pub ops: Seq<SyncOperationModel>,
    /// Whether each operation has been acknowledged.
    pub acked: Seq<bool>,
    pub next_op_id: u64,
    pub last_acked_op_id: u64,
    pub server_cursor: u64,
}

/// A log of local operations to push to the server.
pub struct LogicalOplog {
    ops: Vec<SyncOperation>,
    acked: Vec<bool>,
    next_op_id: u64,
    last_acked_op_id: u64,
    server_cursor: u64,
}

impl View for LogicalOplog {
    type V = OplogModel;

    closed spec fn view(&self) -> OplogModel {
        OplogModel {
            ops: self.ops@.map_values(|o: SyncOperation| o@),
            acked: self.acked@,
            next_op_id: self.next_op_id,
            last_acked_op_id: self.last_acked_op_id,
            server_cursor: self.server_cursor,
        }
    }
}

impl OplogModel {
    /// Operation IDs increase along the log and stay below the next ID.
    pub open spec fn ordered(self) -> bool {
        &&& self.ops.len() == self.acked.len()
        &&& forall|i: int, j: int|
            0 <= i < j < self.ops.len() ==> self.ops[i].op_id < self.ops[j].op_id
        &&& forall|i: int| 0 <= i < self.ops.len() ==> self.ops[i].op_id < self.next_op_id
    }
}

impl Default for LogicalOplog {
    fn default() -> (r: Self)
        ensures
            r@.ordered(),
            r@.ops.len() == 0,
            r@.next_op_id == 1,
            r@.last_acked_op_id == 0,
            r@.server_cursor == 0,
    {
        LogicalOplog::new()
    }
}

proof fn lemma_pending_len(ops: Seq<SyncOperationModel>, acked: Seq<bool>)
    requires
        ops.len() == acked.len(),
    ensures
        pending_ops(ops, acked).len() <= ops.len(),
    decreases ops.len(),
{
    if ops.len() > 0 {
        lemma_pending_len(ops.drop_last(), acked.drop_last());
    }
}

impl LogicalOplog {
    /// Creates an empty oplog whose first operation will get ID 1.
    pub fn new() -> (r: Self)
        ensures
            r@.ordered(),
            r@.ops.len() == 0,
            r@.next_op_id == 1,
            r@.last_acked_op_id == 0,
            r@.server_cursor == 0,
    {
        LogicalOplog {
            ops: Vec::new(),
            acked: Vec::new(),
            next_op_id: 1,
            last_acked_op_id: 0,
            server_cursor: 0,
        }
    }

    /// Creates an empty oplog from persisted counters.
    pub fn from_state(next_op_id: u64, last_acked_op_id: u64, server_cursor: u64) -> (r: Self)
        ensures
            r@.ordered(),
            r@.ops.len() == 0,
            r@.next_op_id == next_op_id,
            r@.last_acked_op_id == last_acked_op_id,
            r@.server_cursor == server_cursor,
    {
        LogicalOplog { ops: Vec::new(), acked: Vec::new(), next_op_id, last_acked_op_id, server_cursor }
    }

    /// Appends an operation under the next operation ID, and returns that ID.
    pub fn append(&mut self, operation: SyncOperation) -> (r: u64)
        requires
            old(self)@.ordered(),
            old(self)@.next_op_id < u64::MAX,
        ensures
            final(self)@.ordered(),
            r == old(self)@.next_op_id,
            final(self)@ == (OplogModel {
                ops: old(self)@.ops.push(SyncOperationModel { op_id: r, ..operation@ }),
                acked: old(self)@.acked.push(false),
                next_op_id: (r + 1) as u64,
                ..old(self)@
            }),
    {
        let op_id = self.next_op_id;
        self.next_op_id = self.next_op_id + 1;
        let mut operation = operation;
        operation.op_id = op_id;
        self.ops.push(operation);
        self.acked.push(false);
        proof {
            let m = old(self)@.ops.push(SyncOperationModel { op_id, ..operation@ });
            assert(self.ops@.map_values(|o: SyncOperation| o@) =~= m);
        }
        op_id
    }

    /// The operations not yet acknowledged, in order.
    pub fn pending(&self) -> (r: Vec<&SyncOperation>)
        requires
            self@.ordered(),
        ensures
            r@.len() == pending_ops(self@.ops, self@.acked).len(),
            forall|i: int| 0 <= i < r@.len() ==> (#[trigger] r@[i])@ == pending_ops(self@.ops, self@.acked)[i],
    {
        proof {
            lemma_pending_len(self@.ops, self@.acked);
        }
        self.pending_batch(self.ops.len())
    }

    /// The first `limit` operations not yet acknowledged, in order.
    pub fn pending_batch(&self, limit: usize) -> (r: Vec<&SyncOperation>)
        requires
            self@.ordered(),
        ensures
            r@.len() == if limit < pending_ops(self@.ops, self@.acked).len() {
                limit as int
            } else {
                pending_ops(self@.ops, self@.acked).len() as int
            },
            forall|i: int| 0 <= i < r@.len() ==> (#[trigger] r@[i])@ == pending_ops(self@.ops, self@.acked)[i],
    {
        let ghost m = self@;
        let mut out: Vec<&SyncOperation> = Vec::new();
        let mut i: usize = 0;
        while i < self.ops.len() && out.len() < limit
            invariant
                m == self@,
                m.ordered(),
                i <= self.ops@.len(),
                out@.len() <= limit,
                out@.len() <= pending_ops(m.ops.take(i as int), m.acked.take(i as int)).len(),
                out@.len() == limit || out@.len() == pending_ops(m.ops.take(i as int), m.acked.take(i as int)).len(),
                forall|k: int| 0 <= k < out@.len() ==> (#[trigger] out@[k])@ == pending_ops(
                    m.ops.take(i as int),
                    m.acked.take(i as int),
                )[k],
            decreases self.ops@.len() - i,
        {
            let ghost p = pending_ops(m.ops.take(i as int), m.acked.take(i as int));
            proof {
                assert(m.ops.take(i + 1).drop_last() =~= m.ops.take(i as int));
                assert(m.acked.take(i + 1).drop_last() =~= m.acked.take(i as int));
            }
            if !self.acked[i] {
                out.push(&self.ops[i]);
            }
            i = i + 1;
        }
        proof {
            let full = pending_ops(m.ops, m.acked);
            let p = pending_ops(m.ops.take(i as int), m.acked.take(i as int));
            lemma_pending_prefix(m.ops, m.acked, i as int);
            if i == self.ops@.len() {
                assert(m.ops.take(i as int) =~= m.ops);
                assert(m.acked.take(i as int) =~= m.acked);
            }
            assert forall|k: int| 0 <= k < out@.len() implies (#[trigger] out@[k])@ == full[k] by {
                assert(full.take(p.len() as int)[k] == full[k]);
            }
        }
        out
    }

    /// The number of operations not yet acknowledged.
    pub fn pending_count(&self) -> (r: usize)
        requires
            self@.ordered(),
        ensures
            r == pending_ops(self@.ops, self@.acked).len(),
    {
        let ghost m = self@;
        let mut count: usize = 0;
        let mut i: usize = 0;
        while i < self.ops.len()
            invariant
                m == self@,
                m.ordered(),
                i <= self.ops@.len(),
                count == pending_ops(m.ops.take(i as int), m.acked.take(i as int)).len(),
            decreases self.ops@.len() - i,
        {
            proof {
                assert(m.ops.take(i + 1).drop_last() =~= m.ops.take(i as int));
                assert(m.acked.take(i + 1).drop_last() =~= m.acked.take(i as int));
                lemma_pending_len(m.ops.take(i as int), m.acked.take(i as int));
            }
            if !self.acked[i] {
                count = count + 1;
            }
            i = i + 1;
        }
        assert(m.ops.take(i as int) =~= m.ops);
        assert(m.acked.take(i as int) =~= m.acked);
        count
    }

    /// Acknowledges every operation whose ID is at most `op_id`.
    pub fn acknowledge_up_to(&mut self, op_id: u64)
        requires
            old(self)@.ordered(),
        ensures
            final(self)@.ordered(),
            final(self)@.ops == old(self)@.ops,
            final(self)@.acked.len() == old(self)@.acked.len(),
            forall|i: int|
                0 <= i < final(self)@.acked.len() ==> #[trigger] final(self)@.acked[i] == (old(
                    self,
                )@.acked[i] || old(self)@.ops[i].op_id <= op_id),
            final(self)@.last_acked_op_id == if op_id > old(self)@.last_acked_op_id {
                op_id
            } else {
                old(self)@.last_acked_op_id
            },
            final(self)@.next_op_id == old(self)@.next_op_id,
            final(self)@.server_cursor == old(self)@.server_cursor,
    {
        let ghost m = self@;
        let mut i: usize = 0;
        while i < self.ops.len()
            invariant
                m == old(self)@,
                self.ops@.map_values(|o: SyncOperation| o@) == m.ops,
                self.ops@.len() == self.acked@.len(),
                i <= self.ops@.len(),
                self.next_op_id == m.next_op_id,
                self.last_acked_op_id == m.last_acked_op_id,
                self.server_cursor == m.server_cursor,
                forall|k: int|
                    0 <= k < self.acked@.len() ==> #[trigger] self.acked@[k] == if k < i {
                        m.acked[k] || m.ops[k].op_id <= op_id
                    } else {
                        m.acked[k]
                    },
            decreases self.ops@.len() - i,
        {
            if self.ops[i].op_id <= op_id {
                self.acked.set(i, true);
            }
            i = i + 1;
        }
        if op_id > self.last_acked_op_id {
            self.last_acked_op_id = op_id;
        }
    }

    /// Sets the server cursor.
    pub fn set_server_cursor(&mut self, cursor: u64)
        ensures
            final(self)@ == (OplogModel { server_cursor: cursor, ..old(self)@ }),
    {
        self.server_cursor = cursor;
    }

    /// The server cursor: the last position received from the server.
    pub fn server_cursor(&self) -> (r: u64)
        ensures
            r == self@.server_cursor,
    {
        self.server_cursor
    }

    /// The highest operation ID acknowledged.
    pub fn last_acked_op_id(&self) -> (r: u64)
        ensures
            r == self@.last_acked_op_id,
    {
        self.last_acked_op_id
    }

    /// The ID the next appended operation will get.
    pub fn next_op_id(&self) -> (r: u64)
        ensures
            r == self@.next_op_id,
    {
        self.next_op_id
    }

    /// Removes the acknowledged operations at the front of the log.
    pub fn compact(&mut self)
        requires
            old(self)@.ordered(),
        ensures
            final(self)@.ordered(),
            final(self)@.ops == old(self)@.ops.skip(leading_acked(old(self)@.acked) as int),
            final(self)@.acked == old(self)@.acked.skip(leading_acked(old(self)@.acked) as int),
            final(self)@.next_op_id == old(self)@.next_op_id,
            final(self)@.last_acked_op_id == old(self)@.last_acked_op_id,
            final(self)@.server_cursor == old(self)@.server_cursor,
    {
        let ghost m = self@;
        let mut k: usize = 0;
        assert(m.acked.skip(0) =~= m.acked);
        while k < self.acked.len() && self.acked[k]
            invariant
                k <= self.acked@.len(),
                self.acked@ == m.acked,
                m == self@,
                forall|j: int| 0 <= j < k ==> m.acked[j],
                leading_acked(m.acked) == k + leading_acked(m.acked.skip(k as int)),
            decreases self.acked@.len() - k,
        {
            proof {
                let s = m.acked.skip(k as int);
                assert(s.drop_first() =~= m.acked.skip(k + 1));
            }
            k = k + 1;
        }
        proof {
            let s = m.acked.skip(k as int);
            if k < m.acked.len() {
                assert(!s[0]);
            }
        }
        let ops_rest = self.ops.split_off(k);
        let acked_rest = self.acked.split_off(k);
        self.ops = ops_rest;
        self.acked = acked_rest;
        proof {
            assert(self@.ops =~= m.ops.skip(k as int));
            assert(self@.acked =~= m.acked.skip(k as int));
        }
    }

    /// The number of entries, acknowledged or not.
    pub fn len(&self) -> (r: usize)
        requires
            self@.ordered(),
        ensures
            r == self@.ops.len(),
    {
        self.ops.len()
    }

    /// Tells whether the log has no entries.
    pub fn is_empty(&self) -> (r: bool)
        requires
            self@.ordered(),
        ensures
            r == (self@.ops.len() == 0),
    {
        self.ops.len() == 0
    }

    /// Removes all entries.
    pub fn clear(&mut self)
        requires
            old(self)@.ordered(),
        ensures
            final(self)@ == (OplogModel { ops: Seq::empty(), acked: Seq::empty(), ..old(self)@ }),
            final(self)@.ordered(),
    {
        self.ops.clear();
        self.acked.clear();
        assert(self@.ops =~= Seq::<SyncOperationModel>::empty());
    }
}

proof fn lemma_pending_prefix(ops: Seq<SyncOperationModel>, acked: Seq<bool>, i: int)
    requires
        ops.len() == acked.len(),
        0 <= i <= ops.len(),
    ensures
        pending_ops(ops.take(i), acked.take(i)).len() <= pending_ops(ops, acked).len(),
        pending_ops(ops, acked).take(pending_ops(ops.take(i), acked.take(i)).len() as int)
            == pending_ops(ops.take(i), acked.take(i)),
    decreases ops.len() - i,
{
    if i == ops.len() {
        assert(ops.take(i) =~= ops);
        assert(acked.take(i) =~= acked);
        let p = pending_ops(ops, acked);
        assert(p.take(p.len() as int) =~= p);
    } else {
        lemma_pending_prefix(ops, acked, i + 1);
        assert(ops.take(i + 1).drop_last() =~= ops.take(i));
        assert(acked.take(i + 1).drop_last() =~= acked.take(i));
        let p = pending_ops(ops, acked);
        let q1 = pending_ops(ops.take(i + 1), acked.take(i + 1));
        let q = pending_ops(ops.take(i), acked.take(i));
        assert(p.take(q.len() as int) =~= q1.take(q.len() as int));
        assert(q1.take(q.len() as int) =~= q);
    }
}

} // verus!
