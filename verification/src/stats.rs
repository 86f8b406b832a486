//! Database statistics: counters of operations, transactions and bytes.
//!
//! Every counter starts at zero and only grows (wrapping around at `u64::MAX`),
//! except the entity count, which is set.

use vstd::prelude::*;

verus! {

/// A point-in-time copy of all database statistics.
#[derive(Debug, Clone, Copy, PartialEq, Eq, Structural)]
pub struct StatsSnapshot {
    /// Total number of read operations.
    pub reads: u64,
    /// Total number of write operations.
    pub writes: u64,
    /// Total number of delete operations.
    pub deletes: u64,
    /// Total number of full collection scans.
    pub scans: u64,
    /// Total number of index lookups.
    pub index_lookups: u64,
    /// Total number of transactions started.
    pub transactions_started: u64,
    /// Total number of transactions committed.
    pub transactions_committed: u64,
    /// Total number of transactions aborted.
    pub transactions_aborted: u64,
    /// Approximate entity count.
    pub entity_count: u64,
    /// Total bytes written.
    pub bytes_written: u64,
    /// Total bytes read.
    pub bytes_read: u64,
    /// Total number of checkpoints.
    pub checkpoints: u64,
    /// Total number of errors.
    pub errors: u64,
}

/// The snapshot with every counter at zero.
pub open spec fn zero_stats() -> StatsSnapshot {
    StatsSnapshot {
        reads: 0,
        writes: 0,
        deletes: 0,
        scans: 0,
        index_lookups: 0,
        transactions_started: 0,
        transactions_committed: 0,
        transactions_aborted: 0,
        entity_count: 0,
        bytes_written: 0,
        bytes_read: 0,
        checkpoints: 0,
        errors: 0,
    }
}

/// `a + b`, wrapping around at `u64::MAX`.
pub open spec fn wrap_add(a: u64, b: u64) -> u64 {
    if a + b > u64::MAX {
        (a + b - (u64::MAX + 1)) as u64
    } else {
        (a + b) as u64
    }
}

impl Default for StatsSnapshot {
    fn default() -> (r: Self)
        ensures
            r == zero_stats(),
    {
        StatsSnapshot {
            reads: 0,
            writes: 0,
            deletes: 0,
            scans: 0,
            index_lookups: 0,
            transactions_started: 0,
            transactions_committed: 0,
            transactions_aborted: 0,
            entity_count: 0,
            bytes_written: 0,
            bytes_read: 0,
            checkpoints: 0,
            errors: 0,
        }
    }
}

fn bump(x: u64, by: u64) -> (r: u64)
    ensures
        r == wrap_add(x, by),
{
    x.wrapping_add(by)
}

/// Database statistics and metrics.
#[derive(Debug)]
pub struct DatabaseStats {
    counters: StatsSnapshot,
}

impl View for DatabaseStats {
    type V = StatsSnapshot;

    /// The current value of every counter.
    closed spec fn view(&self) -> StatsSnapshot {
        self.counters
    }
}

impl Default for DatabaseStats {
    fn default() -> (r: Self)
        ensures
            r@ == zero_stats(),
    {
        DatabaseStats::new()
    }
}

impl DatabaseStats {
    /// Creates statistics with every counter at zero.
    pub fn new() -> (r: Self)
        ensures
            r@ == zero_stats(),
    {
        DatabaseStats { counters: StatsSnapshot::default() }
    }

    /// Records a read of `bytes` bytes.
    pub fn record_read(&mut self, bytes: u64)
        ensures
            final(self)@ == (StatsSnapshot {
                reads: wrap_add(old(self)@.reads, 1),
                bytes_read: wrap_add(old(self)@.bytes_read, bytes),
                ..old(self)@
            }),
    {
        self.counters.reads = bump(self.counters.reads, 1);
        self.counters.bytes_read = bump(self.counters.bytes_read, bytes);
    }

    /// Records a write of `bytes` bytes.
    pub fn record_write(&mut self, bytes: u64)
        ensures
            final(self)@ == (StatsSnapshot {
                writes: wrap_add(old(self)@.writes, 1),
                bytes_written: wrap_add(old(self)@.bytes_written, bytes),
                ..old(self)@
            }),
    {
        self.counters.writes = bump(self.counters.writes, 1);
        self.counters.bytes_written = bump(self.counters.bytes_written, bytes);
    }

    /// Records a delete.
    pub fn record_delete(&mut self)
        ensures
            final(self)@ == (StatsSnapshot { deletes: wrap_add(old(self)@.deletes, 1), ..old(self)@ }),
    {
        self.counters.deletes = bump(self.counters.deletes, 1);
    }

    /// Records a full collection scan.
    pub fn record_scan(&mut self)
        ensures
            final(self)@ == (StatsSnapshot { scans: wrap_add(old(self)@.scans, 1), ..old(self)@ }),
    {
        self.counters.scans = bump(self.counters.scans, 1);
    }

    /// Records an index lookup.
    pub fn record_index_lookup(&mut self)
        ensures
            final(self)@ == (StatsSnapshot {
                index_lookups: wrap_add(old(self)@.index_lookups, 1),
                ..old(self)@
            }),
    {
        self.counters.index_lookups = bump(self.counters.index_lookups, 1);
    }

    /// Records the start of a transaction.
    pub fn record_transaction_start(&mut self)
        ensures
            final(self)@ == (StatsSnapshot {
                transactions_started: wrap_add(old(self)@.transactions_started, 1),
                ..old(self)@
            }),
    {
        self.counters.transactions_started = bump(self.counters.transactions_started, 1);
    }

    /// Records the commit of a transaction.
    pub fn record_transaction_commit(&mut self)
        ensures
            final(self)@ == (StatsSnapshot {
                transactions_committed: wrap_add(old(self)@.transactions_committed, 1),
                ..old(self)@
            }),
    {
        self.counters.transactions_committed = bump(self.counters.transactions_committed, 1);
    }

    /// Records the abort of a transaction.
    pub fn record_transaction_abort(&mut self)
        ensures
            final(self)@ == (StatsSnapshot {
                transactions_aborted: wrap_add(old(self)@.transactions_aborted, 1),
                ..old(self)@
            }),
    {
        self.counters.transactions_aborted = bump(self.counters.transactions_aborted, 1);
    }

    /// Records a checkpoint.
    pub fn record_checkpoint(&mut self)
        ensures
            final(self)@ == (StatsSnapshot {
                checkpoints: wrap_add(old(self)@.checkpoints, 1),
                ..old(self)@
            }),
    {
        self.counters.checkpoints = bump(self.counters.checkpoints, 1);
    }

    /// Records an error.
    pub fn record_error(&mut self)
        ensures
            final(self)@ == (StatsSnapshot { errors: wrap_add(old(self)@.errors, 1), ..old(self)@ }),
    {
        self.counters.errors = bump(self.counters.errors, 1);
    }

    /// Sets the entity count.
    pub fn set_entity_count(&mut self, count: u64)
        ensures
            final(self)@ == (StatsSnapshot { entity_count: count, ..old(self)@ }),
    {
        self.counters.entity_count = count;
    }

    /// Total number of read operations.
    pub fn reads(&self) -> (r: u64)
        ensures
            r == self@.reads,
    {
        self.counters.reads
    }

    /// Total number of write operations.
    pub fn writes(&self) -> (r: u64)
        ensures
            r == self@.writes,
    {
        self.counters.writes
    }

    /// Total number of delete operations.
    pub fn deletes(&self) -> (r: u64)
        ensures
            r == self@.deletes,
    {
        self.counters.deletes
    }

    /// Total number of full collection scans.
    pub fn scans(&self) -> (r: u64)
        ensures
            r == self@.scans,
    {
        self.counters.scans
    }

    /// Total number of index lookups.
    pub fn index_lookups(&self) -> (r: u64)
        ensures
            r == self@.index_lookups,
    {
        self.counters.index_lookups
    }

    /// Total number of transactions started.
    pub fn transactions_started(&self) -> (r: u64)
        ensures
            r == self@.transactions_started,
    {
        self.counters.transactions_started
    }

    /// Total number of transactions committed.
    pub fn transactions_committed(&self) -> (r: u64)
        ensures
            r == self@.transactions_committed,
    {
        self.counters.transactions_committed
    }

    /// Total number of transactions aborted.
    pub fn transactions_aborted(&self) -> (r: u64)
        ensures
            r == self@.transactions_aborted,
    {
        self.counters.transactions_aborted
    }

    /// Approximate entity count.
    pub fn entity_count(&self) -> (r: u64)
        ensures
            r == self@.entity_count,
    {
        self.counters.entity_count
    }

    /// Total bytes written.
    pub fn bytes_written(&self) -> (r: u64)
        ensures
            r == self@.bytes_written,
    {
        self.counters.bytes_written
    }

    /// Total bytes read.
    pub fn bytes_read(&self) -> (r: u64)
        ensures
            r == self@.bytes_read,
    {
        self.counters.bytes_read
    }

    /// Total number of checkpoints.
    pub fn checkpoints(&self) -> (r: u64)
        ensures
            r == self@.checkpoints,
    {
        self.counters.checkpoints
    }

    /// Total number of errors.
    pub fn errors(&self) -> (r: u64)
        ensures
            r == self@.errors,
    {
        self.counters.errors
    }

    /// A copy of all counters.
    pub fn snapshot(&self) -> (r: StatsSnapshot)
        ensures
            r == self@,
    {
        StatsSnapshot {
            reads: self.reads(),
            writes: self.writes(),
            deletes: self.deletes(),
            scans: self.scans(),
            index_lookups: self.index_lookups(),
            transactions_started: self.transactions_started(),
            transactions_committed: self.transactions_committed(),
            transactions_aborted: self.transactions_aborted(),
            entity_count: self.entity_count(),
            bytes_written: self.bytes_written(),
            bytes_read: self.bytes_read(),
            checkpoints: self.checkpoints(),
            errors: self.errors(),
        }
    }
}

} // verus!
