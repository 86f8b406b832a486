use entidb::{DatabaseStats, StatsSnapshot};

#[test]
fn default_stats_are_zero() {
    let stats = DatabaseStats::new();
    assert_eq!(stats.reads(), 0);
    assert_eq!(stats.writes(), 0);
    assert_eq!(stats.transactions_committed(), 0);
}

#[test]
fn record_operations() {
    let mut stats = DatabaseStats::new();

    stats.record_read(100);
    stats.record_read(50);
    assert_eq!(stats.reads(), 2);
    assert_eq!(stats.bytes_read(), 150);

    stats.record_write(200);
    assert_eq!(stats.writes(), 1);
    assert_eq!(stats.bytes_written(), 200);
}

#[test]
fn record_transactions() {
    let mut stats = DatabaseStats::new();

    stats.record_transaction_start();
    stats.record_transaction_start();
    stats.record_transaction_commit();
    stats.record_transaction_abort();

    assert_eq!(stats.transactions_started(), 2);
    assert_eq!(stats.transactions_committed(), 1);
    assert_eq!(stats.transactions_aborted(), 1);
}

#[test]
fn snapshot() {
    let mut stats = DatabaseStats::new();
    stats.record_read(10);
    stats.record_write(20);
    stats.record_scan();

    let snap = stats.snapshot();
    assert_eq!(snap.reads, 1);
    assert_eq!(snap.writes, 1);
    assert_eq!(snap.scans, 1);
    assert_eq!(snap.bytes_read, 10);
    assert_eq!(snap.bytes_written, 20);
}

#[test]
fn other_counters_and_entity_count() {
    let mut stats = DatabaseStats::new();
    stats.record_delete();
    stats.record_index_lookup();
    stats.record_index_lookup();
    stats.record_checkpoint();
    stats.record_error();
    stats.set_entity_count(42);
    stats.set_entity_count(7);
    let snap = stats.snapshot();
    assert_eq!(snap.deletes, 1);
    assert_eq!(snap.index_lookups, 2);
    assert_eq!(snap.checkpoints, 1);
    assert_eq!(snap.errors, 1);
    assert_eq!(snap.entity_count, 7);
    assert_eq!(stats.deletes(), 1);
    assert_eq!(stats.index_lookups(), 2);
    assert_eq!(stats.checkpoints(), 1);
    assert_eq!(stats.errors(), 1);
    assert_eq!(stats.entity_count(), 7);
    assert_eq!(stats.scans(), 0);
}

#[test]
fn byte_counters_wrap_around() {
    let mut stats = DatabaseStats::new();
    stats.record_read(u64::MAX);
    stats.record_read(3);
    assert_eq!(stats.bytes_read(), 2);
    assert_eq!(stats.reads(), 2);
}

#[test]
fn default_snapshot_is_zero() {
    let stats = DatabaseStats::default();
    assert_eq!(stats.snapshot(), StatsSnapshot::default());
}
