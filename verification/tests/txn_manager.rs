use entidb::{
    CollectionId, CoreError, EntityId, InMemoryBackend, InMemoryFactory, NoListener,
    SegmentManager, TransactionManager, TransactionState, WalManager,
};

type Manager = TransactionManager<InMemoryBackend, InMemoryBackend, InMemoryFactory, NoListener>;

fn create_manager() -> Manager {
    let wal = WalManager::new(InMemoryBackend::new(), false);
    let segments = SegmentManager::new(InMemoryBackend::new(), 1024 * 1024);
    TransactionManager::new(wal, segments)
}

#[test]
fn begin_creates_transaction() {
    let mut tm = create_manager();
    let txn = tm.begin().unwrap();
    assert!(txn.is_active());
    assert_eq!(tm.active_count(), 1);
}

#[test]
fn commit_empty_transaction() {
    let mut tm = create_manager();
    let mut txn = tm.begin().unwrap();
    let seq = tm.commit(&mut txn).unwrap();
    assert_eq!(seq.as_u64(), 1);
    assert!(!txn.is_active());
    assert_eq!(tm.active_count(), 0);
}

#[test]
fn abort_transaction() {
    let mut tm = create_manager();
    let mut txn = tm.begin().unwrap();
    tm.abort(&mut txn).unwrap();
    assert!(!txn.is_active());
    assert_eq!(tm.active_count(), 0);
}

#[test]
fn put_and_get_in_transaction() {
    let mut tm = create_manager();
    let mut txn = tm.begin().unwrap();
    let collection = CollectionId::new(1);
    let entity = EntityId::new();
    let payload = vec![1, 2, 3];

    txn.put(collection, entity, payload.clone()).unwrap();

    // Should see uncommitted write within transaction
    let result = tm.get(&mut txn, collection, entity).unwrap();
    assert_eq!(result, Some(payload));
}

#[test]
fn delete_in_transaction() {
    let mut tm = create_manager();
    let mut txn = tm.begin().unwrap();
    let collection = CollectionId::new(1);
    let entity = EntityId::new();

    txn.put(collection, entity, vec![1, 2, 3]).unwrap();
    txn.delete(collection, entity).unwrap();

    // Should see deletion
    let result = tm.get(&mut txn, collection, entity).unwrap();
    assert!(result.is_none());
}

#[test]
fn committed_data_visible_to_new_transaction() {
    let mut tm = create_manager();
    let collection = CollectionId::new(1);
    let entity = EntityId::new();
    let payload = vec![42, 43, 44];

    // First transaction: write
    {
        let mut txn = tm.begin().unwrap();
        txn.put(collection, entity, payload.clone()).unwrap();
        tm.commit(&mut txn).unwrap();
    }

    // Second transaction: read
    {
        let mut txn = tm.begin().unwrap();
        let result = tm.get(&mut txn, collection, entity).unwrap();
        assert_eq!(result, Some(payload));
    }
}

#[test]
fn aborted_data_not_visible() {
    let mut tm = create_manager();
    let collection = CollectionId::new(1);
    let entity = EntityId::new();

    // First transaction: write then abort
    {
        let mut txn = tm.begin().unwrap();
        txn.put(collection, entity, vec![1, 2, 3]).unwrap();
        tm.abort(&mut txn).unwrap();
    }

    // Second transaction: should not see data
    {
        let mut txn = tm.begin().unwrap();
        let result = tm.get(&mut txn, collection, entity).unwrap();
        assert!(result.is_none());
    }
}

#[test]
fn sequence_numbers_increase() {
    let mut tm = create_manager();

    let mut txn1 = tm.begin().unwrap();
    let seq1 = tm.commit(&mut txn1).unwrap();

    let mut txn2 = tm.begin().unwrap();
    let seq2 = tm.commit(&mut txn2).unwrap();

    assert!(seq2 > seq1);
}

#[test]
fn cannot_commit_twice() {
    let mut tm = create_manager();
    let mut txn = tm.begin().unwrap();
    tm.commit(&mut txn).unwrap();

    let result = tm.commit(&mut txn);
    assert!(result.is_err());
}

#[test]
fn cannot_abort_after_commit() {
    let mut tm = create_manager();
    let mut txn = tm.begin().unwrap();
    tm.commit(&mut txn).unwrap();

    let result = tm.abort(&mut txn);
    assert!(result.is_err());
}

#[test]
fn manager_checkpoint() {
    let mut tm = create_manager();

    let mut txn = tm.begin().unwrap();
    txn.put(CollectionId::new(1), EntityId::new(), vec![1]).unwrap();
    tm.commit(&mut txn).unwrap();

    // Should not error
    tm.checkpoint().unwrap();
}

#[test]
fn committed_seq_updates() {
    let mut tm = create_manager();
    assert_eq!(tm.committed_seq().as_u64(), 0);

    let mut txn = tm.begin().unwrap();
    tm.commit(&mut txn).unwrap();

    assert_eq!(tm.committed_seq().as_u64(), 1);
}

// === Snapshot Isolation Tests ===

#[test]
fn snapshot_isolation_reader_sees_old_version() {
    let mut tm = create_manager();
    let collection = CollectionId::new(1);
    let entity = EntityId::new();

    // Write initial value
    {
        let mut txn = tm.begin().unwrap();
        txn.put(collection, entity, vec![1, 1, 1]).unwrap();
        tm.commit(&mut txn).unwrap();
    }

    // Start a read transaction (gets snapshot of seq=1)
    let mut reader = tm.begin().unwrap();
    let reader_snapshot = reader.snapshot_seq();

    // Another transaction updates the entity
    {
        let mut txn = tm.begin().unwrap();
        txn.put(collection, entity, vec![2, 2, 2]).unwrap();
        tm.commit(&mut txn).unwrap();
    }

    // Reader should still see the OLD value (snapshot isolation)
    let result = tm.get(&mut reader, collection, entity).unwrap();
    assert_eq!(
        result,
        Some(vec![1, 1, 1]),
        "Reader with snapshot {:?} should see old value",
        reader_snapshot
    );

    // A new reader should see the NEW value
    let mut new_reader = tm.begin().unwrap();
    let new_result = tm.get(&mut new_reader, collection, entity).unwrap();
    assert_eq!(new_result, Some(vec![2, 2, 2]));
}

#[test]
fn snapshot_isolation_reader_does_not_see_uncommitted() {
    let mut tm = create_manager();
    let collection = CollectionId::new(1);
    let entity = EntityId::new();

    // Write initial value
    {
        let mut txn = tm.begin().unwrap();
        txn.put(collection, entity, vec![1]).unwrap();
        tm.commit(&mut txn).unwrap();
    }

    // Start a writer but don't commit
    let mut writer = tm.begin().unwrap();
    writer.put(collection, entity, vec![2]).unwrap();

    // Start a reader
    let mut reader = tm.begin().unwrap();

    // Reader should see old value (uncommitted writes are not visible)
    let result = tm.get(&mut reader, collection, entity).unwrap();
    assert_eq!(result, Some(vec![1]));

    // Abort the writer
    tm.abort(&mut writer).unwrap();
}

#[test]
fn snapshot_isolation_entity_created_after_snapshot_not_visible() {
    let mut tm = create_manager();
    let collection = CollectionId::new(1);

    // Start a reader before any data exists
    let mut reader = tm.begin().unwrap();

    // Create entity after reader started
    let entity = EntityId::new();
    {
        let mut txn = tm.begin().unwrap();
        txn.put(collection, entity, vec![42]).unwrap();
        tm.commit(&mut txn).unwrap();
    }

    // Reader should NOT see the entity (created after snapshot)
    let result = tm.get(&mut reader, collection, entity).unwrap();
    assert!(result.is_none());

    // New reader should see it
    let mut new_reader = tm.begin().unwrap();
    let new_result = tm.get(&mut new_reader, collection, entity).unwrap();
    assert_eq!(new_result, Some(vec![42]));
}

#[test]
fn snapshot_isolation_deletion_after_snapshot_not_visible() {
    let mut tm = create_manager();
    let collection = CollectionId::new(1);
    let entity = EntityId::new();

    // Write initial value
    {
        let mut txn = tm.begin().unwrap();
        txn.put(collection, entity, vec![1]).unwrap();
        tm.commit(&mut txn).unwrap();
    }

    // Start a reader
    let mut reader = tm.begin().unwrap();

    // Delete after reader started
    {
        let mut txn = tm.begin().unwrap();
        txn.delete(collection, entity).unwrap();
        tm.commit(&mut txn).unwrap();
    }

    // Reader should still see the entity
    let result = tm.get(&mut reader, collection, entity).unwrap();
    assert_eq!(result, Some(vec![1]));

    // New reader should see deletion
    let mut new_reader = tm.begin().unwrap();
    let new_result = tm.get(&mut new_reader, collection, entity).unwrap();
    assert!(new_result.is_none());
}

// === Write Transaction Tests ===

#[test]
fn begin_write_creates_write_transaction() {
    let mut tm = create_manager();
    let wtxn = tm.begin_write().unwrap();
    assert!(wtxn.is_active());
    assert_eq!(tm.active_count(), 1);
}

#[test]
fn write_transaction_commit() {
    let mut tm = create_manager();
    let collection = CollectionId::new(1);
    let entity = EntityId::new();

    let mut wtxn = tm.begin_write().unwrap();
    wtxn.put(collection, entity, vec![1, 2, 3]).unwrap();
    let seq = tm.commit_write(&mut wtxn).unwrap();

    assert_eq!(seq.as_u64(), 1);
    assert!(!wtxn.is_active());

    // Data should be visible
    let mut reader = tm.begin().unwrap();
    let result = tm.get(&mut reader, collection, entity).unwrap();
    assert_eq!(result, Some(vec![1, 2, 3]));
}

#[test]
fn write_transaction_abort() {
    let mut tm = create_manager();
    let collection = CollectionId::new(1);
    let entity = EntityId::new();

    let mut wtxn = tm.begin_write().unwrap();
    wtxn.put(collection, entity, vec![1, 2, 3]).unwrap();
    tm.abort_write(&mut wtxn).unwrap();

    // Data should NOT be visible
    let mut reader = tm.begin().unwrap();
    let result = tm.get(&mut reader, collection, entity).unwrap();
    assert!(result.is_none());
}

#[test]
fn write_transaction_has_snapshot_isolation() {
    let mut tm = create_manager();
    let collection = CollectionId::new(1);
    let entity = EntityId::new();

    // Write initial value
    {
        let mut txn = tm.begin().unwrap();
        txn.put(collection, entity, vec![1]).unwrap();
        tm.commit(&mut txn).unwrap();
    }

    // Start a write transaction
    let mut wtxn = tm.begin_write().unwrap();

    // Write transaction should see value from its snapshot
    let result = tm.get_write(&mut wtxn, collection, entity).unwrap();
    assert_eq!(result, Some(vec![1]));

    tm.abort_write(&mut wtxn).unwrap();
}

// === Further cases ===

#[test]
fn commit_logs_writes_then_commit_record() {
    let mut tm = create_manager();
    let collection = CollectionId::new(7);
    let entity = EntityId::from_bytes([9u8; 16]);
    let mut txn = tm.begin().unwrap();
    txn.put(collection, entity, vec![5, 6]).unwrap();
    let seq = tm.commit(&mut txn).unwrap();
    assert_eq!(seq.as_u64(), 1);
    assert_eq!(txn.state(), TransactionState::Committed);
}

#[test]
fn commit_and_abort_refuse_finished_transactions_with_message() {
    let mut tm = create_manager();
    let mut txn = tm.begin().unwrap();
    tm.abort(&mut txn).unwrap();
    match tm.commit(&mut txn) {
        Err(CoreError::InvalidOperation(m)) => assert_eq!(m, "transaction not active"),
        other => panic!("unexpected {:?}", other),
    }
    match tm.abort(&mut txn) {
        Err(CoreError::InvalidOperation(m)) => assert_eq!(m, "transaction not active"),
        other => panic!("unexpected {:?}", other),
    }
    // A refused commit consumes no sequence number.
    let mut next = tm.begin().unwrap();
    assert_eq!(tm.commit(&mut next).unwrap().as_u64(), 1);
}

#[test]
fn read_records_content_hash() {
    let mut tm = create_manager();
    let collection = CollectionId::new(1);
    let entity = EntityId::new();
    let mut txn = tm.begin().unwrap();
    txn.put(collection, entity, b"test data".to_vec()).unwrap();
    tm.commit(&mut txn).unwrap();

    let mut reader = tm.begin().unwrap();
    let _ = tm.get(&mut reader, collection, entity).unwrap();
    assert_eq!(
        reader.get_read_hash(collection, entity),
        Some(Some(entidb::compute_content_hash(b"test data")))
    );
    let missing = EntityId::new();
    let _ = tm.get(&mut reader, collection, missing).unwrap();
    assert_eq!(reader.get_read_hash(collection, missing), Some(None));
}

#[test]
fn released_write_transaction_frees_the_slot() {
    let mut tm = create_manager();
    let wtxn = tm.begin_write().unwrap();
    assert_eq!(tm.active_count(), 1);
    let txn = tm.release_write(wtxn);
    assert!(txn.is_active());
    assert_eq!(tm.active_count(), 0);
    let second = tm.begin_write().unwrap();
    assert!(second.is_active());
}

#[test]
fn checkpoint_empties_the_log_and_keeps_data() {
    let mut tm = create_manager();
    let collection = CollectionId::new(3);
    let entity = EntityId::new();
    let mut txn = tm.begin().unwrap();
    txn.put(collection, entity, vec![8]).unwrap();
    tm.commit(&mut txn).unwrap();
    tm.checkpoint().unwrap();
    let mut reader = tm.begin().unwrap();
    assert_eq!(tm.get(&mut reader, collection, entity).unwrap(), Some(vec![8]));
}

#[test]
fn first_commit_with_writes_gets_sequence_one() {
    let mut tm = create_manager();
    let mut txn = tm.begin().unwrap();
    txn.put(CollectionId::new(1), EntityId::from_bytes([7u8; 16]), vec![1, 2, 3]).unwrap();
    let seq = tm.commit(&mut txn).unwrap();
    assert_eq!(seq.as_u64(), 1);
    assert_eq!(tm.committed_seq().as_u64(), 1);
    let mut second = tm.begin().unwrap();
    assert_eq!(tm.commit(&mut second).unwrap().as_u64(), 2);
}
