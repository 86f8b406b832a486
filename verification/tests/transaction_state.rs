use entidb::{
    compute_content_hash, CollectionId, CoreError, EntityId, PendingWrite, SequenceNumber,
    Transaction, TransactionId, TransactionState,
};

fn create_txn() -> Transaction {
    Transaction::new(TransactionId::new(1), SequenceNumber::new(0))
}

#[test]
fn new_transaction_is_active() {
    let txn = create_txn();
    assert!(txn.is_active());
    assert_eq!(txn.state(), TransactionState::Active);
}

#[test]
fn put_records_write() {
    let mut txn = create_txn();
    let collection = CollectionId::new(1);
    let entity = EntityId::new();

    txn.put(collection, entity, vec![1, 2, 3]).unwrap();

    assert_eq!(txn.write_count(), 1);
    assert!(txn.get_pending_write(collection, entity).is_some());
}

#[test]
fn delete_records_write() {
    let mut txn = create_txn();
    let collection = CollectionId::new(1);
    let entity = EntityId::new();

    txn.delete(collection, entity).unwrap();

    let write = txn.get_pending_write(collection, entity);
    assert!(matches!(write, Some(PendingWrite::Delete { .. })));
}

#[test]
fn put_overwrites_previous() {
    let mut txn = create_txn();
    let collection = CollectionId::new(1);
    let entity = EntityId::new();

    txn.put(collection, entity, vec![1]).unwrap();
    txn.put(collection, entity, vec![2]).unwrap();

    assert_eq!(txn.write_count(), 1);
    if let Some(PendingWrite::Put { payload, .. }) = txn.get_pending_write(collection, entity) {
        assert_eq!(payload, &vec![2]);
    } else {
        panic!("expected Put");
    }
}

#[test]
fn cannot_write_after_commit() {
    let mut txn = create_txn();
    txn.mark_committed();

    let result = txn.put(CollectionId::new(1), EntityId::new(), vec![]);
    assert!(result.is_err());
}

#[test]
fn cannot_write_after_abort() {
    let mut txn = create_txn();
    txn.mark_aborted();

    let result = txn.delete(CollectionId::new(1), EntityId::new());
    assert!(result.is_err());
}

#[test]
fn record_read_tracks_observed_hash() {
    let mut txn = create_txn();
    let collection = CollectionId::new(1);
    let entity = EntityId::new();

    let test_hash = compute_content_hash(b"test data");
    txn.record_read(collection, entity, Some(test_hash));

    let reads: Vec<_> = txn.read_set().iter().collect();
    assert_eq!(reads.len(), 1);
    assert_eq!(&reads[0].1, &Some(test_hash));
}

#[test]
fn read_not_recorded_if_written() {
    let mut txn = create_txn();
    let collection = CollectionId::new(1);
    let entity = EntityId::new();

    txn.put(collection, entity, vec![1]).unwrap();
    let test_hash = compute_content_hash(b"test data");
    txn.record_read(collection, entity, Some(test_hash));

    let reads: Vec<_> = txn.read_set().iter().collect();
    assert!(reads.is_empty());
}

#[test]
fn put_captures_before_hash_from_read_set() {
    let mut txn = create_txn();
    let collection = CollectionId::new(1);
    let entity = EntityId::new();

    let test_hash = compute_content_hash(b"original data");
    txn.record_read(collection, entity, Some(test_hash));

    txn.put(collection, entity, vec![1, 2, 3]).unwrap();

    if let Some(PendingWrite::Put { before_hash, .. }) = txn.get_pending_write(collection, entity)
    {
        assert_eq!(*before_hash, Some(test_hash));
    } else {
        panic!("expected Put");
    }
}

#[test]
fn delete_captures_before_hash_from_read_set() {
    let mut txn = create_txn();
    let collection = CollectionId::new(1);
    let entity = EntityId::new();

    let test_hash = compute_content_hash(b"original data");
    txn.record_read(collection, entity, Some(test_hash));

    txn.delete(collection, entity).unwrap();

    if let Some(PendingWrite::Delete { before_hash }) = txn.get_pending_write(collection, entity) {
        assert_eq!(*before_hash, Some(test_hash));
    } else {
        panic!("expected Delete");
    }
}

#[test]
fn content_hash_is_sha256() {
    let h = compute_content_hash(b"abc");
    assert_eq!(
        h,
        [
            0xba, 0x78, 0x16, 0xbf, 0x8f, 0x01, 0xcf, 0xea, 0x41, 0x41, 0x40, 0xde, 0x5d, 0xae,
            0x22, 0x23, 0xb0, 0x03, 0x61, 0xa3, 0x96, 0x17, 0x7a, 0x9c, 0xb4, 0x10, 0xff, 0x61,
            0xf2, 0x00, 0x15, 0xad
        ]
    );
}

#[test]
fn finished_transaction_error_messages() {
    let mut txn = create_txn();
    txn.mark_committed();
    match txn.put_with_op_type(CollectionId::new(1), EntityId::from_bytes([1; 16]), vec![1], true) {
        Err(CoreError::InvalidOperation(m)) => assert_eq!(m, "transaction already committed"),
        _ => panic!("expected refusal"),
    }
    let mut txn = create_txn();
    txn.mark_aborted();
    match txn.put(CollectionId::new(1), EntityId::from_bytes([1; 16]), vec![1]) {
        Err(CoreError::InvalidOperation(m)) => assert_eq!(m, "transaction already aborted"),
        _ => panic!("expected refusal"),
    }
    assert_eq!(txn.write_count(), 0);
    assert!(!txn.is_active());
}

#[test]
fn distinct_entities_and_read_hashes() {
    let mut txn = Transaction::new(TransactionId::new(9), SequenceNumber::new(4));
    assert_eq!(txn.id(), TransactionId::new(9));
    assert_eq!(txn.snapshot_seq(), SequenceNumber::new(4));
    let a = EntityId::from_bytes([1; 16]);
    let b = EntityId::from_bytes([2; 16]);
    let c = CollectionId::new(3);
    txn.record_read(c, a, None);
    assert_eq!(txn.get_read_hash(c, a), Some(None));
    assert_eq!(txn.get_read_hash(c, b), None);
    txn.put_with_op_type(c, a, vec![5], false).unwrap();
    txn.put(c, b, vec![6]).unwrap();
    txn.put(CollectionId::new(4), a, vec![7]).unwrap();
    assert_eq!(txn.write_count(), 3);
    assert_eq!(txn.pending_writes().len(), 3);
    if let Some(PendingWrite::Put { is_update, before_hash, .. }) = txn.get_pending_write(c, a) {
        assert_eq!(*is_update, Some(false));
        assert_eq!(*before_hash, None);
    } else {
        panic!("expected Put");
    }
    assert!(EntityId::new() != EntityId::new());
}
