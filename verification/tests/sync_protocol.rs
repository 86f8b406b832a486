use entidb::{
    ChangeEvent, ChangeFeed, ChangeType, Conflict, ConflictPolicy, ConflictResolution,
    HandshakeRequest, HandshakeResponse, LogicalOplog, OperationType, OplogEntry, PullRequest,
    PullResponse, PushRequest, PushResponse, SyncMessage, SyncOperation,
};

#[test]
fn operation_type_codes() {
    assert_eq!(OperationType::Put.to_code(), 1);
    assert_eq!(OperationType::Delete.to_code(), 2);

    assert_eq!(OperationType::from_code(1), Some(OperationType::Put));
    assert_eq!(OperationType::from_code(2), Some(OperationType::Delete));
    assert_eq!(OperationType::from_code(0), None);
}

#[test]
fn payload_size() {
    let put = SyncOperation::put(1, 1, [0u8; 16], vec![1, 2, 3, 4, 5], 1);
    assert_eq!(put.payload_size(), 5);

    let delete = SyncOperation::delete(2, 1, [0u8; 16], 2);
    assert_eq!(delete.payload_size(), 0);
}

fn make_op(collection_id: u32, entity_id: u8) -> SyncOperation {
    SyncOperation {
        op_id: 0,
        collection_id,
        entity_id: [entity_id; 16],
        op_type: OperationType::Put,
        payload: Some(vec![1, 2, 3]),
        sequence: 1,
    }
}

#[test]
fn append_assigns_op_id() {
    let mut oplog = LogicalOplog::new();

    let id1 = oplog.append(make_op(1, 1));
    let id2 = oplog.append(make_op(1, 2));
    let id3 = oplog.append(make_op(1, 3));

    assert_eq!(id1, 1);
    assert_eq!(id2, 2);
    assert_eq!(id3, 3);
}

#[test]
fn oplog_pending_operations() {
    let mut oplog = LogicalOplog::new();

    oplog.append(make_op(1, 1));
    oplog.append(make_op(1, 2));
    oplog.append(make_op(1, 3));

    let pending: Vec<_> = oplog.pending();
    assert_eq!(pending.len(), 3);
}

#[test]
fn acknowledge_up_to() {
    let mut oplog = LogicalOplog::new();

    oplog.append(make_op(1, 1));
    oplog.append(make_op(1, 2));
    oplog.append(make_op(1, 3));

    oplog.acknowledge_up_to(2);

    assert_eq!(oplog.pending_count(), 1);
    assert_eq!(oplog.last_acked_op_id(), 2);
}

#[test]
fn compact() {
    let mut oplog = LogicalOplog::new();

    oplog.append(make_op(1, 1));
    oplog.append(make_op(1, 2));
    oplog.append(make_op(1, 3));

    assert_eq!(oplog.len(), 3);

    oplog.acknowledge_up_to(2);
    oplog.compact();

    assert_eq!(oplog.len(), 1);
}

#[test]
fn pending_batch() {
    let mut oplog = LogicalOplog::new();

    for i in 0..10 {
        oplog.append(make_op(1, i));
    }

    let batch = oplog.pending_batch(5);
    assert_eq!(batch.len(), 5);
    assert_eq!(batch[0].op_id, 1);
    assert_eq!(batch[4].op_id, 5);
}

#[test]
fn server_cursor() {
    let mut oplog = LogicalOplog::new();

    assert_eq!(oplog.server_cursor(), 0);

    oplog.set_server_cursor(100);
    assert_eq!(oplog.server_cursor(), 100);
}

#[test]
fn from_state() {
    let oplog = LogicalOplog::from_state(50, 40, 1000);

    assert_eq!(oplog.next_op_id(), 50);
    assert_eq!(oplog.last_acked_op_id(), 40);
    assert_eq!(oplog.server_cursor(), 1000);
}

#[test]
fn oplog_ack_keeps_later_pending_and_clear() {
    let mut oplog = LogicalOplog::from_state(10, 0, 0);
    assert_eq!(oplog.append(make_op(1, 1)), 10);
    assert_eq!(oplog.append(make_op(1, 2)), 11);
    oplog.acknowledge_up_to(10);
    assert_eq!(oplog.last_acked_op_id(), 10);
    oplog.acknowledge_up_to(5);
    assert_eq!(oplog.last_acked_op_id(), 10);
    let pending = oplog.pending();
    assert_eq!(pending.len(), 1);
    assert_eq!(pending[0].op_id, 11);
    oplog.compact();
    assert_eq!(oplog.len(), 1);
    assert!(!oplog.is_empty());
    oplog.clear();
    assert!(oplog.is_empty());
    assert_eq!(oplog.next_op_id(), 12);
    let mut e = OplogEntry::new(make_op(2, 2));
    assert!(!e.acknowledged);
    e.acknowledge();
    assert!(e.acknowledged);
}

#[test]
fn emit_and_poll() {
    let mut feed = ChangeFeed::new();

    feed.emit(ChangeEvent::insert(0, 1, [1u8; 16], vec![1, 2, 3]));
    feed.emit(ChangeEvent::insert(0, 1, [2u8; 16], vec![4, 5, 6]));

    let events = feed.poll(0, 10);
    assert_eq!(events.len(), 2);
    assert_eq!(events[0].sequence, 1);
    assert_eq!(events[1].sequence, 2);
}

#[test]
fn poll_from_cursor() {
    let mut feed = ChangeFeed::new();

    for i in 0..5 {
        feed.emit(ChangeEvent::insert(0, 1, [i; 16], vec![i]));
    }

    let events = feed.poll(2, 10);
    assert_eq!(events.len(), 3);
    assert_eq!(events[0].sequence, 3);
}

#[test]
fn poll_with_limit() {
    let mut feed = ChangeFeed::new();

    for i in 0..10 {
        feed.emit(ChangeEvent::insert(0, 1, [i; 16], vec![i]));
    }

    let events = feed.poll(0, 3);
    assert_eq!(events.len(), 3);
}

#[test]
fn latest_sequence() {
    let mut feed = ChangeFeed::new();
    assert_eq!(feed.latest_sequence(), 0);

    feed.emit(ChangeEvent::insert(0, 1, [0u8; 16], vec![]));
    assert_eq!(feed.latest_sequence(), 1);

    feed.emit(ChangeEvent::insert(0, 1, [1u8; 16], vec![]));
    assert_eq!(feed.latest_sequence(), 2);
}

#[test]
fn emit_batch_same_sequence() {
    let mut feed = ChangeFeed::new();

    let events = vec![
        ChangeEvent::insert(0, 1, [0u8; 16], vec![1]),
        ChangeEvent::insert(0, 1, [1u8; 16], vec![2]),
        ChangeEvent::insert(0, 1, [2u8; 16], vec![3]),
    ];

    feed.emit_batch(events);

    let polled = feed.poll(0, 10);
    assert_eq!(polled.len(), 3);
    assert!(polled.iter().all(|e| e.sequence == 1));
}

#[test]
fn truncate_before() {
    let mut feed = ChangeFeed::new();

    for i in 0..5 {
        feed.emit(ChangeEvent::insert(0, 1, [i; 16], vec![i]));
    }

    assert_eq!(feed.len(), 5);

    feed.truncate_before(3);
    assert_eq!(feed.len(), 3);
}

#[test]
fn change_event_to_sync_operation() {
    let event = ChangeEvent::insert(5, 100, [7u8; 16], vec![1, 2, 3]);
    let op = event.to_sync_operation(42);

    assert_eq!(op.op_id, 42);
    assert_eq!(op.collection_id, 100);
    assert_eq!(op.entity_id, [7u8; 16]);
    assert_eq!(op.op_type, OperationType::Put);
    assert_eq!(op.payload, Some(vec![1, 2, 3]));
    assert_eq!(op.sequence, 5);
}

#[test]
fn delete_event() {
    let hash = [0xABu8; 32];
    let event = ChangeEvent::delete(10, 50, [3u8; 16], hash);

    assert_eq!(event.change_type, ChangeType::Delete);
    assert_eq!(event.before_hash, Some(hash));
    assert!(event.after_bytes.is_none());
}

#[test]
fn feed_from_sequence_and_clear() {
    let mut feed = ChangeFeed::from_sequence(7);
    assert_eq!(feed.latest_sequence(), 6);
    feed.emit(ChangeEvent::update(0, 2, [9; 16], vec![1], [1; 32]));
    let polled = feed.poll(6, 1);
    assert_eq!(polled[0].sequence, 7);
    let op = polled[0].to_sync_operation(1);
    assert_eq!(op.op_type, OperationType::Put);
    let del = ChangeEvent::delete(3, 2, [9; 16], [1; 32]).to_sync_operation(2);
    assert_eq!(del.op_type, OperationType::Delete);
    assert_eq!(del.payload, None);
    feed.clear();
    assert!(feed.is_empty());
    assert_eq!(ChangeFeed::from_sequence(0).latest_sequence(), 0);
}

#[test]
fn conflict_types() {
    let cc = Conflict::new(1, [0u8; 16], None, None, Some(vec![1]), Some(vec![2]));
    assert!(cc.is_create_conflict());

    let uu = Conflict::new(
        1,
        [0u8; 16],
        Some([1u8; 32]),
        Some([2u8; 32]),
        Some(vec![1]),
        Some(vec![2]),
    );
    assert!(uu.is_update_conflict());

    let ud = Conflict::new(1, [0u8; 16], Some([1u8; 32]), Some([2u8; 32]), Some(vec![1]), None);
    assert!(ud.is_update_delete_conflict());
}

#[test]
fn resolution_codes() {
    assert_eq!(
        ConflictResolution::from_code(1),
        Some(ConflictResolution::KeepLocal)
    );
    assert_eq!(
        ConflictResolution::from_code(2),
        Some(ConflictResolution::AcceptRemote)
    );
    assert_eq!(
        ConflictResolution::from_code(3),
        Some(ConflictResolution::Merge)
    );
    assert_eq!(
        ConflictResolution::from_code(4),
        Some(ConflictResolution::Skip)
    );
    assert_eq!(ConflictResolution::from_code(0), None);
}

#[test]
fn policy_resolution() {
    let mut conflict = Conflict::new(1, [0u8; 16], None, None, Some(vec![1]), Some(vec![2]));

    ConflictPolicy::ServerWins.resolve(&mut conflict);
    assert_eq!(conflict.resolution, Some(ConflictResolution::AcceptRemote));

    conflict.resolution = None;
    ConflictPolicy::ClientWins.resolve(&mut conflict);
    assert_eq!(conflict.resolution, Some(ConflictResolution::KeepLocal));

    conflict.resolution = None;
    ConflictPolicy::Manual.resolve(&mut conflict);
    assert_eq!(conflict.resolution, Some(ConflictResolution::Skip));
}

#[test]
fn policy_codes_and_auto_resolution() {
    for code in 1..=4u8 {
        let p = ConflictPolicy::from_code(code).unwrap();
        assert_eq!(p.to_code(), code);
        let r = ConflictResolution::from_code(code).unwrap();
        assert_eq!(r.to_code(), code);
    }
    assert_eq!(ConflictPolicy::from_code(5), None);
    assert!(ConflictPolicy::LastWriteWins.auto_resolves());
    assert!(!ConflictPolicy::Manual.auto_resolves());
    let mut c = Conflict::new(1, [0u8; 16], None, None, None, None);
    assert!(!c.is_resolved());
    ConflictPolicy::LastWriteWins.resolve(&mut c);
    assert_eq!(c.resolution, Some(ConflictResolution::AcceptRemote));
    assert!(c.is_resolved());
}

#[test]
fn sync_message_type_codes() {
    assert_eq!(
        SyncMessage::HandshakeRequest(HandshakeRequest::new([0u8; 16], [0u8; 16], 0)).type_code(),
        1
    );
    assert_eq!(
        SyncMessage::HandshakeResponse(HandshakeResponse::success(0)).type_code(),
        2
    );
    assert_eq!(SyncMessage::PullRequest(PullRequest::new(0, 0)).type_code(), 3);
    assert_eq!(
        SyncMessage::PullResponse(PullResponse::new(vec![], 0, false)).type_code(),
        4
    );
    assert_eq!(SyncMessage::PushRequest(PushRequest::new(vec![], 0)).type_code(), 5);
    assert_eq!(SyncMessage::PushResponse(PushResponse::success(0)).type_code(), 6);
}

#[test]
fn message_constructors() {
    let h = HandshakeResponse::error("bad");
    assert!(!h.success);
    assert_eq!(h.error, Some("bad".to_string()));
    let p = PushResponse::with_conflicts(3, vec![Conflict::new(1, [0; 16], None, None, None, None)]);
    assert!(!p.success);
    assert_eq!(p.new_cursor, 3);
    let q = PushResponse::with_conflicts(4, vec![]);
    assert!(q.success);
    let e = PushResponse::error("nope");
    assert_eq!(e.error, Some("nope".to_string()));
    assert_eq!(HandshakeRequest::new([1; 16], [2; 16], 5).protocol_version, 1);
}
