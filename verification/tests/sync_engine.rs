use entidb::{
    HandshakeRequest, HandshakeResponse, MemorySyncApplier, MockTransport, OperationType,
    PullResponse, PushResponse, SyncApplier, SyncEngine, SyncError, SyncOperation, SyncSettings,
    SyncState, SyncTransport, ConflictPolicy,
};

#[test]
fn retryable_errors() {
    assert!(SyncError::transport_retryable("connection lost").is_retryable());
    assert!(!SyncError::transport_fatal("invalid certificate").is_retryable());
    assert!(SyncError::Timeout.is_retryable());
    assert!(SyncError::ServerError("internal error".into()).is_retryable());
    assert!(!SyncError::Cancelled.is_retryable());
}

#[test]
fn error_error_display() {
    let err = SyncError::NotConnected;
    assert_eq!(err.to_string(), "not connected to server");

    let err = SyncError::VersionMismatch {
        local: 1,
        remote: 2,
    };
    assert!(err.to_string().contains("1"));
    assert!(err.to_string().contains("2"));
}

#[test]
fn mock_transport_connection() {
    let mut transport = MockTransport::new();
    assert!(transport.is_connected());

    transport.set_connected(false);
    assert!(!transport.is_connected());

    transport.close().unwrap();
    assert!(!transport.is_connected());
}

#[test]
fn mock_transport_not_connected_error() {
    let mut transport = MockTransport::new();
    transport.set_connected(false);

    let request = HandshakeRequest::new([0u8; 16], [0u8; 16], 0);

    let result = transport.handshake(&request);
    assert!(matches!(result, Err(SyncError::NotConnected)));
}

#[test]
fn mock_transport_handshake() {
    let mut transport = MockTransport::new();
    let response = HandshakeResponse::success(0);
    transport.set_handshake_response(response);

    let request = HandshakeRequest::new([0u8; 16], [0u8; 16], 0);

    let result = transport.handshake(&request).unwrap();
    assert!(result.success);
}

fn make_operation(op_id: u64, entity_id: [u8; 16], op_type: OperationType) -> SyncOperation {
    SyncOperation {
        op_id,
        collection_id: 1,
        entity_id,
        op_type,
        payload: Some(vec![0x42]),
        sequence: op_id,
    }
}

fn settings() -> SyncSettings {
    SyncSettings::new([1u8; 16], [2u8; 16])
}

#[test]
fn sync_state_checks() {
    assert!(SyncState::Idle.can_start_sync());
    assert!(SyncState::Synced.can_start_sync());
    assert!(SyncState::Error.can_start_sync());
    assert!(!SyncState::Pulling.can_start_sync());
    assert!(!SyncState::Pushing.can_start_sync());

    assert!(SyncState::Pulling.is_active());
    assert!(SyncState::Pushing.is_active());
    assert!(!SyncState::Idle.is_active());
}

#[test]
fn sync_engine_initial_state() {
    let transport = MockTransport::new();
    let applier = MemorySyncApplier::new();

    let engine = SyncEngine::new(settings(), transport, applier);
    assert_eq!(engine.state(), SyncState::Idle);
    assert_eq!(engine.stats().cycles_completed, 0);
}

#[test]
fn sync_engine_successful_sync() {
    let mut transport = MockTransport::new();

    transport.set_handshake_response(HandshakeResponse::success(0));

    transport.set_pull_response(PullResponse::new(
        vec![make_operation(1, [3u8; 16], OperationType::Put)],
        1,
        false,
    ));

    transport.set_push_response(PushResponse::success(2));

    let applier = MemorySyncApplier::new();
    let mut engine = SyncEngine::new(settings(), transport, applier);

    let result = engine.sync().unwrap();
    assert!(result.success);
    assert_eq!(result.pulled, 1);
    assert_eq!(engine.state(), SyncState::Synced);
    assert_eq!(engine.stats().cycles_completed, 1);
}

#[test]
fn sync_engine_handshake_failure() {
    let mut transport = MockTransport::new();

    transport.set_handshake_response(HandshakeResponse::error("Auth failed"));

    let applier = MemorySyncApplier::new();
    let mut engine = SyncEngine::new(settings(), transport, applier);

    let result = engine.sync();
    assert!(result.is_err());
    assert_eq!(engine.state(), SyncState::Error);
}

#[test]
fn sync_engine_cancel() {
    let mut transport = MockTransport::new();
    transport.set_handshake_response(HandshakeResponse::success(0));
    transport.set_pull_response(PullResponse::new(vec![], 0, false));
    transport.set_push_response(PushResponse::success(0));

    let applier = MemorySyncApplier::new();
    let mut engine = SyncEngine::new(settings(), transport, applier);

    assert!(!engine.is_cancelled());
    engine.cancel();
    assert!(engine.is_cancelled());
    engine.reset_cancel();
    assert!(!engine.is_cancelled());
}

#[test]
fn memory_applier_operations() {
    let mut applier = MemorySyncApplier::new();

    applier.add_pending(make_operation(1, [1u8; 16], OperationType::Put));
    applier.add_pending(make_operation(2, [2u8; 16], OperationType::Put));

    let pending = applier.get_pending_operations(10).unwrap();
    assert_eq!(pending.len(), 2);

    applier.acknowledge_operations(1).unwrap();
    let pending = applier.get_pending_operations(10).unwrap();
    assert_eq!(pending.len(), 1);

    let remote = vec![make_operation(100, [10u8; 16], OperationType::Put)];
    applier.apply_remote_operations(&remote).unwrap();
    assert_eq!(applier.applied_operations().len(), 1);
}

#[test]
fn server_cursor_management() {
    let mut applier = MemorySyncApplier::new();

    assert_eq!(applier.get_server_cursor().unwrap(), 0);
    applier.set_server_cursor(42).unwrap();
    assert_eq!(applier.get_server_cursor().unwrap(), 42);
}

#[test]
fn sync_pushes_pending_and_updates_cursor() {
    let mut transport = MockTransport::new();
    transport.set_handshake_response(HandshakeResponse::success(0));
    transport.set_pull_response(PullResponse::new(vec![], 5, false));
    transport.set_push_response(PushResponse::success(9));
    let mut applier = MemorySyncApplier::new();
    applier.add_pending(make_operation(0, [4u8; 16], OperationType::Put));
    applier.add_pending(make_operation(0, [5u8; 16], OperationType::Delete));
    let mut engine = SyncEngine::new(settings(), transport, applier);
    let result = engine.sync().unwrap();
    assert_eq!(result.pushed, 2);
    assert_eq!(result.pulled, 0);
    assert_eq!(engine.applier().get_server_cursor().unwrap(), 9);
    assert_eq!(engine.applier().get_pending_operations(10).unwrap().len(), 0);
    let stats = engine.stats();
    assert_eq!(stats.operations_pushed, 2);
    assert!(stats.last_error.is_none());
}

#[test]
fn sync_error_records_message_and_allows_retry() {
    let mut transport = MockTransport::new();
    transport.set_connected(false);
    let mut engine = SyncEngine::new(settings(), transport, MemorySyncApplier::new());
    assert!(matches!(engine.sync(), Err(SyncError::NotConnected)));
    assert_eq!(engine.state(), SyncState::Error);
    assert_eq!(
        engine.stats().last_error,
        Some("not connected to server".to_string())
    );
    assert!(matches!(engine.sync(), Err(SyncError::NotConnected)));
    assert_eq!(engine.conflict_policy(), ConflictPolicy::ServerWins);
    engine.set_conflict_policy(ConflictPolicy::Manual);
    assert_eq!(engine.conflict_policy(), ConflictPolicy::Manual);
}

#[test]
fn sync_error_messages() {
    let err = SyncError::UnresolvedConflict {
        collection_id: 1,
        entity_id: [7; 16],
    };
    assert_eq!(
        err.to_string(),
        "unresolved conflict for entity [7, 7, 7, 7, 7, 7, 7, 7, 7, 7, 7, 7, 7, 7, 7, 7] in collection 1"
    );
    let err = SyncError::InvalidStateTransition {
        from: "Pulling".to_string(),
        to: "sync".to_string(),
    };
    assert_eq!(
        err.to_string(),
        "invalid state transition from \"Pulling\" to \"sync\""
    );
    assert_eq!(
        SyncError::transport_fatal("x").to_string(),
        "transport error: x"
    );
}

#[test]
fn retry_decisions() {
    assert!(entidb::should_retry(&SyncError::Timeout, 0, 3));
    assert!(entidb::should_retry(&SyncError::Timeout, 1, 3));
    assert!(!entidb::should_retry(&SyncError::Timeout, 2, 3));
    assert!(!entidb::should_retry(&SyncError::Cancelled, 0, 3));
    assert!(!entidb::should_retry(&SyncError::Timeout, 0, 0));
}

#[test]
fn retry_attempts_count_and_stop_on_cancel() {
    let mut transport = MockTransport::new();
    transport.set_handshake_response(HandshakeResponse::success(0));
    transport.set_pull_response(PullResponse::new(Vec::new(), 0, false));
    transport.set_push_response(PushResponse::success(0));
    let mut engine = SyncEngine::new(settings(), transport, MemorySyncApplier::new());

    assert!(engine.run_attempt(0).is_ok());
    assert_eq!(engine.stats().retries, 0);

    engine.begin_retry_wait();
    assert_eq!(engine.state(), SyncState::RetryWait);
    // A cycle may not start from the retry-wait state.
    assert!(matches!(engine.run_attempt(1), Err(SyncError::InvalidStateTransition { .. })));
    assert_eq!(engine.stats().retries, 1);

    engine.cancel();
    assert!(matches!(engine.run_attempt(2), Err(SyncError::Cancelled)));
    assert_eq!(engine.stats().retries, 2);
}

#[test]
fn acknowledge_keeps_later_operations_pending() {
    let mut applier = MemorySyncApplier::new();
    applier.add_pending(make_operation(1, [1u8; 16], OperationType::Put));
    applier.add_pending(make_operation(2, [2u8; 16], OperationType::Put));
    applier.add_pending(make_operation(3, [3u8; 16], OperationType::Put));
    let ids: Vec<u64> = applier.get_pending_operations(10).unwrap().iter().map(|o| o.op_id).collect();
    let cut = ids[1];
    applier.acknowledge_operations(cut).unwrap();
    let left: Vec<u64> = applier.get_pending_operations(10).unwrap().iter().map(|o| o.op_id).collect();
    assert_eq!(left, vec![ids[2]]);
}

#[test]
fn sync_applies_pulled_operations_and_records_the_cursor() {
    let mut transport = MockTransport::new();
    transport.set_handshake_response(HandshakeResponse::success(0));
    transport.set_pull_response(PullResponse::new(
        vec![
            make_operation(1, [3u8; 16], OperationType::Put),
            make_operation(2, [4u8; 16], OperationType::Delete),
        ],
        7,
        false,
    ));
    transport.set_push_response(PushResponse::success(7));
    let mut engine = SyncEngine::new(settings(), transport, MemorySyncApplier::new());
    let result = engine.sync().unwrap();
    assert_eq!(result.pulled, 2);
    assert_eq!(result.pushed, 0);
    assert_eq!(engine.applier().applied_operations().len(), 2);
    assert_eq!(engine.applier().get_server_cursor().unwrap(), 7);
    assert_eq!(engine.stats().operations_pulled, 2);
}
