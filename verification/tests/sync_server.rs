use entidb::{
    AuthConfig, ConflictResolution, HandlerContext, HandshakeRequest, OperationType, PullRequest,
    PushRequest, RequestHandler, ServerConfig, ServerError, ServerOplog, SimpleTokenValidator,
    SyncMessage, SyncOperation, SyncServer, TokenValidator,
};

const SECRET: &[u8] = b"test-secret-key-32-bytes-long!!";

fn op(collection_id: u32, entity_id: [u8; 16], sequence: u64) -> SyncOperation {
    SyncOperation {
        op_id: sequence,
        collection_id,
        entity_id,
        op_type: OperationType::Put,
        payload: Some(vec![0x42]),
        sequence,
    }
}

fn create_handler() -> RequestHandler {
    let context = HandlerContext::new(ServerConfig::default(), ServerOplog::new());
    RequestHandler::new(context)
}

// ---- authentication ----

#[test]
fn create_and_validate_token() {
    let validator = TokenValidator::new(AuthConfig::new(SECRET.to_vec()));
    let device_id = [1u8; 16];
    let db_id = [2u8; 16];

    let token = validator.create_token(device_id, db_id);
    assert_eq!(token.len(), 72);

    let result = validator.validate_token(&token, &device_id, &db_id);
    assert!(result.is_ok());
}

#[test]
fn reject_wrong_device() {
    let validator = TokenValidator::new(AuthConfig::new(SECRET.to_vec()));
    let device_id = [1u8; 16];
    let wrong_device = [3u8; 16];
    let db_id = [2u8; 16];

    let token = validator.create_token(device_id, db_id);
    let result = validator.validate_token(&token, &wrong_device, &db_id);
    assert!(result.is_err());
}

#[test]
fn reject_wrong_db() {
    let validator = TokenValidator::new(AuthConfig::new(SECRET.to_vec()));
    let device_id = [1u8; 16];
    let db_id = [2u8; 16];
    let wrong_db = [3u8; 16];

    let token = validator.create_token(device_id, db_id);
    let result = validator.validate_token(&token, &device_id, &wrong_db);
    assert!(result.is_err());
}

#[test]
fn reject_tampered_token() {
    let validator = TokenValidator::new(AuthConfig::new(SECRET.to_vec()));
    let device_id = [1u8; 16];
    let db_id = [2u8; 16];

    let mut token = validator.create_token(device_id, db_id);
    token[50] ^= 0xFF;

    let result = validator.validate_token(&token, &device_id, &db_id);
    assert!(result.is_err());
}

#[test]
fn simple_validator() {
    let validator = SimpleTokenValidator::new(b"shared-secret".to_vec());

    assert!(validator.validate(b"shared-secret").is_ok());
    assert!(validator.validate(b"wrong-secret").is_err());
}

#[test]
fn token_layout_and_messages() {
    let validator = TokenValidator::new(AuthConfig::new(SECRET.to_vec()).with_expiry_millis(1000));
    let device_id = [7u8; 16];
    let db_id = [9u8; 16];
    let token = validator.create_token_at(device_id, db_id, 5000);
    assert_eq!(&token[0..16], &device_id);
    assert_eq!(&token[16..32], &db_id);
    assert_eq!(&token[32..40], &5000u64.to_be_bytes());

    let message = |r: Result<(), ServerError>| match r {
        Err(ServerError::NotAuthorized(m)) => m,
        other => panic!("unexpected {:?}", other),
    };
    assert!(validator.validate_token_at(&token, &device_id, &db_id, 5000).is_ok());
    assert!(validator.validate_token_at(&token, &device_id, &db_id, 6000).is_ok());
    assert_eq!(message(validator.validate_token_at(&token, &device_id, &db_id, 6001)), "Token expired");
    assert_eq!(message(validator.validate_token_at(&token[..71], &device_id, &db_id, 5000)), "Invalid token length");
    assert_eq!(message(validator.validate_token_at(&token, &[0u8; 16], &db_id, 5000)), "Device ID mismatch");
    assert_eq!(message(validator.validate_token_at(&token, &device_id, &[0u8; 16], 5000)), "Database ID mismatch");
    let mut tampered = token.clone();
    tampered[71] ^= 1;
    assert_eq!(message(validator.validate_token_at(&tampered, &device_id, &db_id, 5000)), "Invalid signature");

    let other = TokenValidator::new(AuthConfig::new(b"another secret".to_vec()));
    assert!(other.validate_token_at(&token, &device_id, &db_id, 5000).is_err());
}

#[test]
fn expired_token_with_zero_expiry() {
    let validator = TokenValidator::new(AuthConfig::new(SECRET.to_vec()).with_expiry_millis(0));
    let token = validator.create_token_at([1u8; 16], [2u8; 16], 100);
    assert!(validator.validate_token_at(&token, &[1u8; 16], &[2u8; 16], 100).is_ok());
    assert!(validator.validate_token_at(&token, &[1u8; 16], &[2u8; 16], 110).is_err());
}

// ---- errors ----

#[test]
fn error_classification() {
    assert!(ServerError::InvalidRequest("bad".into()).is_client_error());
    assert!(ServerError::Internal("oops".into()).is_server_error());
    assert!(!ServerError::InvalidRequest("bad".into()).is_server_error());
}

#[test]
fn error_display() {
    let err = ServerError::CursorConflict { expected: 10, actual: 5 };
    let msg = err.to_string();
    assert!(msg.contains("10"));
    assert!(msg.contains("5"));
    assert_eq!(msg, "conflict: cursor mismatch, expected 10, got 5");
    assert_eq!(ServerError::UnknownDatabase([1u8; 16]).to_string(), format!("unknown database: {:?}", [1u8; 16]));
    assert_eq!(ServerError::NotAuthorized("no".into()).to_string(), "not authorized: no");
    assert!(ServerError::UnknownDatabase([0u8; 16]).is_client_error());
    assert!(!ServerError::Database("x".into()).is_client_error());
}

// ---- config ----

#[test]
fn default_config() {
    let config = ServerConfig::default();
    assert_eq!(config.max_connections, 1000);
    assert!(!config.require_auth);
    assert_eq!(config.bind_addr, "127.0.0.1:8080");
    assert_eq!(config.request_timeout_ms, 30000);
}

#[test]
fn config_builder() {
    let config = ServerConfig::new("0.0.0.0:9000".to_string())
        .with_max_connections(500)
        .with_max_pull_batch(50)
        .with_auth(vec![1, 2, 3, 4]);

    assert_eq!(config.max_connections, 500);
    assert_eq!(config.max_pull_batch, 50);
    assert!(config.require_auth);
    assert_eq!(config.auth_secret, Some(vec![1, 2, 3, 4]));
}

// ---- oplog ----

#[test]
fn empty_oplog() {
    let oplog = ServerOplog::new();
    assert_eq!(oplog.cursor(), 1);
    assert!(oplog.is_empty());
    assert_eq!(oplog.operations_since(0, 10).len(), 0);
}

#[test]
fn append_operations() {
    let mut oplog = ServerOplog::new();
    let ops = vec![op(1, [1u8; 16], 0), op(1, [2u8; 16], 0)];

    let (new_cursor, conflicts) = oplog.append(ops, 1).unwrap();
    assert_eq!(new_cursor, 3);
    assert!(conflicts.is_empty());
    assert_eq!(oplog.len(), 2);
}

#[test]
fn cursor_conflict() {
    let mut oplog = ServerOplog::new();
    let ops = vec![op(1, [1u8; 16], 0)];

    let result = oplog.append(ops, 5);
    assert!(result.is_err());
    assert!(matches!(result, Err(ServerError::CursorConflict { expected: 1, actual: 5 })));
    assert_eq!(oplog.len(), 0);
}

#[test]
fn operations_since_cursor() {
    let mut oplog = ServerOplog::new();
    let ops = vec![op(1, [1u8; 16], 0), op(1, [2u8; 16], 0), op(1, [3u8; 16], 0)];
    oplog.append(ops, 1).unwrap();

    let all = oplog.operations_since(0, 10);
    assert_eq!(all.len(), 3);

    let some = oplog.operations_since(2, 10);
    assert_eq!(some.len(), 1);
    assert_eq!(some[0].sequence, 3);
    assert_eq!(some[0].entity_id, [3u8; 16]);
}

#[test]
fn has_more() {
    let mut oplog = ServerOplog::new();
    let ops = vec![op(1, [1u8; 16], 0), op(1, [2u8; 16], 0), op(1, [3u8; 16], 0)];
    oplog.append(ops, 1).unwrap();

    assert!(oplog.has_more_after(0, 2));
    assert!(!oplog.has_more_after(0, 10));
}

#[test]
fn stale_operation_conflicts() {
    let mut oplog = ServerOplog::with_cursor(10);
    let (cursor, conflicts) = oplog.append(vec![op(1, [1u8; 16], 0)], 10).unwrap();
    assert_eq!(cursor, 11);
    assert!(conflicts.is_empty());

    // The server holds version 10 of the entity; a client version at or
    // below it conflicts, one above it is accepted.
    let mut stale = op(1, [1u8; 16], 10);
    stale.payload = Some(vec![7, 7]);
    let (cursor, mut conflicts) = oplog.append(vec![stale, op(1, [1u8; 16], 11)], 11).unwrap();
    assert_eq!(cursor, 12);
    assert_eq!(conflicts.len(), 1);
    assert_eq!(conflicts[0].local_payload, Some(vec![7, 7]));
    assert_eq!(conflicts[0].remote_payload, Some(vec![0x42]));
    assert!(conflicts[0].local_hash.is_some());
    assert_ne!(conflicts[0].local_hash, conflicts[0].remote_hash);
    assert_eq!(oplog.len(), 2);

    oplog.resolve_conflicts(&mut conflicts);
    assert_eq!(conflicts[0].resolution, Some(ConflictResolution::AcceptRemote));
}

#[test]
fn pushed_operations_come_back_in_order() {
    let mut oplog = ServerOplog::new();
    oplog.append(vec![op(1, [1u8; 16], 0)], 1).unwrap();
    let before = oplog.cursor();
    oplog.append(vec![op(2, [5u8; 16], 0), op(2, [6u8; 16], 0)], before).unwrap();
    let pulled = oplog.operations_since(before - 1, 100);
    assert_eq!(pulled.len(), 2);
    assert_eq!((pulled[0].sequence, pulled[0].entity_id), (2, [5u8; 16]));
    assert_eq!((pulled[1].sequence, pulled[1].entity_id), (3, [6u8; 16]));
}

// ---- handler ----

#[test]
fn handshake_success() {
    let mut handler = create_handler();
    let request = HandshakeRequest::new([1u8; 16], [2u8; 16], 0);

    let response = handler.handle_handshake(request).unwrap();
    assert!(response.success);
    assert_eq!(response.server_cursor, 1);
}

#[test]
fn handshake_bad_version() {
    let mut handler = create_handler();
    let request = HandshakeRequest {
        db_id: [1u8; 16],
        device_id: [2u8; 16],
        protocol_version: 99,
        last_cursor: 0,
    };

    let response = handler.handle_handshake(request).unwrap();
    assert!(!response.success);
    assert!(response.error.is_some());
    assert_eq!(response.error.as_deref(), Some("Unsupported protocol version: 99"));
}

#[test]
fn pull_empty() {
    let handler = create_handler();
    let request = PullRequest::new(0, 10);

    let response = handler.handle_pull(request).unwrap();
    assert!(response.operations.is_empty());
    assert!(!response.has_more);
    assert_eq!(response.new_cursor, 0);
}

#[test]
fn push_and_pull() {
    let mut handler = create_handler();
    let push_request = PushRequest::new(vec![op(1, [1u8; 16], 0), op(1, [2u8; 16], 0)], 1);

    let push_response = handler.handle_push(push_request).unwrap();
    assert!(push_response.success);

    let pull_response = handler.handle_pull(PullRequest::new(0, 10)).unwrap();
    assert_eq!(pull_response.operations.len(), 2);
}

#[test]
fn push_cursor_conflict() {
    let mut handler = create_handler();
    let request = PushRequest::new(vec![op(1, [1u8; 16], 0)], 5);

    let response = handler.handle_push(request).unwrap();
    assert!(!response.success);
    assert!(response.error.is_some());
    assert_eq!(response.new_cursor, 1);
    assert_eq!(response.error.as_deref(), Some("Cursor conflict: expected 1, got 5"));
}

#[test]
fn pull_pagination() {
    let mut handler = create_handler();
    let ops: Vec<_> = (0..5).map(|i| op(1, [i as u8; 16], 0)).collect();
    handler.handle_push(PushRequest::new(ops, 1)).unwrap();

    let response = handler.handle_pull(PullRequest::new(0, 2)).unwrap();
    assert_eq!(response.operations.len(), 2);
    assert!(response.has_more);

    let response = handler.handle_pull(PullRequest::new(response.new_cursor, 2)).unwrap();
    assert_eq!(response.operations.len(), 2);
    assert!(response.has_more);

    let response = handler.handle_pull(PullRequest::new(response.new_cursor, 2)).unwrap();
    assert_eq!(response.operations.len(), 1);
    assert!(!response.has_more);
}

#[test]
fn pages_cover_the_log_once() {
    let mut handler = create_handler();
    let ops: Vec<_> = (0..7).map(|i| op(1, [i as u8; 16], 0)).collect();
    handler.handle_push(PushRequest::new(ops, 1)).unwrap();

    let mut cursor = 0;
    let mut seen = Vec::new();
    loop {
        let response = handler.handle_pull(PullRequest::new(cursor, 3)).unwrap();
        seen.extend(response.operations.iter().map(|o| o.sequence));
        cursor = response.new_cursor;
        if !response.has_more {
            break;
        }
    }
    assert_eq!(seen, vec![1, 2, 3, 4, 5, 6, 7]);
    assert_eq!(cursor, 7);
}

#[test]
fn pull_limited_by_server_batch() {
    let config = ServerConfig::default().with_max_pull_batch(2);
    let mut handler = RequestHandler::new(HandlerContext::new(config, ServerOplog::new()));
    let ops: Vec<_> = (0..3).map(|i| op(1, [i as u8; 16], 0)).collect();
    handler.handle_push(PushRequest::new(ops, 1)).unwrap();

    let response = handler.handle_pull(PullRequest::new(0, 10)).unwrap();
    assert_eq!(response.operations.len(), 2);
    assert!(response.has_more);
    assert_eq!(response.new_cursor, 2);
}

#[test]
fn push_too_many_operations() {
    let config = ServerConfig::default().with_max_push_batch(1);
    let mut handler = RequestHandler::new(HandlerContext::new(config, ServerOplog::new()));
    let result = handler.handle_push(PushRequest::new(vec![op(1, [1u8; 16], 0), op(1, [2u8; 16], 0)], 1));
    match result {
        Err(ServerError::InvalidRequest(m)) => assert_eq!(m, "Too many operations: 2 > 1"),
        other => panic!("unexpected {:?}", other),
    }
    assert_eq!(handler.oplog().len(), 0);
}

#[test]
fn push_with_conflicts_is_unsuccessful() {
    let mut handler = create_handler();
    handler.handle_push(PushRequest::new(vec![op(1, [1u8; 16], 0)], 1)).unwrap();
    let response = handler.handle_push(PushRequest::new(vec![op(1, [1u8; 16], 1)], 2)).unwrap();
    assert!(!response.success);
    assert_eq!(response.conflicts.len(), 1);
    assert_eq!(response.new_cursor, 2);
    assert!(response.error.is_none());
}

// ---- server ----

#[test]
fn server_lifecycle() {
    let server = SyncServer::new(ServerConfig::default());
    assert_eq!(server.cursor(), 1);
    assert_eq!(server.operation_count(), 0);
}

#[test]
fn full_sync_flow() {
    let mut server = SyncServer::new(ServerConfig::default());

    let handshake = HandshakeRequest::new([1u8; 16], [2u8; 16], 0);
    let response = server.handle_handshake(handshake).unwrap();
    assert!(response.success);
    let server_cursor = response.server_cursor;

    let response = server.handle_pull(PullRequest::new(0, 10)).unwrap();
    assert!(response.operations.is_empty());

    let push = PushRequest::new(vec![op(1, [1u8; 16], 0), op(1, [2u8; 16], 0)], server_cursor);
    let response = server.handle_push(push).unwrap();
    assert!(response.success);
    assert_eq!(response.new_cursor, 3);

    let response = server.handle_pull(PullRequest::new(0, 10)).unwrap();
    assert_eq!(response.operations.len(), 2);
}

#[test]
fn message_dispatch() {
    let mut server = SyncServer::new(ServerConfig::default());
    let message = SyncMessage::HandshakeRequest(HandshakeRequest::new([1u8; 16], [2u8; 16], 0));

    let response = server.handle_message(message).unwrap();
    assert!(matches!(response, SyncMessage::HandshakeResponse(_)));

    let refused = server.handle_message(SyncMessage::PullResponse(entidb::PullResponse::new(Vec::new(), 0, false)));
    assert_eq!(refused.unwrap_err(), "Unexpected message type");
}

#[test]
fn shared_oplog() {
    let mut server = SyncServer::with_oplog(ServerConfig::default(), ServerOplog::new());

    let push = PushRequest::new(vec![op(1, [1u8; 16], 0)], 1);
    server.handle_push(push).unwrap();

    assert_eq!(server.oplog().len(), 1);
}

#[test]
fn server_push_error_text() {
    let mut server = SyncServer::new(ServerConfig::default().with_max_push_batch(0));
    let result = server.handle_push(PushRequest::new(vec![op(1, [1u8; 16], 0)], 1));
    assert_eq!(result.unwrap_err(), "invalid request: Too many operations: 1 > 0");
}
