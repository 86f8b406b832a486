use entidb::{
    CodecError, Conflict, ConflictResolution, HandshakeRequest, HandshakeResponse, OperationType,
    PullRequest, PullResponse, PushRequest, PushResponse, SyncOperation,
};

#[test]
fn put_operation_roundtrip() {
    let entity_id = [1u8; 16];
    let payload = vec![0xA1, 0x64, 0x74, 0x65, 0x73, 0x74]; // {"test"}

    let op = SyncOperation::put(1, 100, entity_id, payload.clone(), 42);

    let bytes = op.encode().unwrap();
    let decoded = SyncOperation::decode(&bytes).unwrap();

    assert_eq!(decoded.op_id, 1);
    assert_eq!(decoded.collection_id, 100);
    assert_eq!(decoded.entity_id, entity_id);
    assert_eq!(decoded.op_type, OperationType::Put);
    assert_eq!(decoded.payload, Some(payload));
    assert_eq!(decoded.sequence, 42);
}

#[test]
fn delete_operation_roundtrip() {
    let entity_id = [2u8; 16];

    let op = SyncOperation::delete(5, 200, entity_id, 99);

    let bytes = op.encode().unwrap();
    let decoded = SyncOperation::decode(&bytes).unwrap();

    assert_eq!(decoded.op_id, 5);
    assert_eq!(decoded.collection_id, 200);
    assert_eq!(decoded.entity_id, entity_id);
    assert_eq!(decoded.op_type, OperationType::Delete);
    assert_eq!(decoded.payload, None);
    assert_eq!(decoded.sequence, 99);
}

#[test]
fn conflict_roundtrip() {
    let conflict = Conflict::new(
        1,
        [5u8; 16],
        Some([1u8; 32]),
        Some([2u8; 32]),
        Some(vec![1, 2, 3]),
        Some(vec![4, 5, 6]),
    );

    let bytes = conflict.encode().unwrap();
    let decoded = Conflict::decode(&bytes).unwrap();

    assert_eq!(decoded.collection_id, 1);
    assert_eq!(decoded.entity_id, [5u8; 16]);
    assert_eq!(decoded.local_hash, Some([1u8; 32]));
    assert_eq!(decoded.remote_hash, Some([2u8; 32]));
    assert_eq!(decoded.local_payload, Some(vec![1, 2, 3]));
    assert_eq!(decoded.remote_payload, Some(vec![4, 5, 6]));
}

#[test]
fn handshake_request_roundtrip() {
    let req = HandshakeRequest::new([1u8; 16], [2u8; 16], 100);
    let bytes = req.encode().unwrap();
    let decoded = HandshakeRequest::decode(&bytes).unwrap();

    assert_eq!(decoded.db_id, [1u8; 16]);
    assert_eq!(decoded.device_id, [2u8; 16]);
    assert_eq!(decoded.last_cursor, 100);
}

#[test]
fn handshake_response_success() {
    let resp = HandshakeResponse::success(500);
    let bytes = resp.encode().unwrap();
    let decoded = HandshakeResponse::decode(&bytes).unwrap();

    assert!(decoded.success);
    assert_eq!(decoded.server_cursor, 500);
    assert!(decoded.error.is_none());
}

#[test]
fn handshake_response_error() {
    let resp = HandshakeResponse::error("version mismatch");
    let bytes = resp.encode().unwrap();
    let decoded = HandshakeResponse::decode(&bytes).unwrap();

    assert!(!decoded.success);
    assert_eq!(decoded.error, Some("version mismatch".to_string()));
}

#[test]
fn pull_request_roundtrip() {
    let req = PullRequest::new(50, 200);
    let bytes = req.encode().unwrap();
    let decoded = PullRequest::decode(&bytes).unwrap();

    assert_eq!(decoded.cursor, 50);
    assert_eq!(decoded.limit, 200);
}

#[test]
fn pull_response_with_operations() {
    let ops = vec![
        SyncOperation::put(1, 100, [1u8; 16], vec![1, 2, 3], 10),
        SyncOperation::delete(2, 100, [2u8; 16], 11),
    ];

    let resp = PullResponse::new(ops, 11, true);
    let bytes = resp.encode().unwrap();
    let decoded = PullResponse::decode(&bytes).unwrap();

    assert_eq!(decoded.operations.len(), 2);
    assert_eq!(decoded.new_cursor, 11);
    assert!(decoded.has_more);
}

#[test]
fn push_request_roundtrip() {
    let ops = vec![SyncOperation::put(1, 50, [3u8; 16], vec![4, 5, 6], 20)];

    let req = PushRequest::new(ops, 100);
    let bytes = req.encode().unwrap();
    let decoded = PushRequest::decode(&bytes).unwrap();

    assert_eq!(decoded.operations.len(), 1);
    assert_eq!(decoded.expected_cursor, 100);
}

#[test]
fn push_response_success() {
    let resp = PushResponse::success(150);
    let bytes = resp.encode().unwrap();
    let decoded = PushResponse::decode(&bytes).unwrap();

    assert!(decoded.success);
    assert_eq!(decoded.new_cursor, 150);
    assert!(decoded.conflicts.is_empty());
}

// === Further cases ===

#[test]
fn operation_encoding_is_canonical_cbor() {
    let op = SyncOperation::delete(1, 2, [0u8; 16], 3);
    let bytes = op.encode().unwrap();
    let mut expected = vec![0xA5];
    expected.push(0x65);
    expected.extend_from_slice(b"op_id");
    expected.push(0x01);
    expected.push(0x67);
    expected.extend_from_slice(b"op_type");
    expected.push(0x02);
    expected.push(0x68);
    expected.extend_from_slice(b"sequence");
    expected.push(0x03);
    expected.push(0x69);
    expected.extend_from_slice(b"entity_id");
    expected.push(0x50);
    expected.extend_from_slice(&[0u8; 16]);
    expected.push(0x6D);
    expected.extend_from_slice(b"collection_id");
    expected.push(0x02);
    assert_eq!(bytes, expected);
}

#[test]
fn large_ids_roundtrip_through_negative_integers() {
    let op = SyncOperation::put(u64::MAX, u32::MAX, [7u8; 16], vec![], u64::MAX - 1);
    let decoded = SyncOperation::decode(&op.encode().unwrap()).unwrap();
    assert_eq!(decoded, op);
}

#[test]
fn decode_errors_name_the_problem() {
    assert_eq!(SyncOperation::decode(&[]), Err(CodecError::Malformed));
    assert_eq!(
        SyncOperation::decode(&[0x01]),
        Err(CodecError::InvalidStructure("expected map for SyncOperation".to_string()))
    );
    // An empty map lacks every field.
    assert_eq!(
        SyncOperation::decode(&[0xA0]),
        Err(CodecError::InvalidStructure("missing op_id".to_string()))
    );
    assert_eq!(
        Conflict::decode(&[0xA0]),
        Err(CodecError::InvalidStructure("missing collection_id".to_string()))
    );
    assert_eq!(
        HandshakeRequest::decode(&[0xA0]),
        Err(CodecError::InvalidStructure("missing db_id".to_string()))
    );
    // Trailing bytes after the map are refused.
    assert_eq!(PullRequest::decode(&[0xA0, 0x00]), Err(CodecError::Malformed));
}

#[test]
fn missing_fields_take_their_defaults() {
    let req = PullRequest::decode(&[0xA0]).unwrap();
    assert_eq!(req.cursor, 0);
    assert_eq!(req.limit, 100);
    let resp = HandshakeResponse::decode(&[0xA0]).unwrap();
    assert!(!resp.success);
    assert_eq!(resp.protocol_version, 1);
    assert_eq!(resp.server_cursor, 0);
}

#[test]
fn conflict_with_resolution_and_no_optional_parts() {
    let mut conflict = Conflict::new(9, [4u8; 16], None, None, None, None);
    conflict.resolve(ConflictResolution::Merge);
    let decoded = Conflict::decode(&conflict.encode().unwrap()).unwrap();
    assert_eq!(decoded, conflict);
}

#[test]
fn push_response_with_conflicts_and_error_roundtrip() {
    let conflicts = vec![Conflict::new(1, [1u8; 16], Some([3u8; 32]), None, None, Some(vec![9]))];
    let resp = PushResponse::with_conflicts(7, conflicts.clone());
    let decoded = PushResponse::decode(&resp.encode().unwrap()).unwrap();
    assert!(!decoded.success);
    assert_eq!(decoded.new_cursor, 7);
    assert_eq!(decoded.conflicts, conflicts);

    let refused = PushResponse::error("cursor mismatch");
    let decoded = PushResponse::decode(&refused.encode().unwrap()).unwrap();
    assert_eq!(decoded.error, Some("cursor mismatch".to_string()));
}
