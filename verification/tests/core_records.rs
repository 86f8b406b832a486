use entidb::{
    compute_crc32, CollectionId, CompactionConfig, Compactor, CoreError, SegmentRecord,
    SegmentRecordFlags, SequenceNumber, TransactionId, WalRecord, WalRecordType,
};

#[test]
fn transaction_id_ordering() {
    let t1 = TransactionId::new(1);
    let t2 = TransactionId::new(2);
    assert!(t1 < t2);
}

#[test]
fn sequence_number_next() {
    let s1 = SequenceNumber::new(5);
    let s2 = s1.next();
    assert_eq!(s2.as_u64(), 6);
}

#[test]
fn collection_id_display() {
    let c = CollectionId::new(42);
    assert_eq!(c.to_string(), "col:42");
}

#[test]
fn transaction_and_sequence_display() {
    assert_eq!(TransactionId::new(7).to_string(), "txn:7");
    assert_eq!(SequenceNumber::new(0).to_string(), "seq:0");
    assert_eq!(CollectionId::new(1234567890).to_string(), "col:1234567890");
}

#[test]
fn record_type_roundtrip() {
    for t in [
        WalRecordType::Begin,
        WalRecordType::Put,
        WalRecordType::Delete,
        WalRecordType::Commit,
        WalRecordType::Abort,
        WalRecordType::Checkpoint,
    ] {
        assert_eq!(WalRecordType::from_byte(t.as_byte()), Some(t));
    }
}

#[test]
fn record_type_bytes_and_unknown_byte() {
    assert_eq!(WalRecordType::Begin.as_byte(), 1);
    assert_eq!(WalRecordType::Checkpoint.as_byte(), 6);
    assert_eq!(WalRecordType::from_byte(0), None);
    assert_eq!(WalRecordType::from_byte(7), None);
}

#[test]
fn begin_record_roundtrip() {
    let record = WalRecord::Begin { txid: TransactionId::new(42) };
    let payload = record.encode_payload().unwrap();
    let decoded = WalRecord::decode_payload(WalRecordType::Begin, &payload).unwrap();
    assert_eq!(record, decoded);
}

#[test]
fn put_record_roundtrip() {
    let record = WalRecord::Put {
        txid: TransactionId::new(1),
        collection_id: CollectionId::new(5),
        entity_id: [1, 2, 3, 4, 5, 6, 7, 8, 9, 10, 11, 12, 13, 14, 15, 16],
        before_hash: Some([0xAB; 32]),
        after_bytes: vec![0xCA, 0xFE, 0xBA, 0xBE],
    };
    let payload = record.encode_payload().unwrap();
    let decoded = WalRecord::decode_payload(WalRecordType::Put, &payload).unwrap();
    assert_eq!(record, decoded);
}

#[test]
fn put_record_no_hash() {
    let record = WalRecord::Put {
        txid: TransactionId::new(1),
        collection_id: CollectionId::new(5),
        entity_id: [0; 16],
        before_hash: None,
        after_bytes: vec![1, 2, 3],
    };
    let payload = record.encode_payload().unwrap();
    let decoded = WalRecord::decode_payload(WalRecordType::Put, &payload).unwrap();
    assert_eq!(record, decoded);
}

#[test]
fn delete_record_roundtrip() {
    let record = WalRecord::Delete {
        txid: TransactionId::new(99),
        collection_id: CollectionId::new(10),
        entity_id: [0xFF; 16],
        before_hash: None,
    };
    let payload = record.encode_payload().unwrap();
    let decoded = WalRecord::decode_payload(WalRecordType::Delete, &payload).unwrap();
    assert_eq!(record, decoded);
}

#[test]
fn commit_record_roundtrip() {
    let record = WalRecord::Commit {
        txid: TransactionId::new(7),
        sequence: SequenceNumber::new(100),
    };
    let payload = record.encode_payload().unwrap();
    let decoded = WalRecord::decode_payload(WalRecordType::Commit, &payload).unwrap();
    assert_eq!(record, decoded);
}

#[test]
fn abort_record_roundtrip() {
    let record = WalRecord::Abort { txid: TransactionId::new(8) };
    let payload = record.encode_payload().unwrap();
    let decoded = WalRecord::decode_payload(WalRecordType::Abort, &payload).unwrap();
    assert_eq!(record, decoded);
}

#[test]
fn checkpoint_record_roundtrip() {
    let record = WalRecord::Checkpoint { sequence: SequenceNumber::new(500) };
    let payload = record.encode_payload().unwrap();
    let decoded = WalRecord::decode_payload(WalRecordType::Checkpoint, &payload).unwrap();
    assert_eq!(record, decoded);
}

#[test]
fn wal_payload_exact_bytes() {
    let record = WalRecord::Commit {
        txid: TransactionId::new(1),
        sequence: SequenceNumber::new(2),
    };
    assert_eq!(
        record.encode_payload().unwrap(),
        vec![1, 0, 0, 0, 0, 0, 0, 0, 2, 0, 0, 0, 0, 0, 0, 0]
    );
    let del = WalRecord::Delete {
        txid: TransactionId::new(3),
        collection_id: CollectionId::new(4),
        entity_id: [9; 16],
        before_hash: None,
    };
    let p = del.encode_payload().unwrap();
    assert_eq!(p.len(), 29);
    assert_eq!(p[28], 0);
}

#[test]
fn wal_decode_rejects_trailing_and_short_payloads() {
    assert!(matches!(
        WalRecord::decode_payload(WalRecordType::Begin, &[0u8; 9]),
        Err(CoreError::WalCorruption(_))
    ));
    assert!(matches!(
        WalRecord::decode_payload(WalRecordType::Commit, &[0u8; 15]),
        Err(CoreError::WalCorruption(_))
    ));
    assert!(matches!(
        WalRecord::decode_payload(WalRecordType::Put, &[0u8; 20]),
        Err(CoreError::WalCorruption(_))
    ));
    let record = WalRecord::Put {
        txid: TransactionId::new(1),
        collection_id: CollectionId::new(5),
        entity_id: [0; 16],
        before_hash: None,
        after_bytes: vec![1, 2, 3],
    };
    let mut payload = record.encode_payload().unwrap();
    payload.push(0);
    assert!(WalRecord::decode_payload(WalRecordType::Put, &payload).is_err());
}

#[test]
fn wal_record_txid() {
    assert_eq!(
        WalRecord::Abort { txid: TransactionId::new(4) }.txid(),
        Some(TransactionId::new(4))
    );
    assert_eq!(WalRecord::Checkpoint { sequence: SequenceNumber::new(1) }.txid(), None);
    assert_eq!(
        WalRecord::Checkpoint { sequence: SequenceNumber::new(1) }.record_type(),
        WalRecordType::Checkpoint
    );
}

#[test]
fn crc32_known_value() {
    let crc = compute_crc32(b"123456789");
    assert_eq!(crc, 0xCBF4_3926);
}

#[test]
fn crc32_empty() {
    let crc = compute_crc32(b"");
    assert_eq!(crc, 0x0000_0000);
}

#[test]
fn segment_record_flags() {
    let flags = SegmentRecordFlags::none();
    assert!(!flags.is_tombstone());
    assert!(!flags.is_encrypted());

    let tombstone = flags.with_tombstone();
    assert!(tombstone.is_tombstone());
    assert!(!tombstone.is_encrypted());
}

#[test]
fn segment_record_flag_bytes() {
    assert_eq!(SegmentRecordFlags::encrypted().as_byte(), 2);
    assert!(SegmentRecordFlags::encrypted().with_tombstone().is_encrypted());
    assert_eq!(SegmentRecordFlags::from_byte(3).as_byte(), 3);
    assert!(SegmentRecordFlags::tombstone().is_tombstone());
}

#[test]
fn record_put_record_roundtrip() {
    let record = SegmentRecord::put(
        CollectionId::new(5),
        [1, 2, 3, 4, 5, 6, 7, 8, 9, 10, 11, 12, 13, 14, 15, 16],
        vec![0xCA, 0xFE, 0xBA, 0xBE],
        SequenceNumber::new(42),
    );

    let encoded = record.encode();
    let decoded = SegmentRecord::decode(&encoded).unwrap();

    assert_eq!(record, decoded);
}

#[test]
fn tombstone_record_roundtrip() {
    let record =
        SegmentRecord::tombstone(CollectionId::new(10), [0xFF; 16], SequenceNumber::new(100));

    assert!(record.is_tombstone());

    let encoded = record.encode();
    let decoded = SegmentRecord::decode(&encoded).unwrap();

    assert_eq!(record, decoded);
    assert!(decoded.is_tombstone());
}

#[test]
fn detect_corruption() {
    let record = SegmentRecord::put(
        CollectionId::new(1),
        [0; 16],
        vec![1, 2, 3],
        SequenceNumber::new(1),
    );

    let mut encoded = record.encode();
    encoded[10] ^= 0xFF;

    let result = SegmentRecord::decode(&encoded);
    assert!(matches!(result, Err(CoreError::ChecksumMismatch { .. })));
}

#[test]
fn encoded_size() {
    let record = SegmentRecord::put(
        CollectionId::new(1),
        [0; 16],
        vec![1, 2, 3, 4, 5],
        SequenceNumber::new(1),
    );

    assert_eq!(record.encoded_size(), record.encode().len());
}

#[test]
fn segment_decode_short_and_incomplete() {
    assert!(matches!(SegmentRecord::decode(&[0u8; 10]), Err(CoreError::SegmentCorruption(_))));
    let record = SegmentRecord::put(CollectionId::new(1), [0; 16], vec![1, 2, 3], SequenceNumber::new(1));
    let encoded = record.encode();
    let mut bad = encoded.clone();
    bad[0] = 200;
    assert!(matches!(SegmentRecord::decode(&bad), Err(CoreError::SegmentCorruption(_))));
    let mut tiny = encoded.clone();
    tiny[0] = 3;
    assert!(matches!(SegmentRecord::decode(&tiny), Err(CoreError::SegmentCorruption(_))));
    let mut extended = encoded.clone();
    extended.extend_from_slice(&[7, 7, 7]);
    assert_eq!(SegmentRecord::decode(&extended).unwrap(), record);
}

fn make_put(collection: u32, entity: u8, payload: &[u8], seq: u64) -> SegmentRecord {
    SegmentRecord::put(
        CollectionId::new(collection),
        [entity; 16],
        payload.to_vec(),
        SequenceNumber::new(seq),
    )
}

fn make_tombstone(collection: u32, entity: u8, seq: u64) -> SegmentRecord {
    SegmentRecord::tombstone(CollectionId::new(collection), [entity; 16], SequenceNumber::new(seq))
}

#[test]
fn compact_removes_older_versions() {
    let compactor = Compactor::with_defaults();

    let records = vec![
        make_put(1, 1, b"v1", 1),
        make_put(1, 1, b"v2", 2),
        make_put(1, 1, b"v3", 3),
    ];

    let (output, stats) = compactor.compact(records, SequenceNumber::new(10)).unwrap();

    assert_eq!(output.len(), 1);
    assert_eq!(output[0].payload, b"v3");
    assert_eq!(stats.obsolete_versions_removed, 2);
}

#[test]
fn compact_removes_tombstones() {
    let compactor = Compactor::new(CompactionConfig::remove_all_tombstones());

    let records = vec![
        make_put(1, 1, b"data", 1),
        make_tombstone(1, 1, 2),
        make_put(1, 2, b"live", 3),
    ];

    let (output, stats) = compactor.compact(records, SequenceNumber::new(10)).unwrap();

    assert_eq!(output.len(), 1);
    assert_eq!(output[0].entity_id, [2; 16]);
    assert_eq!(stats.tombstones_removed, 1);
}

#[test]
fn compact_preserves_recent_tombstones() {
    let compactor = Compactor::new(CompactionConfig::with_tombstone_retention(10));

    let records = vec![make_tombstone(1, 1, 5), make_tombstone(1, 2, 8)];

    let (output, stats) = compactor.compact(records, SequenceNumber::new(10)).unwrap();

    assert_eq!(output.len(), 2);
    assert_eq!(stats.tombstones_removed, 0);

    let records2 = vec![make_tombstone(1, 1, 5), make_tombstone(1, 2, 8)];
    let (output2, stats2) = compactor.compact(records2, SequenceNumber::new(20)).unwrap();

    assert_eq!(output2.len(), 0);
    assert_eq!(stats2.tombstones_removed, 2);
}

#[test]
fn compact_multiple_collections() {
    let compactor = Compactor::with_defaults();

    let records = vec![
        make_put(1, 1, b"c1e1", 1),
        make_put(2, 1, b"c2e1", 2),
        make_put(1, 2, b"c1e2", 3),
    ];

    let (output, _) = compactor.compact(records, SequenceNumber::new(10)).unwrap();

    assert_eq!(output.len(), 3);
}

#[test]
fn compact_empty_input() {
    let compactor = Compactor::with_defaults();
    let (output, stats) = compactor.compact(vec![], SequenceNumber::new(1)).unwrap();

    assert!(output.is_empty());
    assert_eq!(stats.input_records, 0);
    assert_eq!(stats.output_records, 0);
}

#[test]
fn compact_deterministic_order() {
    let compactor = Compactor::with_defaults();

    let records = vec![
        make_put(2, 2, b"c2e2", 1),
        make_put(1, 1, b"c1e1", 2),
        make_put(1, 2, b"c1e2", 3),
        make_put(2, 1, b"c2e1", 4),
    ];

    let (output, _) = compactor.compact(records, SequenceNumber::new(10)).unwrap();

    assert_eq!(output[0].collection_id.as_u32(), 1);
    assert_eq!(output[0].entity_id, [1; 16]);
    assert_eq!(output[1].collection_id.as_u32(), 1);
    assert_eq!(output[1].entity_id, [2; 16]);
    assert_eq!(output[2].collection_id.as_u32(), 2);
    assert_eq!(output[2].entity_id, [1; 16]);
    assert_eq!(output[3].collection_id.as_u32(), 2);
    assert_eq!(output[3].entity_id, [2; 16]);
}

#[test]
fn compact_equal_sequences_keep_first_and_bytes_saved() {
    let compactor = Compactor::with_defaults();
    let records = vec![make_put(1, 1, b"first", 5), make_put(1, 1, b"second", 5)];
    let (output, stats) = compactor.compact(records, SequenceNumber::new(10)).unwrap();
    assert_eq!(output.len(), 1);
    assert_eq!(output[0].payload, b"first");
    // two inputs of 37+5 and 37+6 bytes, one output of 37+5 bytes
    assert_eq!(stats.bytes_saved, 43);
}

#[test]
fn compact_bytes_roundtrip() {
    let compactor = Compactor::with_defaults();
    let mut input = Vec::new();
    input.extend(make_put(1, 3, b"old", 1).encode());
    input.extend(make_put(1, 3, b"new", 2).encode());
    input.extend(make_tombstone(1, 4, 3).encode());
    let (output, stats) = compactor.compact_bytes(&input, SequenceNumber::new(9)).unwrap();
    assert_eq!(stats.input_records, 3);
    assert_eq!(stats.output_records, 1);
    assert_eq!(output, make_put(1, 3, b"new", 2).encode());
}

#[test]
fn compact_bytes_rejects_truncated_record() {
    let compactor = Compactor::with_defaults();
    let mut input = make_put(1, 3, b"old", 1).encode();
    input.truncate(input.len() - 1);
    assert!(matches!(
        compactor.compact_bytes(&input, SequenceNumber::new(9)),
        Err(CoreError::SegmentCorruption(_))
    ));
}

#[test]
fn compact_bytes_stats_match_compact() {
    let compactor = Compactor::with_defaults();
    let records = vec![
        make_put(1, 3, b"old", 1),
        make_put(1, 3, b"new", 2),
        make_tombstone(1, 4, 3),
        make_put(2, 5, b"kept", 4),
    ];
    let mut input = Vec::new();
    for r in &records {
        input.extend(r.encode());
    }
    let (bytes, byte_stats) = compactor.compact_bytes(&input, SequenceNumber::new(9)).unwrap();
    let (kept, stats) = compactor.compact(records, SequenceNumber::new(9)).unwrap();
    let mut expected = Vec::new();
    for r in &kept {
        expected.extend(r.encode());
    }
    assert_eq!(bytes, expected);
    assert_eq!(byte_stats.input_records, stats.input_records);
    assert_eq!(byte_stats.output_records, stats.output_records);
    assert_eq!(byte_stats.obsolete_versions_removed, stats.obsolete_versions_removed);
    assert_eq!(byte_stats.tombstones_removed, stats.tombstones_removed);
    assert_eq!(byte_stats.bytes_saved, stats.bytes_saved);
}

#[test]
fn wal_decode_errors_say_what_is_wrong() {
    let message = |r: Result<WalRecord, CoreError>| match r {
        Err(CoreError::WalCorruption(m)) => m,
        other => panic!("unexpected {:?}", other),
    };
    assert_eq!(
        message(WalRecord::decode_payload(WalRecordType::Begin, &[0u8; 9])),
        "trailing bytes in Begin record: expected 8 bytes, got 9"
    );
    assert_eq!(
        message(WalRecord::decode_payload(WalRecordType::Commit, &[0u8; 15])),
        "unexpected end of payload"
    );
    let record = WalRecord::Put {
        txid: TransactionId::new(1),
        collection_id: CollectionId::new(5),
        entity_id: [0; 16],
        before_hash: None,
        after_bytes: vec![1, 2, 3],
    };
    let mut payload = record.encode_payload().unwrap();
    payload.push(0);
    assert_eq!(
        message(WalRecord::decode_payload(WalRecordType::Put, &payload)),
        "trailing bytes in Put record: expected 36 bytes, got 37"
    );
    payload.truncate(34);
    assert_eq!(
        message(WalRecord::decode_payload(WalRecordType::Put, &payload)),
        "unexpected end of after_bytes"
    );
    let mut hashed = vec![0u8; 29];
    hashed[28] = 1;
    assert_eq!(
        message(WalRecord::decode_payload(WalRecordType::Delete, &hashed)),
        "unexpected end of hash"
    );
}
