use entidb::{
    CollectionId, CoreError, InMemoryBackend, SequenceNumber, StorageBackend, StreamingRecovery,
    TransactionId, WalManager, WalRecord, WalRecordIterator,
};

fn create_wal() -> WalManager<InMemoryBackend> {
    WalManager::new(InMemoryBackend::new(), false)
}

fn create_wal_with_records(records: &[WalRecord]) -> WalManager<InMemoryBackend> {
    let mut wal = WalManager::new(InMemoryBackend::new(), false);
    for record in records {
        wal.append(record).unwrap();
    }
    wal
}

fn collect_all(
    mut it: WalRecordIterator<'_, InMemoryBackend>,
) -> Vec<Result<(u64, WalRecord), CoreError>> {
    let mut out = Vec::new();
    while let Some(r) = it.next() {
        out.push(r);
    }
    out
}

#[test]
fn append_and_read_begin() {
    let mut wal = create_wal();
    let record = WalRecord::Begin {
        txid: TransactionId::new(1),
    };
    wal.append(&record).unwrap();

    let records = wal.read_all().unwrap();
    assert_eq!(records.len(), 1);
    assert_eq!(records[0].1, record);
}

#[test]
fn append_and_read_put() {
    let mut wal = create_wal();
    let record = WalRecord::Put {
        txid: TransactionId::new(1),
        collection_id: CollectionId::new(10),
        entity_id: [1; 16],
        before_hash: None,
        after_bytes: vec![0xCA, 0xFE],
    };
    wal.append(&record).unwrap();

    let records = wal.read_all().unwrap();
    assert_eq!(records.len(), 1);
    assert_eq!(records[0].1, record);
}

#[test]
fn append_multiple_records() {
    let mut wal = create_wal();

    let r1 = WalRecord::Begin {
        txid: TransactionId::new(1),
    };
    let r2 = WalRecord::Put {
        txid: TransactionId::new(1),
        collection_id: CollectionId::new(5),
        entity_id: [2; 16],
        before_hash: None,
        after_bytes: vec![1, 2, 3],
    };
    let r3 = WalRecord::Commit {
        txid: TransactionId::new(1),
        sequence: SequenceNumber::new(1),
    };

    wal.append(&r1).unwrap();
    wal.append(&r2).unwrap();
    wal.append(&r3).unwrap();

    let records = wal.read_all().unwrap();
    assert_eq!(records.len(), 3);
    assert_eq!(records[0].1, r1);
    assert_eq!(records[1].1, r2);
    assert_eq!(records[2].1, r3);
}

#[test]
fn read_empty_wal() {
    let wal = create_wal();
    let records = wal.read_all().unwrap();
    assert!(records.is_empty());
}

#[test]
fn wal_size_increases() {
    let mut wal = create_wal();
    assert_eq!(wal.size().unwrap(), 0);

    wal.append(&WalRecord::Begin {
        txid: TransactionId::new(1),
    })
    .unwrap();

    assert!(wal.size().unwrap() > 0);
}

#[test]
fn full_transaction_sequence() {
    let mut wal = create_wal();

    wal.append(&WalRecord::Begin {
        txid: TransactionId::new(1),
    })
    .unwrap();
    wal.append(&WalRecord::Put {
        txid: TransactionId::new(1),
        collection_id: CollectionId::new(1),
        entity_id: [1; 16],
        before_hash: None,
        after_bytes: vec![10, 20, 30],
    })
    .unwrap();
    wal.append(&WalRecord::Commit {
        txid: TransactionId::new(1),
        sequence: SequenceNumber::new(1),
    })
    .unwrap();

    wal.append(&WalRecord::Begin {
        txid: TransactionId::new(2),
    })
    .unwrap();
    wal.append(&WalRecord::Put {
        txid: TransactionId::new(2),
        collection_id: CollectionId::new(1),
        entity_id: [2; 16],
        before_hash: None,
        after_bytes: vec![40, 50],
    })
    .unwrap();
    wal.append(&WalRecord::Abort {
        txid: TransactionId::new(2),
    })
    .unwrap();

    let records = wal.read_all().unwrap();
    assert_eq!(records.len(), 6);

    assert_eq!(records[0].1.txid(), Some(TransactionId::new(1)));
    assert_eq!(records[5].1.txid(), Some(TransactionId::new(2)));
}

#[test]
fn for_each_iteration() {
    let mut wal = create_wal();

    for i in 0..5 {
        wal.append(&WalRecord::Begin {
            txid: TransactionId::new(i),
        })
        .unwrap();
    }

    let mut count = 0;
    wal.for_each_streaming(|_, _| {
        count += 1;
        Ok(true)
    })
    .unwrap();

    assert_eq!(count, 5);
}

#[test]
fn for_each_early_exit() {
    let mut wal = create_wal();

    for i in 0..10 {
        wal.append(&WalRecord::Begin {
            txid: TransactionId::new(i),
        })
        .unwrap();
    }

    let mut count = 0;
    wal.for_each_streaming(|_, _| {
        count += 1;
        Ok(count < 3)
    })
    .unwrap();

    assert_eq!(count, 3);
}

#[test]
fn clear_wal() {
    let mut wal = create_wal();

    wal.append(&WalRecord::Begin {
        txid: TransactionId::new(1),
    })
    .unwrap();
    wal.append(&WalRecord::Commit {
        txid: TransactionId::new(1),
        sequence: SequenceNumber::new(1),
    })
    .unwrap();

    assert!(wal.size().unwrap() > 0);
    assert_eq!(wal.read_all().unwrap().len(), 2);

    wal.clear().unwrap();

    assert_eq!(wal.size().unwrap(), 0);
    assert!(wal.read_all().unwrap().is_empty());
}

#[test]
fn truncate_wal() {
    let mut wal = create_wal();

    let offset1 = wal
        .append(&WalRecord::Begin {
            txid: TransactionId::new(1),
        })
        .unwrap();
    let size_after_first = wal.size().unwrap();

    wal.append(&WalRecord::Commit {
        txid: TransactionId::new(1),
        sequence: SequenceNumber::new(1),
    })
    .unwrap();

    assert_eq!(wal.read_all().unwrap().len(), 2);

    wal.truncate(size_after_first).unwrap();

    let records = wal.read_all().unwrap();
    assert_eq!(records.len(), 1);
    assert_eq!(records[0].0, offset1);
}

#[test]
fn iterator_empty_wal() {
    let wal = WalManager::new(InMemoryBackend::new(), false);
    let records = collect_all(wal.iter().unwrap());
    assert!(records.is_empty());
}

#[test]
fn iterator_single_record() {
    let record = WalRecord::Begin {
        txid: TransactionId::new(1),
    };
    let wal = create_wal_with_records(&[record.clone()]);

    let records: Vec<_> = collect_all(wal.iter().unwrap())
        .into_iter()
        .map(|r| r.unwrap())
        .collect();
    assert_eq!(records.len(), 1);
    assert_eq!(records[0].1, record);
}

#[test]
fn iterator_multiple_records() {
    let r1 = WalRecord::Begin {
        txid: TransactionId::new(1),
    };
    let r2 = WalRecord::Put {
        txid: TransactionId::new(1),
        collection_id: CollectionId::new(5),
        entity_id: [2; 16],
        before_hash: None,
        after_bytes: vec![1, 2, 3],
    };
    let r3 = WalRecord::Commit {
        txid: TransactionId::new(1),
        sequence: SequenceNumber::new(1),
    };

    let wal = create_wal_with_records(&[r1.clone(), r2.clone(), r3.clone()]);

    let records: Vec<_> = collect_all(wal.iter().unwrap())
        .into_iter()
        .map(|r| r.unwrap())
        .collect();
    assert_eq!(records.len(), 3);
    assert_eq!(records[0].1, r1);
    assert_eq!(records[1].1, r2);
    assert_eq!(records[2].1, r3);
}

#[test]
fn iterator_matches_read_all() {
    let mut records = Vec::new();
    for i in 0..100 {
        records.push(WalRecord::Begin {
            txid: TransactionId::new(i),
        });
        records.push(WalRecord::Put {
            txid: TransactionId::new(i),
            collection_id: CollectionId::new(1),
            entity_id: [i as u8; 16],
            before_hash: None,
            after_bytes: vec![i as u8; 50],
        });
        records.push(WalRecord::Commit {
            txid: TransactionId::new(i),
            sequence: SequenceNumber::new(i),
        });
    }

    let wal = create_wal_with_records(&records);

    let iter_records: Vec<_> = collect_all(wal.iter().unwrap())
        .into_iter()
        .map(|r| r.unwrap())
        .collect();
    let all_records = wal.read_all().unwrap();

    assert_eq!(iter_records.len(), all_records.len());
    for (iter_rec, all_rec) in iter_records.iter().zip(all_records.iter()) {
        assert_eq!(iter_rec.0, all_rec.0);
        assert_eq!(iter_rec.1, all_rec.1);
    }
}

#[test]
fn streaming_recovery_identifies_committed() {
    let records = vec![
        WalRecord::Begin {
            txid: TransactionId::new(1),
        },
        WalRecord::Put {
            txid: TransactionId::new(1),
            collection_id: CollectionId::new(1),
            entity_id: [1; 16],
            before_hash: None,
            after_bytes: vec![1, 2, 3],
        },
        WalRecord::Commit {
            txid: TransactionId::new(1),
            sequence: SequenceNumber::new(1),
        },
        WalRecord::Begin {
            txid: TransactionId::new(2),
        },
        WalRecord::Put {
            txid: TransactionId::new(2),
            collection_id: CollectionId::new(1),
            entity_id: [2; 16],
            before_hash: None,
            after_bytes: vec![4, 5, 6],
        },
    ];

    let wal = create_wal_with_records(&records);
    let mut recovery = StreamingRecovery::new(0);
    recovery.scan_committed(wal.iter().unwrap()).unwrap();

    assert!(recovery.is_committed(&TransactionId::new(1)));
    assert!(!recovery.is_committed(&TransactionId::new(2)));
    assert_eq!(
        recovery.get_commit_sequence(&TransactionId::new(1)),
        Some(SequenceNumber::new(1))
    );
    assert_eq!(recovery.next_txid(), 3);
    assert_eq!(recovery.next_seq(), 2);
}

#[test]
fn streaming_recovery_with_checkpoint() {
    let recovery = StreamingRecovery::new(100);

    assert_eq!(recovery.committed_seq(), 100);
    assert_eq!(recovery.next_seq(), 101);
}

#[test]
fn iterator_large_record() {
    let large_payload = vec![0xAB; 128 * 1024];
    let record = WalRecord::Put {
        txid: TransactionId::new(1),
        collection_id: CollectionId::new(1),
        entity_id: [1; 16],
        before_hash: None,
        after_bytes: large_payload.clone(),
    };

    let wal = create_wal_with_records(&[record.clone()]);

    let records: Vec<_> = collect_all(wal.iter().unwrap())
        .into_iter()
        .map(|r| r.unwrap())
        .collect();
    assert_eq!(records.len(), 1);

    if let WalRecord::Put { after_bytes, .. } = &records[0].1 {
        assert_eq!(after_bytes.len(), large_payload.len());
        assert_eq!(after_bytes, &large_payload);
    } else {
        panic!("Expected Put record");
    }
}

#[test]
fn for_each_streaming_early_exit() {
    let mut records = Vec::new();
    for i in 0..100 {
        records.push(WalRecord::Begin {
            txid: TransactionId::new(i),
        });
    }

    let wal = create_wal_with_records(&records);

    let mut count = 0;
    wal.for_each_streaming(|_, _| {
        count += 1;
        Ok(count < 5)
    })
    .unwrap();

    assert_eq!(count, 5);
}

#[test]
fn recovery_policy_truncated_header_tolerated() {
    let record = WalRecord::Begin {
        txid: TransactionId::new(42),
    };
    let mut wal = create_wal_with_records(&[record.clone()]);

    wal.backend_mut()
        .append(&[0xDB, 0xED, 0x01, 0x01, 0x00])
        .unwrap();

    let records = collect_all(wal.iter().unwrap());
    assert_eq!(records.len(), 1, "Should return exactly one record");
    assert!(records[0].is_ok(), "The valid record should parse successfully");
    assert_eq!(records[0].as_ref().unwrap().1, record);
}

#[test]
fn recovery_policy_truncated_payload_tolerated() {
    let record = WalRecord::Begin {
        txid: TransactionId::new(1),
    };
    let mut wal = create_wal_with_records(&[record.clone()]);

    let incomplete_record: &[u8] = &[
        b'E', b'W', b'A', b'L', 0x01, 0x00, 0x01, 0xE8, 0x03, 0x00, 0x00, 0x01, 0x02, 0x03, 0x04,
        0x05, 0x06, 0x07, 0x08, 0x09, 0x0A,
    ];
    wal.backend_mut().append(incomplete_record).unwrap();

    let records = collect_all(wal.iter().unwrap());
    assert_eq!(records.len(), 1, "Should return exactly one record");
    assert!(records[0].is_ok(), "The valid record should parse successfully");
}

#[test]
fn recovery_policy_crc_mismatch_is_fatal() {
    let record = WalRecord::Begin {
        txid: TransactionId::new(1),
    };
    let mut wal = create_wal_with_records(&[record]);

    let bad_crc_record: &[u8] = &[
        b'E', b'W', b'A', b'L', 0x01, 0x00, 0x01, 0x08, 0x00, 0x00, 0x00, 0xE7, 0x03, 0x00, 0x00,
        0x00, 0x00, 0x00, 0x00, 0xDE, 0xAD, 0xBE, 0xEF,
    ];
    wal.backend_mut().append(bad_crc_record).unwrap();

    let mut iter = wal.iter().unwrap();

    let first = iter.next();
    assert!(first.is_some());
    assert!(first.unwrap().is_ok(), "First record should be valid");

    let second = iter.next();
    assert!(second.is_some(), "Should attempt to read second record");
    let err = second.unwrap();
    assert!(err.is_err(), "CRC mismatch must be an error, not tolerated");

    match err {
        Err(CoreError::ChecksumMismatch { .. }) => {}
        Err(other) => {
            panic!("Expected ChecksumMismatch error, got: {:?}", other);
        }
        Ok(_) => {
            panic!("CRC mismatch was incorrectly tolerated - this is a bug!");
        }
    }
}

#[test]
fn recovery_policy_invalid_magic_is_fatal() {
    let record = WalRecord::Begin {
        txid: TransactionId::new(1),
    };
    let mut wal = create_wal_with_records(&[record]);

    let bad_magic: &[u8] = &[
        0xBA, 0xD0, 0x00, 0x00, 0x01, 0x00, 0x01, 0x08, 0x00, 0x00, 0x00, 0x01, 0x00, 0x00, 0x00,
        0x00, 0x00, 0x00, 0x00, 0x00, 0x00, 0x00, 0x00,
    ];
    wal.backend_mut().append(bad_magic).unwrap();

    let mut iter = wal.iter().unwrap();
    let _ = iter.next();

    let second = iter.next();
    assert!(second.is_some());
    assert!(second.unwrap().is_err(), "Invalid magic must be an error");
}

#[test]
fn recovery_uncommitted_txn_not_applied_after_truncation() {
    let records = vec![
        WalRecord::Begin {
            txid: TransactionId::new(1),
        },
        WalRecord::Put {
            txid: TransactionId::new(1),
            collection_id: CollectionId::new(1),
            entity_id: [1; 16],
            before_hash: None,
            after_bytes: vec![0xAA, 0xBB, 0xCC],
        },
        WalRecord::Commit {
            txid: TransactionId::new(1),
            sequence: SequenceNumber::new(1),
        },
        WalRecord::Begin {
            txid: TransactionId::new(2),
        },
        WalRecord::Put {
            txid: TransactionId::new(2),
            collection_id: CollectionId::new(1),
            entity_id: [2; 16],
            before_hash: None,
            after_bytes: vec![0xDD, 0xEE, 0xFF],
        },
    ];

    let mut wal = create_wal_with_records(&records);

    wal.backend_mut().append(&[0xDB, 0xED, 0x01]).unwrap();

    let mut recovery = StreamingRecovery::new(0);
    recovery.scan_committed(wal.iter().unwrap()).unwrap();

    assert!(
        recovery.is_committed(&TransactionId::new(1)),
        "Transaction 1 should be committed"
    );
    assert!(
        !recovery.is_committed(&TransactionId::new(2)),
        "Transaction 2 should NOT be committed (missing COMMIT)"
    );

    assert_eq!(recovery.next_txid(), 3, "Next txid should be 3");
    assert_eq!(recovery.next_seq(), 2, "Next sequence should be 2");
}

#[test]
fn frame_layout_of_begin_record() {
    let mut wal = create_wal();
    let off = wal
        .append(&WalRecord::Begin {
            txid: TransactionId::new(7),
        })
        .unwrap();
    assert_eq!(off, 0);
    let bytes = wal.backend().data();
    assert_eq!(bytes.len(), 23);
    assert_eq!(&bytes[0..4], b"EWAL");
    assert_eq!(&bytes[4..6], &[1, 0]);
    assert_eq!(bytes[6], 1);
    assert_eq!(&bytes[7..11], &[8, 0, 0, 0]);
    assert_eq!(&bytes[11..19], &[7, 0, 0, 0, 0, 0, 0, 0]);
    let crc = entidb::compute_crc32(&bytes[0..19]);
    assert_eq!(&bytes[19..23], &crc.to_le_bytes());
    assert_eq!(wal.size().unwrap(), 23);
}

#[test]
fn corruption_messages() {
    let mut wal = create_wal();
    wal.backend_mut()
        .append(&[b'E', b'W', b'A', b'L', 2, 0, 1, 0, 0, 0, 0])
        .unwrap();
    match wal.read_all() {
        Err(CoreError::WalCorruption(m)) => assert_eq!(m, "unsupported version 2 at offset 0"),
        other => panic!("unexpected {:?}", other),
    }
    let mut wal = create_wal();
    wal.backend_mut()
        .append(&[b'E', b'W', b'A', b'L', 1, 0, 9, 0, 0, 0, 0])
        .unwrap();
    match wal.read_all() {
        Err(CoreError::WalCorruption(m)) => assert_eq!(m, "unknown record type 9 at offset 0"),
        other => panic!("unexpected {:?}", other),
    }
    let mut wal = create_wal();
    wal.append(&WalRecord::Abort {
        txid: TransactionId::new(3),
    })
    .unwrap();
    wal.backend_mut().append(&[0u8; 11]).unwrap();
    match wal.read_all() {
        Err(CoreError::WalCorruption(m)) => assert_eq!(m, "invalid magic at offset 23"),
        other => panic!("unexpected {:?}", other),
    }
}

#[test]
fn recovery_tracks_checkpoints_and_max_txid() {
    let wal = create_wal_with_records(&[
        WalRecord::Begin {
            txid: TransactionId::new(9),
        },
        WalRecord::Commit {
            txid: TransactionId::new(9),
            sequence: SequenceNumber::new(4),
        },
        WalRecord::Checkpoint {
            sequence: SequenceNumber::new(12),
        },
        WalRecord::Abort {
            txid: TransactionId::new(3),
        },
    ]);
    let mut recovery = StreamingRecovery::new(2);
    recovery.scan_committed(wal.iter().unwrap()).unwrap();
    assert_eq!(recovery.next_txid(), 10);
    assert_eq!(recovery.next_seq(), 13);
    assert_eq!(recovery.committed_seq(), 4);
    assert_eq!(recovery.get_commit_sequence(&TransactionId::new(3)), None);
}

#[test]
fn iterator_stops_after_error() {
    let mut wal = create_wal();
    wal.backend_mut().append(&[0u8; 30]).unwrap();
    let mut it = wal.iter().unwrap();
    assert!(matches!(it.next(), Some(Err(CoreError::WalCorruption(_)))));
    assert!(it.next().is_none());
}
