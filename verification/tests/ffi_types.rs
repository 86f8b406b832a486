use entidb::{EntiDbCollectionId, EntiDbEntityId, EntiDbResult, EntityId, ErrorCode, FfiIterator};

#[test]
fn result_codes() {
    assert_eq!(EntiDbResult::Success as i32, 0);
    assert_eq!(EntiDbResult::Error as i32, 1);
    assert!(EntiDbResult::Success.is_ok());
    assert!(EntiDbResult::Error.is_err());
}

#[test]
fn error_code_conversion() {
    let result = EntiDbResult::NotFound;
    let code: ErrorCode = result.into();
    assert_eq!(code, 3);

    let back: EntiDbResult = code.into();
    assert_eq!(back, EntiDbResult::NotFound);
}

#[test]
fn every_code_round_trips() {
    for code in 0..14 {
        let r = EntiDbResult::from_code(code);
        assert_eq!(r.code(), code);
        assert_eq!(r as i32, code);
        let back: i32 = r.into();
        assert_eq!(back, code);
    }
    assert_eq!(EntiDbResult::from_code(14), EntiDbResult::Error);
    assert_eq!(EntiDbResult::from_code(-1), EntiDbResult::Error);
    assert_eq!(EntiDbResult::NotSupported.code(), 13);
    assert!(!EntiDbResult::NullPointer.is_ok());
}

#[test]
fn entity_id() {
    let id = EntiDbEntityId::from_bytes([1u8; 16]);
    assert_eq!(id.bytes, [1u8; 16]);

    let zero = EntiDbEntityId::zero();
    assert_eq!(zero.bytes, [0u8; 16]);
}

#[test]
fn collection_id() {
    let cid = EntiDbCollectionId::new(42);
    assert_eq!(cid.id, 42);
}

#[test]
fn empty_stats_and_info() {
    let stats = entidb::EntiDbRestoreStats::empty();
    assert_eq!(
        (stats.entities_restored, stats.tombstones_applied, stats.backup_timestamp, stats.backup_sequence),
        (0, 0, 0, 0)
    );
    let info = entidb::EntiDbBackupInfo::empty();
    assert!(!info.valid);
    assert_eq!((info.timestamp, info.sequence, info.record_count, info.size), (0, 0, 0, 0));
}

#[test]
fn ffi_iterator_walks_entities() {
    let mut it = FfiIterator::new(vec![(EntityId([1u8; 16]), vec![1]), (EntityId([2u8; 16]), vec![2, 2])]);
    assert!(it.has_next());
    assert_eq!(it.remaining(), 2);
    assert_eq!(it.next().map(|e| e.1.clone()), Some(vec![1]));
    assert_eq!(it.remaining(), 1);
    assert_eq!(it.next().map(|e| e.0 .0), Some([2u8; 16]));
    assert!(!it.has_next());
    assert!(it.next().is_none());
    assert_eq!(it.remaining(), 0);

    let txn = entidb::FfiTransaction::new();
    assert!(txn.active);
    assert!(txn.writes.is_empty());
}
