use entidb::{
    CollectionId, CoreError, InMemoryBackend, InMemoryFactory, NoListener, SealListener,
    SegmentManager, SegmentRecord, SequenceNumber,
};
use std::sync::atomic::{AtomicU64, Ordering};
use std::sync::Arc;

type MemoryManager<L> = SegmentManager<InMemoryBackend, InMemoryFactory, L>;

fn create_manager() -> MemoryManager<NoListener> {
    SegmentManager::new_in_memory(1024 * 1024)
}

fn create_manager_small() -> MemoryManager<NoListener> {
    // Small segment size to test rotation
    SegmentManager::new_in_memory(200)
}

#[test]
fn append_and_get() {
    let mut manager = create_manager();
    let collection = CollectionId::new(1);
    let entity_id = [1u8; 16];
    let payload = vec![0xCA, 0xFE];

    let record = SegmentRecord::put(collection, entity_id, payload.clone(), SequenceNumber::new(1));
    manager.append(&record).unwrap();

    let retrieved = manager.get(collection, &entity_id).unwrap();
    assert_eq!(retrieved, Some(payload));
}

#[test]
fn get_nonexistent() {
    let manager = create_manager();
    let result = manager.get(CollectionId::new(1), &[0u8; 16]).unwrap();
    assert!(result.is_none());
}

#[test]
fn tombstone_hides_entity() {
    let mut manager = create_manager();
    let collection = CollectionId::new(1);
    let entity_id = [1u8; 16];

    let put = SegmentRecord::put(collection, entity_id, vec![1, 2, 3], SequenceNumber::new(1));
    manager.append(&put).unwrap();

    let tombstone = SegmentRecord::tombstone(collection, entity_id, SequenceNumber::new(2));
    manager.append(&tombstone).unwrap();

    let result = manager.get(collection, &entity_id).unwrap();
    assert!(result.is_none());
}

#[test]
fn latest_version_wins() {
    let mut manager = create_manager();
    let collection = CollectionId::new(1);
    let entity_id = [1u8; 16];

    let v1 = SegmentRecord::put(collection, entity_id, vec![1], SequenceNumber::new(1));
    manager.append(&v1).unwrap();

    let v2 = SegmentRecord::put(collection, entity_id, vec![2], SequenceNumber::new(2));
    manager.append(&v2).unwrap();

    let result = manager.get(collection, &entity_id).unwrap();
    assert_eq!(result, Some(vec![2]));
}

#[test]
fn scan_all_records() {
    let mut manager = create_manager();

    for i in 0..5u8 {
        let record = SegmentRecord::put(
            CollectionId::new(1),
            [i; 16],
            vec![i * 10],
            SequenceNumber::new(u64::from(i)),
        );
        manager.append(&record).unwrap();
    }

    let records = manager.scan_all().unwrap();
    assert_eq!(records.len(), 5);
}

#[test]
fn rebuild_index() {
    // A store opened over bytes written earlier starts with an empty index.
    let collection = CollectionId::new(1);
    let entity_id = [1u8; 16];
    let record = SegmentRecord::put(collection, entity_id, vec![42], SequenceNumber::new(1));
    let backend = InMemoryBackend::with_data(record.encode());
    let mut manager = SegmentManager::new(backend, 1024 * 1024);

    assert!(manager.get(collection, &entity_id).unwrap().is_none());

    manager.rebuild_index().unwrap();

    let result = manager.get(collection, &entity_id).unwrap();
    assert_eq!(result, Some(vec![42]));
}

#[test]
fn iter_collection() {
    let mut manager = create_manager();
    let collection = CollectionId::new(1);

    for i in 0..3u8 {
        let record =
            SegmentRecord::put(collection, [i; 16], vec![i], SequenceNumber::new(u64::from(i)));
        manager.append(&record).unwrap();
    }

    let record = SegmentRecord::put(CollectionId::new(2), [99; 16], vec![99], SequenceNumber::new(10));
    manager.append(&record).unwrap();

    let results = manager.iter_collection(collection).unwrap();
    assert_eq!(results.len(), 3);
}

#[test]
fn entity_count() {
    let mut manager = create_manager();

    assert_eq!(manager.entity_count(), 0);

    for i in 0..5u8 {
        let record = SegmentRecord::put(
            CollectionId::new(1),
            [i; 16],
            vec![i],
            SequenceNumber::new(u64::from(i)),
        );
        manager.append(&record).unwrap();
    }

    assert_eq!(manager.entity_count(), 5);
}

#[test]
fn auto_seal_and_rotate() {
    let mut manager = create_manager_small();

    assert_eq!(manager.segment_count(), 1);
    assert_eq!(manager.sealed_segment_count(), 0);

    for i in 0..10u8 {
        let record = SegmentRecord::put(
            CollectionId::new(1),
            [i; 16],
            vec![i; 20],
            SequenceNumber::new(u64::from(i)),
        );
        manager.append(&record).unwrap();
    }

    assert!(manager.segment_count() > 1, "Expected multiple segments");
    assert!(manager.sealed_segment_count() > 0, "Expected at least one sealed segment");
}

#[test]
fn read_across_segments() {
    let mut manager = create_manager_small();

    for i in 0..10u8 {
        let record = SegmentRecord::put(
            CollectionId::new(1),
            [i; 16],
            vec![i; 20],
            SequenceNumber::new(u64::from(i)),
        );
        manager.append(&record).unwrap();
    }

    for i in 0..10u8 {
        let result = manager.get(CollectionId::new(1), &[i; 16]).unwrap();
        assert_eq!(result, Some(vec![i; 20]));
    }
}

#[test]
fn list_segments() {
    let mut manager = create_manager_small();

    for i in 0..10u8 {
        let record = SegmentRecord::put(
            CollectionId::new(1),
            [i; 16],
            vec![i; 20],
            SequenceNumber::new(u64::from(i)),
        );
        manager.append(&record).unwrap();
    }

    let segments = manager.list_segments();
    assert!(!segments.is_empty());

    for (i, seg) in segments.iter().enumerate() {
        if i < segments.len() - 1 {
            assert!(seg.sealed, "Segment {} should be sealed", seg.id);
        } else {
            assert!(!seg.sealed, "Active segment should not be sealed");
        }
    }
}

struct SealCounter(Arc<AtomicU64>);

impl SealListener for SealCounter {
    fn segment_sealed(&self, _segment_id: u64) {
        self.0.fetch_add(1, Ordering::SeqCst);
    }
}

#[test]
fn seal_callback() {
    let sealed_count = Arc::new(AtomicU64::new(0));
    let sealed_clone = Arc::clone(&sealed_count);

    let mut manager = create_manager_small().on_segment_sealed(SealCounter(sealed_clone));

    for i in 0..10u8 {
        let record = SegmentRecord::put(
            CollectionId::new(1),
            [i; 16],
            vec![i; 20],
            SequenceNumber::new(u64::from(i)),
        );
        manager.append(&record).unwrap();
    }

    assert!(sealed_count.load(Ordering::SeqCst) > 0, "Seal callback should have been invoked");
}

#[test]
fn manual_seal_and_rotate() {
    let mut manager = create_manager();

    assert_eq!(manager.active_segment_id(), 1);
    assert_eq!(manager.sealed_segment_count(), 0);

    let new_id = manager.seal_and_rotate().unwrap();
    assert_eq!(new_id, 2);
    assert_eq!(manager.active_segment_id(), 2);
    assert_eq!(manager.sealed_segment_count(), 1);
}

#[test]
fn compaction_replaces_sealed_segments() {
    let mut manager = create_manager_small();
    for i in 0..10u8 {
        let record = SegmentRecord::put(
            CollectionId::new(1),
            [i; 16],
            vec![i; 20],
            SequenceNumber::new(u64::from(i)),
        );
        manager.append(&record).unwrap();
    }
    let sealed_before = manager.sealed_segment_ids();
    assert!(!sealed_before.is_empty());
    let last_before = manager.list_segments().last().unwrap().id;

    // Keep one record per entity from the sealed segments.
    let mut kept = Vec::new();
    for id in &sealed_before {
        kept.extend(manager.scan_segment(*id).unwrap());
    }
    let kept_len = kept.len();
    let (removed, created) = manager.replace_sealed_with_compacted(kept).unwrap();
    assert_eq!(removed, sealed_before);
    assert_eq!(created, Some(last_before + 1));
    assert_eq!(manager.sealed_segment_ids(), vec![last_before + 1]);
    assert_eq!(manager.segment_info(last_before + 1).unwrap().record_count, kept_len);

    // Every entity is still readable after the index was rebuilt.
    for i in 0..10u8 {
        let result = manager.get(CollectionId::new(1), &[i; 16]).unwrap();
        assert_eq!(result, Some(vec![i; 20]));
    }

    // New segment ids are never reused.
    let next = manager.seal_and_rotate().unwrap();
    assert_eq!(next, last_before + 2);
}

#[test]
fn compaction_with_nothing_to_do() {
    let mut manager = create_manager();
    let (removed, created) = manager.replace_sealed_with_compacted(Vec::new()).unwrap();
    assert!(removed.is_empty());
    assert_eq!(created, None);
    assert_eq!(manager.segment_count(), 1);
}

#[test]
fn read_at_errors() {
    let mut manager = create_manager();
    let record = SegmentRecord::put(CollectionId::new(3), [7; 16], vec![1, 2], SequenceNumber::new(4));
    let (segment, offset) = manager.append(&record).unwrap();
    assert_eq!((segment, offset), (1, 0));
    assert_eq!(manager.read_at(1, 0).unwrap(), record);
    assert_eq!(
        manager.read_at(9, 0),
        Err(CoreError::SegmentCorruption("segment not found".to_string()))
    );
    assert_eq!(
        manager.read_at(1, 38),
        Err(CoreError::SegmentCorruption("offset beyond segment".to_string()))
    );
    assert_eq!(manager.size().unwrap(), 39);
    assert_eq!(manager.total_size().unwrap(), 39);
    assert!(manager.contains(CollectionId::new(3), &[7; 16]));
    assert!(!manager.contains(CollectionId::new(3), &[8; 16]));
}

#[test]
fn existing_segments_are_loaded() {
    let record = SegmentRecord::put(CollectionId::new(1), [5; 16], vec![9], SequenceNumber::new(1));
    let mut manager = SegmentManager::with_factory_and_existing(InMemoryFactory, 1024, vec![3, 5, 8]);
    let segments = manager.list_segments();
    assert_eq!(segments.iter().map(|s| s.id).collect::<Vec<_>>(), vec![3, 5, 8]);
    assert_eq!(segments.iter().map(|s| s.sealed).collect::<Vec<_>>(), vec![true, true, false]);
    assert_eq!(manager.active_segment_id(), 8);
    let (segment, _) = manager.append(&record).unwrap();
    assert_eq!(segment, 8);
    assert_eq!(manager.seal_and_rotate().unwrap(), 9);
}
