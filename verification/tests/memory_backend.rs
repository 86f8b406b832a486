use entidb::{InMemoryBackend, StorageBackend, StorageError};

#[test]
fn memory_new_is_empty() {
    let backend = InMemoryBackend::new();
    assert_eq!(backend.size().unwrap(), 0);
    assert!(backend.data().is_empty());
}

#[test]
fn memory_append_returns_correct_offset() {
    let mut backend = InMemoryBackend::new();

    let offset1 = backend.append(b"hello").unwrap();
    assert_eq!(offset1, 0);

    let offset2 = backend.append(b" world").unwrap();
    assert_eq!(offset2, 5);

    assert_eq!(backend.size().unwrap(), 11);
}

#[test]
fn memory_read_at_returns_correct_data() {
    let mut backend = InMemoryBackend::new();
    backend.append(b"hello world").unwrap();

    let data = backend.read_at(0, 5).unwrap();
    assert_eq!(&data, b"hello");

    let data = backend.read_at(6, 5).unwrap();
    assert_eq!(&data, b"world");
}

#[test]
fn memory_read_at_past_end_fails() {
    let mut backend = InMemoryBackend::new();
    backend.append(b"hello").unwrap();

    let result = backend.read_at(10, 5);
    assert!(matches!(result, Err(StorageError::ReadPastEnd { .. })));
}

#[test]
fn memory_read_at_extending_past_end_fails() {
    let mut backend = InMemoryBackend::new();
    backend.append(b"hello").unwrap();

    let result = backend.read_at(3, 10);
    assert!(matches!(result, Err(StorageError::ReadPastEnd { .. })));
}

#[test]
fn memory_empty_append() {
    let mut backend = InMemoryBackend::new();
    let offset = backend.append(b"").unwrap();
    assert_eq!(offset, 0);
    assert_eq!(backend.size().unwrap(), 0);
}

#[test]
fn memory_empty_read() {
    let mut backend = InMemoryBackend::new();
    backend.append(b"hello").unwrap();

    let data = backend.read_at(2, 0).unwrap();
    assert!(data.is_empty());
}

#[test]
fn memory_with_data() {
    let backend = InMemoryBackend::with_data(b"preloaded".to_vec());
    assert_eq!(backend.size().unwrap(), 9);
    assert_eq!(backend.read_at(0, 9).unwrap(), b"preloaded");
}

#[test]
fn memory_clear() {
    let mut backend = InMemoryBackend::new();
    backend.append(b"some data").unwrap();
    backend.clear();
    assert_eq!(backend.size().unwrap(), 0);
}

#[test]
fn memory_flush_succeeds() {
    let mut backend = InMemoryBackend::new();
    backend.append(b"data").unwrap();
    assert!(backend.flush().is_ok());
}

#[test]
fn memory_sync_succeeds() {
    let mut backend = InMemoryBackend::new();
    backend.append(b"data").unwrap();
    assert!(backend.sync().is_ok());
}

#[test]
fn memory_truncate_to_zero() {
    let mut backend = InMemoryBackend::new();
    backend.append(b"hello world").unwrap();
    assert_eq!(backend.size().unwrap(), 11);

    backend.truncate(0).unwrap();
    assert_eq!(backend.size().unwrap(), 0);
    assert!(backend.data().is_empty());
}

#[test]
fn memory_truncate_partial() {
    let mut backend = InMemoryBackend::new();
    backend.append(b"hello world").unwrap();

    backend.truncate(5).unwrap();
    assert_eq!(backend.size().unwrap(), 5);
    assert_eq!(backend.read_at(0, 5).unwrap(), b"hello");
}

#[test]
fn memory_truncate_to_larger_size_fails() {
    let mut backend = InMemoryBackend::new();
    backend.append(b"hello").unwrap();

    let result = backend.truncate(100);
    assert!(result.is_err());
}

#[test]
fn memory_error_details() {
    let mut backend = InMemoryBackend::with_data(vec![1, 2, 3]);
    assert_eq!(
        backend.read_at(2, 5),
        Err(StorageError::ReadPastEnd { offset: 2, len: 5, size: 3 })
    );
    assert_eq!(
        backend.truncate(9),
        Err(StorageError::Io(
            "cannot truncate to size 9 which is greater than current size 3".to_string()
        ))
    );
    assert_eq!(
        StorageError::ReadPastEnd { offset: 2, len: 5, size: 3 }.to_string(),
        "read beyond end of storage: offset 2, len 5, size 3"
    );
    assert_eq!(backend.read_at(3, 0).unwrap(), Vec::<u8>::new());
    assert!(backend.read_at(4, 0).is_err());
    assert_eq!(InMemoryBackend::default().data(), Vec::<u8>::new());
}
