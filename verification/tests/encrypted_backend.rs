use entidb::{
    derive_nonce, derive_nonce_key, EncryptedBackend, EncryptionKey, InMemoryBackend,
    StorageBackend, StorageError, KEY_SIZE,
};

const HEADER_SIZE: usize = 32;
const NONCE_SIZE: usize = 12;

fn test_key() -> EncryptionKey {
    EncryptionKey::from_bytes(&[0x42u8; KEY_SIZE]).unwrap()
}

fn test_key_different() -> EncryptionKey {
    EncryptionKey::from_bytes(&[0x43u8; KEY_SIZE]).unwrap()
}

fn raw_bytes(backend: &EncryptedBackend<InMemoryBackend>) -> Vec<u8> {
    let inner = backend.inner();
    inner.read_at(0, inner.size().unwrap() as usize).unwrap()
}

#[test]
fn new_encrypted_backend_initializes_header() {
    let inner = InMemoryBackend::new();
    let backend = EncryptedBackend::new(inner, test_key()).unwrap();
    assert_eq!(backend.size().unwrap(), 0);
    let header = raw_bytes(&backend);
    assert_eq!(header.len(), HEADER_SIZE);
    assert_eq!(&header[0..8], b"ENTIDBEC");
}

#[test]
fn append_and_read_small_data() {
    let inner = InMemoryBackend::new();
    let mut backend = EncryptedBackend::new(inner, test_key()).unwrap();

    let data = b"Hello, encrypted world!";
    let offset = backend.append(data).unwrap();
    assert_eq!(offset, 0);

    backend.flush().unwrap();

    let read_back = backend.read_at(0, data.len()).unwrap();
    assert_eq!(&read_back, data);
}

#[test]
fn append_and_read_multiple_blocks() {
    let inner = InMemoryBackend::new();
    let mut backend = EncryptedBackend::with_block_size(inner, test_key(), 1024).unwrap();

    let data = vec![0xABu8; 3584];
    let offset = backend.append(&data).unwrap();
    assert_eq!(offset, 0);

    backend.flush().unwrap();

    let read_back = backend.read_at(0, data.len()).unwrap();
    assert_eq!(read_back, data);
}

#[test]
fn read_partial_block() {
    let inner = InMemoryBackend::new();
    let mut backend = EncryptedBackend::with_block_size(inner, test_key(), 1024).unwrap();

    let data = b"ABCDEFGHIJ";
    backend.append(data).unwrap();
    backend.flush().unwrap();

    let partial = backend.read_at(3, 4).unwrap();
    assert_eq!(&partial, b"DEFG");
}

#[test]
fn read_across_block_boundary() {
    let inner = InMemoryBackend::new();
    let mut backend = EncryptedBackend::with_block_size(inner, test_key(), 1024).unwrap();

    let data = vec![0x11u8; 2048];
    backend.append(&data).unwrap();
    backend.flush().unwrap();

    let read_back = backend.read_at(512, 1024).unwrap();
    assert_eq!(read_back, vec![0x11u8; 1024]);
}

#[test]
fn determinism_same_data_same_key() {
    let data = b"Test data for determinism check";

    let mut backend1 = EncryptedBackend::new(InMemoryBackend::new(), test_key()).unwrap();
    backend1.append(data).unwrap();
    backend1.flush().unwrap();

    let mut backend2 = EncryptedBackend::new(InMemoryBackend::new(), test_key()).unwrap();
    backend2.append(data).unwrap();
    backend2.flush().unwrap();

    let encrypted1 = backend1.inner().read_at(0, 200).unwrap();
    let encrypted2 = backend2.inner().read_at(0, 200).unwrap();

    assert_eq!(encrypted1, encrypted2, "Encryption must be deterministic");
}

#[test]
fn different_keys_produce_different_ciphertext() {
    let data = b"Test data";

    let mut backend1 = EncryptedBackend::new(InMemoryBackend::new(), test_key()).unwrap();
    backend1.append(data).unwrap();
    backend1.flush().unwrap();

    let mut backend2 = EncryptedBackend::new(InMemoryBackend::new(), test_key_different()).unwrap();
    backend2.append(data).unwrap();
    backend2.flush().unwrap();

    let encrypted1 = backend1.inner().read_at(HEADER_SIZE as u64, 100).unwrap();
    let encrypted2 = backend2.inner().read_at(HEADER_SIZE as u64, 100).unwrap();

    assert_ne!(encrypted1, encrypted2, "Different keys must produce different ciphertext");
}

#[test]
fn wrong_key_fails_on_open() {
    let data = b"Secret data";

    let mut backend = EncryptedBackend::new(InMemoryBackend::new(), test_key()).unwrap();
    backend.append(data).unwrap();
    backend.flush().unwrap();

    let inner_data = raw_bytes(&backend);

    let mut new_inner = InMemoryBackend::new();
    new_inner.append(&inner_data).unwrap();

    let result = EncryptedBackend::new(new_inner, test_key_different());
    assert!(result.is_err(), "Opening with wrong key must fail");
}

#[test]
fn tampered_data_fails_on_open() {
    let data = b"Important data";

    let mut backend = EncryptedBackend::new(InMemoryBackend::new(), test_key()).unwrap();
    backend.append(data).unwrap();
    backend.flush().unwrap();

    let mut raw_data = raw_bytes(&backend);

    let tamper_offset = HEADER_SIZE + NONCE_SIZE + 5;
    raw_data[tamper_offset] ^= 0xFF;

    let mut tampered_inner = InMemoryBackend::new();
    tampered_inner.append(&raw_data).unwrap();

    let result = EncryptedBackend::new(tampered_inner, test_key());
    assert!(result.is_err(), "Tampered data must fail on open");
}

#[test]
fn truncate_to_zero_works() {
    let mut backend = EncryptedBackend::new(InMemoryBackend::new(), test_key()).unwrap();

    backend.append(b"some data").unwrap();
    backend.flush().unwrap();

    backend.truncate(0).unwrap();
    assert_eq!(backend.size().unwrap(), 0);

    backend.append(b"new data").unwrap();
    backend.flush().unwrap();

    let read_back = backend.read_at(0, 8).unwrap();
    assert_eq!(&read_back, b"new data");
}

#[test]
fn reopen_encrypted_storage() {
    let key = test_key();
    let data = b"Persistent encrypted data";

    let raw_data = {
        let mut backend = EncryptedBackend::new(InMemoryBackend::new(), key.clone()).unwrap();
        backend.append(data).unwrap();
        backend.flush().unwrap();
        raw_bytes(&backend)
    };

    let mut reopened_inner = InMemoryBackend::new();
    reopened_inner.append(&raw_data).unwrap();

    let reopened = EncryptedBackend::new(reopened_inner, key).unwrap();
    let read_back = reopened.read_at(0, data.len()).unwrap();
    assert_eq!(&read_back, data);
}

#[test]
fn key_zeroization() {
    let key = EncryptionKey::from_bytes(&[0xFFu8; KEY_SIZE]).unwrap();
    drop(key);
}

#[test]
fn empty_append() {
    let mut backend = EncryptedBackend::new(InMemoryBackend::new(), test_key()).unwrap();

    let offset = backend.append(&[]).unwrap();
    assert_eq!(offset, 0);
    assert_eq!(backend.size().unwrap(), 0);
}

#[test]
fn read_past_end_fails() {
    let mut backend = EncryptedBackend::new(InMemoryBackend::new(), test_key()).unwrap();

    backend.append(b"hello").unwrap();
    backend.flush().unwrap();

    let result = backend.read_at(10, 5);
    assert!(result.is_err());
}

#[test]
fn block_size_validation() {
    let result = EncryptedBackend::with_block_size(InMemoryBackend::new(), test_key(), 512);
    assert!(result.is_err());

    let result =
        EncryptedBackend::with_block_size(InMemoryBackend::new(), test_key(), 2 * 1024 * 1024);
    assert!(result.is_err());
}

#[test]
fn nonce_derivation_is_deterministic() {
    let nonce_key = derive_nonce_key(&[0x42u8; KEY_SIZE]);

    let nonce1 = derive_nonce(&nonce_key, 0);
    let nonce2 = derive_nonce(&nonce_key, 0);
    assert_eq!(nonce1, nonce2);

    let nonce3 = derive_nonce(&nonce_key, 1);
    assert_ne!(nonce1, nonce3, "Different blocks must have different nonces");
}

#[test]
fn nonce_key_derivation_is_deterministic() {
    let key = [0x42u8; KEY_SIZE];
    let nonce_key1 = derive_nonce_key(&key);
    let nonce_key2 = derive_nonce_key(&key);
    assert_eq!(nonce_key1, nonce_key2);

    let different_key = [0x43u8; KEY_SIZE];
    let nonce_key3 = derive_nonce_key(&different_key);
    assert_ne!(nonce_key1, nonce_key3);
}

#[test]
fn large_data_roundtrip() {
    let mut backend = EncryptedBackend::with_block_size(InMemoryBackend::new(), test_key(), 1024).unwrap();

    let data: Vec<u8> = (0..102400).map(|i| (i % 256) as u8).collect();
    backend.append(&data).unwrap();
    backend.flush().unwrap();

    let read_back = backend.read_at(0, data.len()).unwrap();
    assert_eq!(read_back, data);

    let portion = backend.read_at(50000, 1000).unwrap();
    assert_eq!(portion, &data[50000..51000]);
}

#[test]
fn appends_after_a_partial_flush_are_kept() {
    let mut backend = EncryptedBackend::with_block_size(InMemoryBackend::new(), test_key(), 1024).unwrap();
    backend.append(&[1u8; 100]).unwrap();
    backend.flush().unwrap();
    backend.append(&[2u8; 2000]).unwrap();
    backend.flush().unwrap();
    let mut expected = vec![1u8; 100];
    expected.extend(vec![2u8; 2000]);
    assert_eq!(backend.read_at(0, 2100).unwrap(), expected);

    // The stored form reopens to the same plaintext.
    let raw = raw_bytes(&backend);
    assert_eq!(raw.len(), HEADER_SIZE + 3 * (1024 + 32));
    let reopened = EncryptedBackend::with_block_size(InMemoryBackend::with_data(raw), test_key(), 1024).unwrap();
    assert_eq!(reopened.size().unwrap(), 2100);
    assert_eq!(reopened.read_at(0, 2100).unwrap(), expected);
}

#[test]
fn unflushed_data_is_readable_and_sized() {
    let mut backend = EncryptedBackend::new(InMemoryBackend::new(), test_key()).unwrap();
    let offset = backend.append(b"abc").unwrap();
    assert_eq!(offset, 0);
    assert_eq!(backend.append(b"def").unwrap(), 3);
    assert_eq!(backend.size().unwrap(), 6);
    assert_eq!(backend.read_at(2, 3).unwrap(), b"cde".to_vec());
    assert_eq!(
        backend.read_at(4, 3),
        Err(StorageError::ReadPastEnd { offset: 4, len: 3, size: 6 })
    );
}

#[test]
fn block_aligned_truncation() {
    let mut backend = EncryptedBackend::with_block_size(InMemoryBackend::new(), test_key(), 1024).unwrap();
    let data: Vec<u8> = (0..3000).map(|i| (i % 251) as u8).collect();
    backend.append(&data).unwrap();
    backend.flush().unwrap();
    assert_eq!(
        backend.truncate(1000),
        Err(StorageError::Encryption(
            "encrypted backend only supports truncation to block boundaries".to_string()
        ))
    );
    backend.truncate(2048).unwrap();
    assert_eq!(backend.size().unwrap(), 2048);
    assert_eq!(backend.read_at(0, 2048).unwrap(), data[..2048].to_vec());
    assert!(backend.truncate(4096).is_err());
}

#[test]
fn block_size_errors() {
    let err = EncryptedBackend::with_block_size(InMemoryBackend::new(), test_key(), 512).err();
    assert_eq!(
        err,
        Some(StorageError::Encryption("block size must be between 1KB and 1MB, got 512".to_string()))
    );
    let mut inner = InMemoryBackend::new();
    inner.append(&[0u8; 10]).unwrap();
    let err = EncryptedBackend::new(inner, test_key()).err();
    assert_eq!(
        err,
        Some(StorageError::Encryption("storage too small to contain header".to_string()))
    );
    let backend = EncryptedBackend::with_block_size(InMemoryBackend::new(), test_key(), 1024).unwrap();
    let raw = raw_bytes(&backend);
    let err = EncryptedBackend::with_block_size(InMemoryBackend::with_data(raw), test_key(), 2048).err();
    assert_eq!(
        err,
        Some(StorageError::Encryption(
            "block size mismatch: storage has 1024, requested 2048".to_string()
        ))
    );
}

#[test]
fn flushed_tail_reopens_and_truncation_messages() {
    let mut backend = EncryptedBackend::new(InMemoryBackend::new(), test_key()).unwrap();
    backend.append(b"tail bytes").unwrap();
    // Nothing is stored in the wrapped backend before the flush.
    assert_eq!(raw_bytes(&backend).len(), HEADER_SIZE);
    backend.flush().unwrap();
    let stored = raw_bytes(&backend);
    assert!(stored.len() > HEADER_SIZE);

    let mut inner = InMemoryBackend::new();
    inner.append(&stored).unwrap();
    let reopened = EncryptedBackend::new(inner, test_key()).unwrap();
    assert_eq!(reopened.read_at(0, 10).unwrap(), b"tail bytes".to_vec());

    match backend.truncate(3) {
        Err(StorageError::Encryption(m)) => {
            assert_eq!(m, "encrypted backend only supports truncation to block boundaries")
        }
        other => panic!("unexpected {:?}", other),
    }
    match backend.truncate(100) {
        Err(StorageError::Encryption(m)) => assert_eq!(m, "cannot truncate beyond the end of the data"),
        other => panic!("unexpected {:?}", other),
    }
    assert_eq!(backend.size().unwrap(), 10);
}

#[test]
fn every_valid_block_size_opens_an_empty_store() {
    for block_size in [1024usize, 4096, 65536, 1048576] {
        let mut backend =
            EncryptedBackend::with_block_size(InMemoryBackend::new(), test_key(), block_size).unwrap();
        assert_eq!(backend.size().unwrap(), 0);
        let offset = backend.append(b"payload").unwrap();
        assert_eq!(offset, 0);
        assert_eq!(backend.read_at(0, 7).unwrap(), b"payload".to_vec());
    }
}
