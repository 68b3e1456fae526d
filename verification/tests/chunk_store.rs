use rhizo_core::chunk_store::store::EXPECTED_HASH_LEN;
use rhizo_core::chunk_store::{ChunkStore, ChunkStoreError};

// A valid-format hash for testing (64 hex chars)
fn fake_valid_hash() -> String {
    "a".repeat(EXPECTED_HASH_LEN)
}

#[test]
fn test_put_get_roundtrip() {
    let mut store = ChunkStore::new();

    let data = b"hello world";
    let hash = store.put(data).unwrap();
    let retrieved = store.get(&hash).unwrap();

    assert_eq!(data.to_vec(), retrieved);
}

#[test]
fn test_deduplication() {
    let mut store = ChunkStore::new();

    let data = b"same data";
    let hash1 = store.put(data).unwrap();
    let hash2 = store.put(data).unwrap();

    assert_eq!(hash1, hash2);
}

#[test]
fn test_not_found() {
    let mut store = ChunkStore::new();

    // Use a valid-format hash that doesn't exist
    let result = store.get(&fake_valid_hash());
    assert!(matches!(result, Err(ChunkStoreError::NotFound(_))));
}

#[test]
fn test_exists() {
    let mut store = ChunkStore::new();

    let hash = store.put(b"test data").unwrap();
    assert!(store.contains(&hash).unwrap());
    assert!(!store.contains(&fake_valid_hash()).unwrap());
}

#[test]
fn test_delete() {
    let mut store = ChunkStore::new();

    let hash = store.put(b"to be deleted").unwrap();
    assert!(store.contains(&hash).unwrap());

    store.delete(&hash).unwrap();
    assert!(!store.contains(&hash).unwrap());
}

#[test]
fn test_invalid_hash_too_short() {
    let mut store = ChunkStore::new();

    let result = store.get("abc");
    assert!(matches!(result, Err(ChunkStoreError::InvalidHash(_))));

    let result = store.contains("abc");
    assert!(matches!(result, Err(ChunkStoreError::InvalidHash(_))));

    let result = store.delete("abc");
    assert!(matches!(result, Err(ChunkStoreError::InvalidHash(_))));
}

#[test]
fn test_invalid_hash_wrong_length() {
    let mut store = ChunkStore::new();

    // 32 chars instead of 64
    let short_hash = "a".repeat(32);
    let result = store.get(&short_hash);
    assert!(matches!(result, Err(ChunkStoreError::InvalidHash(_))));
}

#[test]
fn test_invalid_hash_non_hex() {
    let mut store = ChunkStore::new();

    // Contains 'g' which is not hex
    let bad_hash = "g".repeat(EXPECTED_HASH_LEN);
    let result = store.get(&bad_hash);
    assert!(matches!(result, Err(ChunkStoreError::InvalidHash(_))));
}

#[test]
fn test_get_verified_success() {
    let mut store = ChunkStore::new();

    let data = b"verified data";
    let hash = store.put(data).unwrap();
    let retrieved = store.get_verified(&hash).unwrap();

    assert_eq!(data.to_vec(), retrieved);
}

#[test]
fn test_get_verified_detects_corruption() {
    let mut store = ChunkStore::new();

    let data = b"original data";
    let hash = store.put(data).unwrap();

    // Put other bytes under the hash, as a damaged file would
    store.restore_chunk(&hash, b"corrupted!".to_vec());

    // Regular get returns corrupted data
    let result = store.get(&hash).unwrap();
    assert_eq!(result, b"corrupted!");

    // get_verified catches the corruption
    let result = store.get_verified(&hash);
    assert!(matches!(result, Err(ChunkStoreError::HashMismatch { .. })));
}

#[test]
fn test_large_chunk() {
    let mut store = ChunkStore::new();

    // 10MB of data
    let data: Vec<u8> = (0..10_000_000).map(|i| (i % 256) as u8).collect();
    let hash = store.put(&data).unwrap();
    let retrieved = store.get(&hash).unwrap();

    assert_eq!(data.len(), retrieved.len());
    assert_eq!(data, retrieved);
}

#[test]
fn test_empty_chunk() {
    let mut store = ChunkStore::new();

    let data = b"";
    let hash = store.put(data).unwrap();
    let retrieved = store.get(&hash).unwrap();

    assert_eq!(data.to_vec(), retrieved);
}

#[test]
fn test_binary_data() {
    let mut store = ChunkStore::new();

    // Binary data with null bytes and all byte values
    let data: Vec<u8> = (0..=255).collect();
    let hash = store.put(&data).unwrap();
    let retrieved = store.get(&hash).unwrap();

    assert_eq!(data, retrieved);
}

#[test]
fn put_returns_the_blake3_hash_in_lowercase_hex() {
    let mut store = ChunkStore::new();
    assert_eq!(
        store.put(b"").unwrap(),
        "af1349b9f5f9a1a6a0404dea36dcc9499bcb25c9adc112b7cc9a93cae41f3262"
    );
    let hash = store.put(b"hello world").unwrap();
    assert_eq!(hash.len(), 64);
    assert!(hash.chars().all(|c| c.is_ascii_digit() || ('a'..='f').contains(&c)));
    assert_ne!(hash, "hello world");
    assert_ne!(hash, store.put(b"hello worle").unwrap());
}

#[test]
fn invalid_hash_messages() {
    assert_eq!(
        ChunkStore::validate_hash("abc").unwrap_err(),
        ChunkStoreError::InvalidHash("expected 64 characters, got 3".to_string())
    );
    assert_eq!(
        ChunkStore::validate_hash(&"g".repeat(64)).unwrap_err(),
        ChunkStoreError::InvalidHash("hash must contain only lowercase hexadecimal characters".to_string())
    );
    assert!(ChunkStore::validate_hash(&"0123456789abcdef".repeat(4)).is_ok());
    assert_eq!(
        ChunkStore::validate_hash(&"A".repeat(64)).unwrap_err(),
        ChunkStoreError::InvalidHash("hash must contain only lowercase hexadecimal characters".to_string())
    );
    assert_eq!(
        ChunkStore::validate_hash(&"é".repeat(32)).unwrap_err(),
        ChunkStoreError::InvalidHash("hash must contain only lowercase hexadecimal characters".to_string())
    );
}

#[test]
fn chunks_are_sharded_by_the_first_four_characters() {
    assert_eq!(
        ChunkStore::hash_to_path("aabbccdd").unwrap(),
        ("aa".to_string(), "bb".to_string())
    );
    assert_eq!(
        ChunkStore::hash_to_path("abc").unwrap_err(),
        ChunkStoreError::InvalidHash("hash too short: 3 characters".to_string())
    );
}

#[test]
fn chunk_store_error_messages() {
    assert_eq!(ChunkStoreError::Io("x".to_string()).to_string(), "IO error: x");
    assert_eq!(ChunkStoreError::NotFound("h".to_string()).to_string(), "Chunk not found: h");
    assert_eq!(ChunkStoreError::InvalidHash("m".to_string()).to_string(), "Invalid hash: m");
    assert_eq!(
        ChunkStoreError::HashMismatch { expected: "a".to_string(), actual: "b".to_string() }.to_string(),
        "Hash mismatch: expected a, got b"
    );
}

#[test]
fn delete_of_a_missing_chunk_succeeds() {
    let mut store = ChunkStore::new();
    store.delete(&fake_valid_hash()).unwrap();
    let hash = store.put(b"x").unwrap();
    store.delete(&hash).unwrap();
    assert!(matches!(store.get(&hash), Err(ChunkStoreError::NotFound(h)) if h == hash));
    assert!(matches!(store.get_verified(&hash), Err(ChunkStoreError::NotFound(_))));
}

#[test]
fn upper_case_hashes_are_rejected_everywhere() {
    let mut store = ChunkStore::new();
    let upper = "A".repeat(64);
    assert!(matches!(store.contains(&upper), Err(ChunkStoreError::InvalidHash(_))));
    assert!(matches!(store.get(&upper), Err(ChunkStoreError::InvalidHash(_))));
    assert!(matches!(store.get_verified(&upper), Err(ChunkStoreError::InvalidHash(_))));
    assert!(matches!(store.delete(&upper), Err(ChunkStoreError::InvalidHash(_))));
    let hash = store.put(b"data").unwrap();
    assert!(matches!(
        store.contains(&hash.to_uppercase()),
        Err(ChunkStoreError::InvalidHash(_))
    ));
    assert_eq!(store.contains(&hash).unwrap(), true);
}
