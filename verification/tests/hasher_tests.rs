use doctreeai::hasher::FileHasher;

#[test]
fn test_compute_content_hash() {
    let content = "Hello, World!";
    let hash1 = FileHasher::compute_content_hash(content);
    let hash2 = FileHasher::compute_content_hash(content);

    assert_eq!(hash1, hash2);
    assert_eq!(hash1.len(), 64); // SHA-256 produces 64-character hex string
}

#[test]
fn test_different_content_different_hash() {
    let content1 = "Hello, World!";
    let content2 = "Goodbye, World!";

    let hash1 = FileHasher::compute_content_hash(content1);
    let hash2 = FileHasher::compute_content_hash(content2);

    assert_ne!(hash1, hash2);
}

#[test]
fn test_compute_directory_hash() {
    let children_hashes = vec![
        "hash1".to_string(),
        "hash2".to_string(),
        "hash3".to_string(),
    ];

    let dir_hash = FileHasher::compute_directory_hash(&children_hashes);
    assert_eq!(dir_hash.len(), 64);

    // Same children should produce same hash
    let dir_hash2 = FileHasher::compute_directory_hash(&children_hashes);
    assert_eq!(dir_hash, dir_hash2);

    // Different order should produce different hash
    let mut different_order = children_hashes.clone();
    different_order.reverse();
    let dir_hash3 = FileHasher::compute_directory_hash(&different_order);
    assert_ne!(dir_hash, dir_hash3);
}

#[test]
fn test_content_hash_is_lowercase_hex() {
    let hash = FileHasher::compute_content_hash("abc");
    assert!(hash.chars().all(|c| c.is_ascii_hexdigit() && !c.is_ascii_uppercase()));
    // The well-known SHA-256 digest of "abc".
    assert_eq!(
        hash,
        "ba7816bf8f01cfea414140de5dae2223b00361a396177a9cb410ff61f20015ad"
    );
}

#[test]
fn test_directory_hash_of_real_digests_is_order_sensitive() {
    let a = FileHasher::compute_content_hash("left");
    let b = FileHasher::compute_content_hash("right");
    let forward = FileHasher::compute_directory_hash(&vec![a.clone(), b.clone()]);
    let backward = FileHasher::compute_directory_hash(&vec![b, a]);
    assert_ne!(forward, backward);
}

#[test]
fn test_directory_hash_of_empty_list() {
    // No children: the directory hash is the hash of the empty text.
    let dir_hash = FileHasher::compute_directory_hash(&Vec::new());
    assert_eq!(dir_hash, FileHasher::compute_content_hash(""));
}
