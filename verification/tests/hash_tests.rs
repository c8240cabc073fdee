use folder_differ::hash::{
    choose_strategy, compare_content, compare_small_files, hash_file, hash_large_file_blake3,
    hash_medium_file_blake3, hash_sampled_file, hash_small_file, HashStrategy,
};
use folder_differ::DIGEST_LEN;

#[test]
fn test_hash_file_identical() {
    let content1 = b"hello world".to_vec();
    let content2 = b"hello world".to_vec();
    let hash1 = hash_file(&content1, true);
    let hash2 = hash_file(&content2, true);
    assert_eq!(hash1, hash2, "Hashes should match for identical content");
}

#[test]
fn test_hash_file_different() {
    let content1 = b"hello world".to_vec();
    let content2 = b"goodbye world".to_vec();
    let hash1 = hash_file(&content1, true);
    let hash2 = hash_file(&content2, true);
    assert_ne!(hash1, hash2, "Hashes should differ for different content");
}

#[test]
fn test_compare_small_files() {
    let file1 = b"abc".to_vec();
    let file2 = b"abc".to_vec();
    let file3 = b"xyz".to_vec();
    assert_eq!(compare_small_files(&file1, &file2), true);
    assert_eq!(compare_small_files(&file1, &file3), false);
}

#[test]
fn digest_is_a_real_digest() {
    // 32 bytes out of a 5-byte input: the wrapper did not hand the input back.
    let content = b"hello".to_vec();
    let digest = hash_file(&content, true);
    assert_eq!(digest.len(), DIGEST_LEN);
    assert_ne!(digest, content);
}

#[test]
fn all_full_tiers_agree_on_the_digest() {
    let content = vec![0x5Au8; 50_000];
    let small = hash_small_file(&content);
    let medium = hash_medium_file_blake3(&content);
    let large = hash_large_file_blake3(&content);
    assert_eq!(small, medium);
    assert_eq!(medium, large);
}

#[test]
fn strategy_table_tiers() {
    assert!(matches!(choose_strategy(0, true), HashStrategy::DirectBytes));
    assert!(matches!(choose_strategy(1023, true), HashStrategy::DirectBytes));
    assert!(matches!(choose_strategy(1024, true), HashStrategy::BufferedFull));
    assert!(matches!(choose_strategy(1048576, true), HashStrategy::BufferedFull));
    assert!(matches!(choose_strategy(1048577, true), HashStrategy::MappedFull));
    assert!(matches!(choose_strategy(104857599, true), HashStrategy::MappedFull));
    assert!(matches!(choose_strategy(104857600, true), HashStrategy::Sampled));
    assert!(matches!(choose_strategy(104857600, false), HashStrategy::MappedFull));
}

#[test]
fn sampling_ignores_middle_changes() {
    // Two contents that agree in their first and last 64 KiB but differ in
    // the middle: the sampled fingerprints coincide, the full digests do not.
    let n = 200_000;
    let a = vec![0x11u8; n];
    let mut b = vec![0x11u8; n];
    b[100_000] = 0x22;
    assert_eq!(hash_sampled_file(&a), hash_sampled_file(&b));
    assert_ne!(hash_medium_file_blake3(&a), hash_medium_file_blake3(&b));
}

#[test]
fn sampling_sees_edge_changes() {
    let n = 200_000;
    let a = vec![0x11u8; n];
    let mut b = vec![0x11u8; n];
    b[5] = 0x22;
    let mut c = vec![0x11u8; n];
    c[n - 5] = 0x33;
    assert_ne!(hash_sampled_file(&a), hash_sampled_file(&b));
    assert_ne!(hash_sampled_file(&a), hash_sampled_file(&c));
}

#[test]
fn scenario_large_file_single_middle_byte() {
    // A 200 MiB pair identical except for one byte at offset 100 MiB,
    // outside the first and last 64 KiB: the sampled comparator reports
    // equal (the documented false negative); forced full hashing reports
    // different.
    let n = 200 * 1024 * 1024;
    let a = vec![0xABu8; n];
    let mut b = vec![0xABu8; n];
    b[100 * 1024 * 1024] = 0xCD;
    assert_eq!(compare_content(&a, &b, false), true);
    assert_eq!(compare_content(&a, &b, true), false);
}

#[test]
fn compare_content_small_tier_is_exact() {
    let a = b"tiny content".to_vec();
    let b = b"tiny CONTENT".to_vec();
    assert_eq!(compare_content(&a, &a.clone(), false), true);
    assert_eq!(compare_content(&a, &b, false), false);
}

#[test]
fn compare_content_medium_tier_by_digest() {
    let a = vec![7u8; 4096];
    let mut b = vec![7u8; 4096];
    assert_eq!(compare_content(&a, &b, false), true);
    b[2048] = 8;
    assert_eq!(compare_content(&a, &b, false), false);
}
