use doctreeai::cache::{CacheManager, ReadmeLineMapping};

#[test]
fn test_cache_operations() {
    let mut cache = CacheManager::new();

    let test_path = "test/file.rs";
    let hash = "testhash123".to_string();
    let summary = "Test summary".to_string();

    // Test storing and retrieving
    cache.store_summary(test_path, hash.clone(), summary.clone(), 0, false);
    let retrieved = cache.get_cached_summary(test_path, &hash);
    assert_eq!(retrieved, Some(summary));

    // Test cache miss with different hash
    let different_hash = "differenthash456";
    let retrieved_miss = cache.get_cached_summary(test_path, different_hash);
    assert_eq!(retrieved_miss, None);

    // Test invalidation
    cache.invalidate_entry(test_path);
    let after_invalidation = cache.get_cached_summary(test_path, &hash);
    assert_eq!(after_invalidation, None);
}

#[test]
fn test_store_overwrites_entry() {
    let mut cache = CacheManager::new();
    cache.store_summary("a.rs", "h1".to_string(), "first".to_string(), 1, false);
    cache.store_summary("a.rs", "h2".to_string(), "second".to_string(), 2, false);

    // The old fingerprint no longer fetches anything: a mismatch is a
    // miss, never an update in place.
    assert_eq!(cache.get_cached_summary("a.rs", "h1"), None);
    assert_eq!(cache.get_cached_summary("a.rs", "h2"), Some("second".to_string()));
    let (count, _) = cache.get_cache_stats();
    assert_eq!(count, 1);
}

#[test]
fn test_store_leaves_other_paths_alone() {
    let mut cache = CacheManager::new();
    cache.store_summary("a.rs", "ha".to_string(), "sa".to_string(), 1, false);
    cache.store_summary("b.rs", "hb".to_string(), "sb".to_string(), 1, false);
    cache.invalidate_entry("a.rs");
    assert_eq!(cache.get_cached_summary("b.rs", "hb"), Some("sb".to_string()));
}

#[test]
fn test_cache_stats() {
    let cache = CacheManager::new();
    let (count, size) = cache.get_cache_stats();
    assert_eq!(count, 0);
    assert_eq!(size, 0);

    let mut cache = cache;
    cache.store_summary("x.rs", "h".to_string(), "12345".to_string(), 0, false);
    let (count, size) = cache.get_cache_stats();
    assert_eq!(count, 1);
    assert_eq!(size, 5);
    assert!(cache.is_cache_valid());
}

#[test]
fn test_cleanup_old_entries() {
    let mut cache = CacheManager::new();
    cache.store_summary("old.rs", "h1".to_string(), "old".to_string(), 10, false);
    cache.store_summary("new.rs", "h2".to_string(), "new".to_string(), 100, false);

    // Cutoff is now - max_age = 120 - 50 = 70: only the old entry goes.
    let removed = cache.cleanup_old_entries(50, 120);
    assert_eq!(removed, 1);
    assert_eq!(cache.get_cached_summary("old.rs", "h1"), None);
    assert_eq!(cache.get_cached_summary("new.rs", "h2"), Some("new".to_string()));
}

#[test]
fn test_clear_cache_keeps_mappings() {
    let mut cache = CacheManager::new();
    cache.store_summary("a.rs", "h".to_string(), "s".to_string(), 0, false);
    let mapping = ReadmeLineMapping {
        line_number: 3,
        line_content: "about a.rs".to_string(),
        cache_keys: vec!["a.rs".to_string()],
        last_validated_hash: None,
    };
    cache.update_readme_mapping("readmehash".to_string(), vec![mapping]);

    cache.clear_cache();
    let (count, _) = cache.get_cache_stats();
    assert_eq!(count, 0);
    // The mapping set survives a cache clear: the two sides are
    // independently clearable.
    assert_eq!(cache.get_readme_mapping().mappings.len(), 1);
    assert!(cache.validate_readme_hash("readmehash"));

    cache.clear_mappings();
    assert_eq!(cache.get_readme_mapping().mappings.len(), 0);
    assert!(!cache.validate_readme_hash("readmehash"));
}

#[test]
fn test_get_affected_readme_lines() {
    let mut cache = CacheManager::new();
    let m1 = ReadmeLineMapping {
        line_number: 2,
        line_content: "la".to_string(),
        cache_keys: vec!["src/a.rs".to_string(), "src/b.rs".to_string()],
        last_validated_hash: None,
    };
    let m2 = ReadmeLineMapping {
        line_number: 7,
        line_content: "lb".to_string(),
        cache_keys: vec!["src/b.rs".to_string()],
        last_validated_hash: None,
    };
    cache.update_readme_mapping("h".to_string(), vec![m1, m2]);

    assert_eq!(cache.get_affected_readme_lines("src/b.rs"), vec![2, 7]);
    assert_eq!(cache.get_affected_readme_lines("src/a.rs"), vec![2]);
    assert_eq!(cache.get_affected_readme_lines("src/c.rs"), Vec::<usize>::new());
}

#[test]
fn test_get_all_summaries() {
    let mut cache = CacheManager::new();
    cache.store_summary("a.rs", "ha".to_string(), "sa".to_string(), 1, false);
    cache.store_summary("d", "hd".to_string(), "sd".to_string(), 2, true);
    let all = cache.get_all_summaries();
    assert_eq!(all.len(), 2);
    assert_eq!(all[0].source_path, "a.rs");
    assert!(!all[0].is_directory);
    assert_eq!(all[1].source_path, "d");
    assert!(all[1].is_directory);
    assert_eq!(all[1].timestamp, 2);
}
