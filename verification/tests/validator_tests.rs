use doctreeai::cache::CacheManager;
use doctreeai::hasher::FileHasher;
use doctreeai::readme_validator::{
    apply_suggestion, find_relevant_cache_keys, finish_validation, is_content_line,
    plan_validation, PendingCheck, ValidationPlan,
};

#[test]
fn test_is_content_line() {
    assert!(is_content_line("The cache module handles persistence"));
    assert!(is_content_line("Located in src/cache.rs"));
    assert!(is_content_line("The Scanner class provides directory traversal"));

    assert!(!is_content_line("# Header"));
    assert!(!is_content_line(""));
    assert!(!is_content_line("```rust"));
    assert!(!is_content_line("---"));
}

#[test]
fn test_find_relevant_cache_keys_by_path() {
    let mut cache = CacheManager::new();
    cache.store_summary(
        "/p/src/cache.rs",
        "h1".to_string(),
        "short words only".to_string(),
        0,
        false,
    );
    cache.store_summary(
        "/p/src/other.rs",
        "h2".to_string(),
        "tiny bits here".to_string(),
        0,
        false,
    );
    let entries = cache.get_all_summaries();

    let keys = find_relevant_cache_keys("See src/cache.rs for persistence.", "/p", &entries);
    assert_eq!(keys, vec!["/p/src/cache.rs".to_string()]);

    let none = find_relevant_cache_keys("Nothing of note on this line.", "/p", &entries);
    assert!(none.is_empty());
}

#[test]
fn test_find_relevant_cache_keys_by_keywords() {
    let mut cache = CacheManager::new();
    cache.store_summary(
        "/p/src/engine.rs",
        "h1".to_string(),
        "Implements incremental summarization through fingerprint comparison".to_string(),
        0,
        false,
    );
    let entries = cache.get_all_summaries();

    // Two of the entry's long keywords occur in the line, so the entry is
    // relevant even though the line never names the file.
    let keys = find_relevant_cache_keys(
        "The tool performs incremental summarization of the tree",
        "/p",
        &entries,
    );
    assert_eq!(keys, vec!["/p/src/engine.rs".to_string()]);

    // One keyword alone is not enough.
    let none = find_relevant_cache_keys("Only summarization is mentioned here", "/p", &entries);
    assert!(none.is_empty());
}

#[test]
fn test_plan_validation_missing_document() {
    let mut cache = CacheManager::new();
    let plan = plan_validation(&mut cache, "/p/myproj", None, "A fine project.");
    match plan {
        ValidationPlan::MissingDocument(v) => {
            assert_eq!(v.line_number, 0);
            assert_eq!(v.current_content, "");
            assert_eq!(v.suggested_content, "# myproj\n\nA fine project.");
            assert_eq!(v.reason, "README.md does not exist");
            assert!(v.affected_cache_entries.is_empty());
        },
        ValidationPlan::Checks(_) => panic!("expected the synthetic suggestion"),
    }
}

#[test]
fn test_mapping_reexamination_on_fingerprint_change() {
    // The cache holds an entry for src/cache.rs; the document mentions it.
    let mut cache = CacheManager::new();
    cache.store_summary(
        "/p/src/cache.rs",
        "hash_v1".to_string(),
        "short words".to_string(),
        0,
        false,
    );
    let doc = "# Title\n\nSee src/cache.rs for persistence.\n";

    // First pass: mappings are built and the one mapped line needs
    // examination (nothing recorded yet).
    let plan1 = plan_validation(&mut cache, "/p", Some(doc), "summary");
    let checks1 = match plan1 {
        ValidationPlan::Checks(cs) => cs,
        _ => panic!("document exists"),
    };
    assert_eq!(checks1.len(), 1);
    assert_eq!(checks1[0].line_number, 3);
    assert_eq!(checks1[0].line_content, "See src/cache.rs for persistence.");
    assert_eq!(checks1[0].cache_keys, vec!["/p/src/cache.rs".to_string()]);
    assert_eq!(checks1[0].relevant_summaries, vec!["cache.rs: short words".to_string()]);

    // Second pass with nothing changed: the mapping was just examined and
    // its keys are unchanged, so no service call is needed.
    let plan2 = plan_validation(&mut cache, "/p", Some(doc), "summary");
    match plan2 {
        ValidationPlan::Checks(cs) => assert!(cs.is_empty()),
        _ => panic!("document exists"),
    }

    // Changing the entry's content fingerprint makes the mapping eligible
    // for re-examination on the next pass.
    cache.store_summary(
        "/p/src/cache.rs",
        "hash_v2".to_string(),
        "short words".to_string(),
        1,
        false,
    );
    let plan3 = plan_validation(&mut cache, "/p", Some(doc), "summary");
    match plan3 {
        ValidationPlan::Checks(cs) => {
            assert_eq!(cs.len(), 1);
            assert_eq!(cs[0].line_number, 3);
        },
        _ => panic!("document exists"),
    }
}

#[test]
fn test_document_edit_rebuilds_mappings() {
    let mut cache = CacheManager::new();
    cache.store_summary(
        "/p/src/cache.rs",
        "h1".to_string(),
        "short words".to_string(),
        0,
        false,
    );
    let doc1 = "See src/cache.rs for persistence.\n";
    let plan1 = plan_validation(&mut cache, "/p", Some(doc1), "summary");
    match plan1 {
        ValidationPlan::Checks(cs) => assert_eq!(cs.len(), 1),
        _ => panic!("document exists"),
    }
    assert!(cache.validate_readme_hash(&FileHasher::compute_content_hash(doc1)));

    // Any change to the document's own text, even whitespace, discards
    // and rebuilds every mapping, and the rebuilt mapping starts with no
    // recorded examination, so it is examined again.
    let doc2 = "\nSee src/cache.rs for persistence.\n";
    let plan2 = plan_validation(&mut cache, "/p", Some(doc2), "summary");
    match plan2 {
        ValidationPlan::Checks(cs) => {
            assert_eq!(cs.len(), 1);
            // Line numbers were recomputed for the edited document.
            assert_eq!(cs[0].line_number, 2);
        },
        _ => panic!("document exists"),
    }
    assert!(cache.validate_readme_hash(&FileHasher::compute_content_hash(doc2)));
    assert_eq!(cache.get_readme_mapping().mappings.len(), 1);
    assert_eq!(cache.get_readme_mapping().mappings[0].line_number, 2);
}

#[test]
fn test_apply_suggestion_filters_verdicts() {
    let check = PendingCheck {
        line_number: 4,
        line_content: "The cache module handles persistence".to_string(),
        cache_keys: vec!["/p/src/cache.rs".to_string()],
        relevant_summaries: vec!["cache.rs: stores summaries".to_string()],
    };

    // A failed service call degrades to no correction.
    assert!(apply_suggestion(&check, None).is_none());
    // The sentinel means the line is still accurate.
    assert!(apply_suggestion(&check, Some("NO_CHANGE")).is_none());
    assert!(apply_suggestion(&check, Some("  NO_CHANGE  ")).is_none());
    // A response identical to the line is not a correction either.
    assert!(
        apply_suggestion(&check, Some("The cache module handles persistence")).is_none()
    );

    // Replacement text becomes a correction, trimmed.
    let r = apply_suggestion(&check, Some("  The cache module persists summaries  "))
        .expect("a correction");
    assert_eq!(r.line_number, 4);
    assert_eq!(r.current_content, "The cache module handles persistence");
    assert_eq!(r.suggested_content, "The cache module persists summaries");
    assert_eq!(r.reason, "Content outdated based on current code");
    assert_eq!(r.affected_cache_entries, vec!["/p/src/cache.rs".to_string()]);
}

#[test]
fn test_finish_validation_collects_in_order() {
    let c1 = PendingCheck {
        line_number: 1,
        line_content: "line one about the cache".to_string(),
        cache_keys: vec!["a".to_string()],
        relevant_summaries: vec!["a: s".to_string()],
    };
    let c2 = PendingCheck {
        line_number: 2,
        line_content: "line two about the scanner".to_string(),
        cache_keys: vec!["b".to_string()],
        relevant_summaries: vec!["b: s".to_string()],
    };
    let checks = vec![c1, c2];
    let responses = vec![Some("NO_CHANGE".to_string()), Some("replacement".to_string())];
    let results = finish_validation(&checks, &responses);
    assert_eq!(results.len(), 1);
    assert_eq!(results[0].line_number, 2);
    assert_eq!(results[0].suggested_content, "replacement");
}
