use doctreeai::cache::CacheManager;
use doctreeai::scanner::FileNode;
use doctreeai::summarizer::{EngineAction, EngineEvent, HierarchicalSummarizer};

// Drive a walk to completion: file contents come from `files`, and the
// generation service is simulated deterministically, or fails throughout.
fn run_walk(
    engine: &mut HierarchicalSummarizer,
    files: &[(&str, &str)],
    service_up: bool,
) -> Option<String> {
    let mut action = engine.step(EngineEvent::Start);
    loop {
        match action {
            EngineAction::NeedContent { path } => {
                let content = files
                    .iter()
                    .find(|(p, _)| *p == path.as_str())
                    .map(|(_, c)| c.to_string());
                action = engine.step(EngineEvent::Content(content));
            },
            EngineAction::CallLeafService { rel_path, content } => {
                let resp = if service_up {
                    Some(format!("summary of {} ({} bytes)", rel_path, content.len()))
                } else {
                    None
                };
                action = engine.step(EngineEvent::ServiceResult(resp));
            },
            EngineAction::CallDirectoryService { name, child_summaries } => {
                let resp = if service_up {
                    Some(format!("{} holds {} parts", name, child_summaries.len()))
                } else {
                    None
                };
                action = engine.step(EngineEvent::ServiceResult(resp));
            },
            EngineAction::Finished { root_summary } => return root_summary,
        }
    }
}

fn one_file_tree() -> FileNode {
    let mut root = FileNode::new("/p".into(), true);
    root.add_child(FileNode::new("/p/a.txt".into(), false));
    root
}

#[test]
fn test_single_file_scenario() {
    // First run: one leaf call and one directory call; everything cached.
    let cache = CacheManager::new();
    let mut eng = HierarchicalSummarizer::new(&one_file_tree(), cache, false, "/p".into(), 1);
    let s1 = run_walk(&mut eng, &[("/p/a.txt", "hello")], true);
    assert_eq!(s1, Some("project root holds 1 parts".to_string()));
    assert_eq!(eng.service_call_count(), 2);
    let cache = eng.into_cache();

    // Second run with unchanged content: zero service calls, the same
    // root summary.
    let mut eng = HierarchicalSummarizer::new(&one_file_tree(), cache, false, "/p".into(), 2);
    let s2 = run_walk(&mut eng, &[("/p/a.txt", "hello")], true);
    assert_eq!(s2, s1);
    assert_eq!(eng.service_call_count(), 0);
    let cache = eng.into_cache();

    // Third run after the file changed: its digest changes, so the leaf
    // is regenerated, and the change propagates to the root directory.
    let d1 = doctreeai::hasher::FileHasher::compute_content_hash("hello");
    let d2 = doctreeai::hasher::FileHasher::compute_content_hash("hello!!");
    assert_ne!(d1, d2);
    let mut eng = HierarchicalSummarizer::new(&one_file_tree(), cache, false, "/p".into(), 3);
    let _s3 = run_walk(&mut eng, &[("/p/a.txt", "hello!!")], true);
    assert_eq!(eng.service_call_count(), 2);
}

#[test]
fn test_idempotent_rerun_uses_cache_throughout() {
    let files: &[(&str, &str)] = &[
        ("/p/src/main.rs", "fn main() {}"),
        ("/p/src/util.rs", "pub fn helper() {}"),
        ("/p/notes.md", "# notes about the build"),
    ];
    let mut root = FileNode::new("/p".into(), true);
    let mut src = FileNode::new("/p/src".into(), true);
    src.add_child(FileNode::new("/p/src/main.rs".into(), false));
    src.add_child(FileNode::new("/p/src/util.rs".into(), false));
    root.add_child(src);
    root.add_child(FileNode::new("/p/notes.md".into(), false));

    let cache = CacheManager::new();
    let mut eng = HierarchicalSummarizer::new(&root, cache, false, "/p".into(), 1);
    let s1 = run_walk(&mut eng, files, true);
    assert!(s1.is_some());
    // 3 files + 2 directories.
    assert_eq!(eng.service_call_count(), 5);
    let cache = eng.into_cache();

    let mut eng = HierarchicalSummarizer::new(&root, cache, false, "/p".into(), 2);
    let s2 = run_walk(&mut eng, files, true);
    assert_eq!(s2, s1);
    assert_eq!(eng.service_call_count(), 0);
}

#[test]
fn test_invalidation_regenerates_only_that_file() {
    let files: &[(&str, &str)] = &[
        ("/p/a.rs", "struct A;"),
        ("/p/b.rs", "struct B;"),
    ];
    let mut root = FileNode::new("/p".into(), true);
    root.add_child(FileNode::new("/p/a.rs".into(), false));
    root.add_child(FileNode::new("/p/b.rs".into(), false));

    let cache = CacheManager::new();
    let mut eng = HierarchicalSummarizer::new(&root, cache, false, "/p".into(), 1);
    run_walk(&mut eng, files, true);
    assert_eq!(eng.service_call_count(), 3);
    let mut cache = eng.into_cache();

    // Drop one file's entry: on the rerun exactly that file is
    // regenerated; the sibling and the directory keep their cache hits,
    // because their fingerprints are unchanged.
    cache.invalidate_entry("/p/a.rs");
    let b_before = cache.get_cache_summary("/p/b.rs").unwrap().summary;
    let mut eng = HierarchicalSummarizer::new(&root, cache, false, "/p".into(), 2);
    run_walk(&mut eng, files, true);
    assert_eq!(eng.service_call_count(), 1);
    let cache = eng.into_cache();
    assert_eq!(cache.get_cache_summary("/p/b.rs").unwrap().summary, b_before);
    assert!(cache.get_cache_summary("/p/a.rs").is_some());
}

#[test]
fn test_sibling_subtree_unaffected_by_change() {
    // Changing one leaf changes its own and its ancestors' fingerprints,
    // while an unrelated sibling subtree keeps its fingerprint and all
    // its cache hits.
    let files1: &[(&str, &str)] = &[
        ("/p/left/a.rs", "a v1"),
        ("/p/right/b.rs", "b v1"),
    ];
    let mut root = FileNode::new("/p".into(), true);
    let mut left = FileNode::new("/p/left".into(), true);
    left.add_child(FileNode::new("/p/left/a.rs".into(), false));
    let mut right = FileNode::new("/p/right".into(), true);
    right.add_child(FileNode::new("/p/right/b.rs".into(), false));
    root.add_child(left);
    root.add_child(right);

    let cache = CacheManager::new();
    let mut eng = HierarchicalSummarizer::new(&root, cache, false, "/p".into(), 1);
    run_walk(&mut eng, files1, true);
    assert_eq!(eng.service_call_count(), 5);
    let cache = eng.into_cache();
    let right_fp_before = cache.get_cache_summary("/p/right").unwrap().content_hash;
    let root_fp_before = cache.get_cache_summary("/p").unwrap().content_hash;

    // Change the left leaf only.
    let files2: &[(&str, &str)] = &[
        ("/p/left/a.rs", "a v2"),
        ("/p/right/b.rs", "b v1"),
    ];
    let mut eng = HierarchicalSummarizer::new(&root, cache, false, "/p".into(), 2);
    run_walk(&mut eng, files2, true);
    // Regenerated: the changed leaf, its directory, and the root — the
    // chain of ancestors and nothing else.
    assert_eq!(eng.service_call_count(), 3);
    let cache = eng.into_cache();
    assert_eq!(cache.get_cache_summary("/p/right").unwrap().content_hash, right_fp_before);
    assert_ne!(cache.get_cache_summary("/p").unwrap().content_hash, root_fp_before);
}

#[test]
fn test_directory_fallback_when_service_fails() {
    let files: &[(&str, &str)] = &[("/p/a.rs", "struct A;")];
    let mut root = FileNode::new("/p".into(), true);
    root.add_child(FileNode::new("/p/a.rs".into(), false));

    let cache = CacheManager::new();
    let mut eng = HierarchicalSummarizer::new(&root, cache, false, "/p".into(), 1);
    let s = run_walk(&mut eng, files, false);
    // The leaf is left without a summary; the directory would then have
    // nothing to compose, so the root ends the walk without a summary.
    assert_eq!(s, None);
    let cache = eng.into_cache();
    // Nothing was cached from failed calls.
    let (count, _) = cache.get_cache_stats();
    assert_eq!(count, 0);
}

#[test]
fn test_directory_fallback_text() {
    // The leaf summary comes from the cache; only the directory call
    // fails, so the directory falls back to concatenating its child
    // summaries, and the fallback is not cached.
    let files: &[(&str, &str)] = &[("/p/a.rs", "struct A;")];
    let mut root = FileNode::new("/p".into(), true);
    root.add_child(FileNode::new("/p/a.rs".into(), false));

    let mut cache = CacheManager::new();
    let d = doctreeai::hasher::FileHasher::compute_content_hash("struct A;");
    cache.store_summary("/p/a.rs", d, "a cached leaf summary".to_string(), 0, false);

    let mut eng = HierarchicalSummarizer::new(&root, cache, false, "/p".into(), 1);
    let s = run_walk(&mut eng, files, false);
    assert_eq!(
        s,
        Some("Contains: **a.rs**: a cached leaf summary".to_string())
    );
    assert_eq!(eng.service_call_count(), 1);
    let cache = eng.into_cache();
    assert!(cache.get_cache_summary("/p").is_none());
}

#[test]
fn test_skip_rules() {
    // Unreadable files and empty files are skipped without failing the
    // walk; the siblings are still processed.
    let files: &[(&str, &str)] = &[
        ("/p/empty.rs", "   \n"),
        ("/p/good.rs", "fn f() {}"),
    ];
    let mut root = FileNode::new("/p".into(), true);
    root.add_child(FileNode::new("/p/empty.rs".into(), false));
    root.add_child(FileNode::new("/p/gone.rs".into(), false)); // unreadable
    root.add_child(FileNode::new("/p/good.rs".into(), false));

    let cache = CacheManager::new();
    let mut eng = HierarchicalSummarizer::new(&root, cache, false, "/p".into(), 1);
    let s = run_walk(&mut eng, files, true);
    assert!(s.is_some());
    // One leaf call for the one summarizable file, one for the root.
    assert_eq!(eng.service_call_count(), 2);
}

#[test]
fn test_force_regeneration_ignores_cache() {
    let files: &[(&str, &str)] = &[("/p/a.rs", "struct A;")];
    let mut root = FileNode::new("/p".into(), true);
    root.add_child(FileNode::new("/p/a.rs".into(), false));

    let cache = CacheManager::new();
    let mut eng = HierarchicalSummarizer::new(&root, cache, false, "/p".into(), 1);
    run_walk(&mut eng, files, true);
    assert_eq!(eng.service_call_count(), 2);
    let cache = eng.into_cache();

    let mut eng = HierarchicalSummarizer::new(&root, cache, true, "/p".into(), 2);
    run_walk(&mut eng, files, true);
    assert_eq!(eng.service_call_count(), 2);
}
