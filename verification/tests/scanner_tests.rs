use doctreeai::scanner::{DirectoryScanner, FileNode};

#[test]
fn test_file_node_operations() {
    let mut parent = FileNode::new("/tmp/test".into(), true);
    let child = FileNode::new("/tmp/test/file.rs".into(), false);

    parent.add_child(child);
    assert_eq!(parent.children.len(), 1);

    let source_file = FileNode::new("test.rs".into(), false);
    assert!(source_file.is_source_code_file());

    let non_source_file = FileNode::new("test.txt".into(), false);
    assert!(!non_source_file.is_source_code_file());
}

#[test]
fn integration_tests_test_file_node_operations() {
    let mut parent = FileNode::new("/tmp/parent".into(), true);
    let child1 = FileNode::new("/tmp/parent/file1.rs".into(), false);
    let child2 = FileNode::new("/tmp/parent/file2.rs".into(), false);

    parent.add_child(child1);
    parent.add_child(child2);

    assert_eq!(parent.children.len(), 2);
    assert!(parent.is_directory);

    // Test source code file detection
    let rust_file = FileNode::new("test.rs".into(), false);
    assert!(rust_file.is_source_code_file());

    let python_file = FileNode::new("test.py".into(), false);
    assert!(python_file.is_source_code_file());

    let binary_file = FileNode::new("test.bin".into(), false);
    assert!(!binary_file.is_source_code_file());

    let directory = FileNode::new("src".into(), true);
    assert!(!directory.is_source_code_file());
}

#[test]
fn test_uppercase_extension_is_recognized() {
    // Extensions are matched after lowercasing; if the case folding were
    // the identity on "RS" this would fail.
    let upper = FileNode::new("TEST.RS".into(), false);
    assert!(upper.is_source_code_file());
    let mixed = FileNode::new("page.Html".into(), false);
    assert!(mixed.is_source_code_file());
}

#[test]
fn test_hidden_file_has_no_extension() {
    // A leading dot does not begin an extension.
    let hidden = FileNode::new(".gitignore".into(), false);
    assert!(!hidden.is_source_code_file());
}

#[test]
fn test_get_relative_path() {
    let node = FileNode::new("/base/src/main.rs".into(), false);
    assert_eq!(node.get_relative_path("/base").unwrap(), "src/main.rs");

    let root = FileNode::new("/base".into(), true);
    assert_eq!(root.get_relative_path("/base").unwrap(), "");

    let outside = FileNode::new("/elsewhere/x.rs".into(), false);
    assert!(outside.get_relative_path("/base").is_err());
}

#[test]
fn test_should_skip_path() {
    let scanner = DirectoryScanner::new("/p".into());
    assert!(scanner.should_skip_path("/p/.doctreeai_cache/x.json"));
    assert!(scanner.should_skip_path("/p/.git/config"));
    assert!(scanner.should_skip_path("/p/.hidden"));
    assert!(!scanner.should_skip_path("/p/.gitignore"));
    assert!(scanner.should_skip_path("/p/node_modules"));
    assert!(scanner.should_skip_path("/p/target"));
    assert!(!scanner.should_skip_path("/p/src"));
    assert!(!scanner.should_skip_path("/p/src/main.rs"));
}

#[test]
fn test_build_tree_deterministic_order() {
    // Directories come before files, then lexicographic by path.
    let mut root = FileNode::new("/p".into(), true);
    let mut pending = vec![
        FileNode::new("/p/zeta.rs".into(), false),
        FileNode::new("/p/alpha.rs".into(), false),
        FileNode::new("/p/src".into(), true),
        FileNode::new("/p/src/lib.rs".into(), false),
        FileNode::new("/p/docs".into(), true),
    ];
    DirectoryScanner::build_tree(&mut root, &mut pending);
    assert!(pending.is_empty());

    let order: Vec<&str> = root.children.iter().map(|c| c.path.as_str()).collect();
    assert_eq!(order, vec!["/p/docs", "/p/src", "/p/alpha.rs", "/p/zeta.rs"]);
    // The nested file was attached below its own directory.
    let src = &root.children[1];
    assert_eq!(src.children.len(), 1);
    assert_eq!(src.children[0].path, "/p/src/lib.rs");
}

#[test]
fn test_count_and_traversals() {
    let mut root = FileNode::new("/p".into(), true);
    let mut pending = vec![
        FileNode::new("/p/a.rs".into(), false),
        FileNode::new("/p/b.txt".into(), false),
        FileNode::new("/p/sub".into(), true),
        FileNode::new("/p/sub/c.py".into(), false),
    ];
    DirectoryScanner::build_tree(&mut root, &mut pending);

    assert_eq!(DirectoryScanner::count_nodes(&root), 5);

    let sources = DirectoryScanner::filter_source_files(&root);
    let names: Vec<&str> = sources.iter().map(|n| n.path.as_str()).collect();
    assert_eq!(names, vec!["/p/sub/c.py", "/p/a.rs"]);

    let dirs = DirectoryScanner::get_directories(&root);
    let dnames: Vec<&str> = dirs.iter().map(|n| n.path.as_str()).collect();
    assert_eq!(dnames, vec!["/p", "/p/sub"]);
}
