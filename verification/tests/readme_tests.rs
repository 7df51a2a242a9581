use doctreeai::readme::{
    detect_project_description, extract_sections, minimal_readme_content, readme_info_from_content,
    readme_info_missing,
};

#[test]
fn test_extract_sections() {
    let content = "# Main Title\n\n## Installation\n\nSome content\n\n### Subsection\n\n## Usage\n\nMore content";
    let sections = extract_sections(content);

    assert_eq!(sections, vec!["Main Title", "Installation", "Subsection", "Usage"]);
}

#[test]
fn test_detect_project_description() {
    let content_with_desc = "This project is about creating awesome software";
    assert!(detect_project_description(content_with_desc));

    let content_without_desc = "# Installation\n\nRun `npm install`";
    assert!(!detect_project_description(content_without_desc));
}

#[test]
fn test_readme_info_from_content() {
    let content = "# Test Project\n\n## About\n\nThis project does amazing things.\n\n## Installation\n\nRun the installer.";
    let info = readme_info_from_content(content);
    assert!(info.exists);
    assert_eq!(info.size, content.len());
    assert!(info.has_project_description);
    assert_eq!(info.sections, vec!["Test Project", "About", "Installation"]);
}

#[test]
fn test_readme_info_missing() {
    let info = readme_info_missing();
    assert!(!info.exists);
    assert_eq!(info.size, 0);
    assert!(!info.has_project_description);
    assert!(info.sections.is_empty());
}

#[test]
fn test_minimal_readme_content() {
    let summary = "This is a test project for demonstrating functionality.";
    let content = minimal_readme_content("demo", summary);
    assert!(content.contains(summary));
    assert!(content.contains("# "));
    assert!(content.starts_with("# demo\n\n"));
    assert!(content.contains("## Installation"));
    assert!(content.contains("## Usage"));
}
