use metamind::watch::{classify_event, is_markdown_file, FileEvent};

#[test]
fn test_is_markdown_file() {
    assert!(is_markdown_file("test.md"));
    assert!(is_markdown_file("test.MD"));
    assert!(!is_markdown_file("test.txt"));
    assert!(!is_markdown_file("test"));
}

#[test]
fn test_is_markdown_file_hidden_and_nested() {
    assert!(is_markdown_file("notes/dir/file.md"));
    assert!(!is_markdown_file(".md"));
    assert!(!is_markdown_file("dir/.md"));
    assert!(is_markdown_file("dir/.hidden.md"));
}

#[test]
fn test_is_markdown_file_ignores_trailing_separators() {
    assert!(is_markdown_file("test.md/"));
    assert!(is_markdown_file("dir/test.md//"));
    assert!(!is_markdown_file("test.txt/"));
    assert!(!is_markdown_file("/"));
}

#[test]
fn test_classify_event() {
    assert!(matches!(
        classify_event("a/note.md".to_string(), true),
        Some(FileEvent::Modified(p)) if p == "a/note.md"
    ));
    assert!(matches!(
        classify_event("a/note.md".to_string(), false),
        Some(FileEvent::Deleted(p)) if p == "a/note.md"
    ));
    assert!(classify_event("a/note.txt".to_string(), true).is_none());
}
