use metamind::outline::{filter_active, next_offset, outline_path, OutlineDocument};
use metamind::stream::StreamState;

#[test]
fn test_stream_framing_across_chunks() {
    let mut state = StreamState::new();
    let lines = state.push_chunk("{\"a\":1}\n{\"b\"");
    assert_eq!(lines, vec!["{\"a\":1}".to_string()]);
    assert_eq!(state.buffer, "{\"b\"");

    let lines = state.push_chunk(":2}\n\n{\"c\":3}\n");
    assert_eq!(
        lines,
        vec!["{\"b\":2}".to_string(), "".to_string(), "{\"c\":3}".to_string()]
    );
    assert_eq!(state.buffer, "");
}

#[test]
fn test_stream_accumulates_until_done() {
    let mut state = StreamState::new();
    state.absorb_fragment("Hello", false);
    state.absorb_fragment(", ", false);
    state.absorb_fragment("world", true);
    state.absorb_fragment("", false);
    assert_eq!(state.full, "Hello, world");
    assert!(state.finished);
}

fn doc(id: &str, archived: Option<&str>) -> OutlineDocument {
    OutlineDocument {
        id: id.to_string(),
        title: format!("title {}", id),
        url_id: format!("url-{}", id),
        text: String::new(),
        updated_at: "2024-01-01".to_string(),
        archived_at: archived.map(|s| s.to_string()),
    }
}

#[test]
fn test_archived_documents_are_excluded() {
    let docs = vec![doc("a", None), doc("b", Some("2024-02-02")), doc("c", None)];
    let active = filter_active(&docs);
    let ids: Vec<&str> = active.iter().map(|d| d.id.as_str()).collect();
    assert_eq!(ids, vec!["a", "c"]);
}

#[test]
fn test_pagination_advances_until_short_page() {
    assert_eq!(next_offset(0, 100, 100), Some(100));
    assert_eq!(next_offset(100, 100, 100), Some(200));
    assert_eq!(next_offset(200, 100, 37), None);
}

#[test]
fn test_outline_paths_are_scheme_qualified() {
    assert_eq!(outline_path("abc-123"), "outline://abc-123");
}
