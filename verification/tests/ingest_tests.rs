use metamind::ingest::{
    attach_chunk, begin_sync, finish_sync, make_chunk_id, prepare_document, record_progress,
    SyncStatus,
};
use metamind::parser::MarkdownParser;
use metamind::store::Store;

fn ingest_once(store: &mut Store, path: &str, raw: &str, now: i64) -> bool {
    let parser = MarkdownParser::new();
    let parsed = parser.parse_content(raw).unwrap();
    match prepare_document(store, path, &parsed.content_hash, now, now).unwrap() {
        None => false,
        Some(artifact_id) => {
            for (i, chunk) in parsed.chunks.iter().enumerate() {
                // one embedding request per chunk would happen here; the
                // vector below stands in for the provider's answer
                let vector: Vec<u32> = vec![i as u32, 7];
                attach_chunk(store, &artifact_id, i, chunk, vector).unwrap();
            }
            true
        },
    }
}

#[test]
fn test_reingest_unchanged_changes_nothing() {
    let mut store = Store::new();
    let raw = "---\ntitle: Note\n---\nsome body words here";

    assert!(ingest_once(&mut store, "a.md", raw, 100));
    let id_before = store.get_artifact_by_path("a.md").unwrap().id;
    let chunks_before: Vec<(String, String)> = store
        .get_all_embeddings()
        .iter()
        .map(|e| (e.id.clone(), e.content.clone()))
        .collect();
    assert_eq!(chunks_before.len(), 1);

    // second pass over the unchanged file: skipped, no new chunks
    assert!(!ingest_once(&mut store, "a.md", raw, 200));
    let chunks_after: Vec<(String, String)> = store
        .get_all_embeddings()
        .iter()
        .map(|e| (e.id.clone(), e.content.clone()))
        .collect();
    assert_eq!(chunks_before, chunks_after);
    let after = store.get_artifact_by_path("a.md").unwrap();
    assert_eq!(after.id, id_before);
    assert_eq!(after.indexed_at, 100);
}

#[test]
fn test_changed_content_replaces_chunks_and_keeps_id() {
    let mut store = Store::new();
    assert!(ingest_once(&mut store, "a.md", "first version", 100));
    let id_before = store.get_artifact_by_path("a.md").unwrap().id;

    assert!(ingest_once(&mut store, "a.md", "second version, new words", 200));
    let after = store.get_artifact_by_path("a.md").unwrap();
    assert_eq!(after.id, id_before, "re-indexing updates in place");
    assert_eq!(after.indexed_at, 200);

    let chunks = store.get_all_embeddings();
    assert_eq!(chunks.len(), 1);
    assert_eq!(chunks[0].content, "second version, new words");
    assert_eq!(chunks[0].id, format!("{}#0", id_before));
}

#[test]
fn test_chunk_ids_are_contiguous_ordinals() {
    assert_eq!(make_chunk_id("doc", 0), "doc#0");
    assert_eq!(make_chunk_id("doc", 12), "doc#12");
}

#[test]
fn test_sync_status_lifecycle() {
    let mut status = SyncStatus::default();
    assert!(!status.is_running);
    assert_eq!(status.last_sync_at, None);

    begin_sync(&mut status, 3);
    assert!(status.is_running);
    assert_eq!(status.total_files, 3);
    assert_eq!(status.processed_files, 0);

    record_progress(&mut status);
    record_progress(&mut status);
    assert_eq!(status.processed_files, 2);

    finish_sync(&mut status, 555);
    assert!(!status.is_running);
    assert_eq!(status.last_sync_at, Some(555));
}

#[test]
fn test_minted_ids_are_uuid_shaped() {
    let mut store = Store::new();
    assert!(ingest_once(&mut store, "a.md", "body", 100));
    assert_eq!(store.get_artifact_by_path("a.md").unwrap().id.len(), 36);
}

#[test]
fn test_duplicate_chunk_attachment_is_refused() {
    let mut store = Store::new();
    assert!(ingest_once(&mut store, "a.md", "body", 100));
    let id = store.get_artifact_by_path("a.md").unwrap().id;
    let r = attach_chunk(&mut store, &id, 0, "body", vec![1]);
    assert!(r.is_err());
    assert_eq!(store.get_all_embeddings().len(), 1);
}

#[test]
fn test_removal_path_needs_no_fingerprint() {
    let mut store = Store::new();
    assert!(ingest_once(&mut store, "a.md", "body", 100));
    store.delete_artifact_by_path("a.md");
    assert!(store.get_artifact_by_path("a.md").is_none());
    assert!(store.get_all_embeddings().is_empty());
}
