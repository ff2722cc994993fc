use metamind::store::{
    bytes_to_embedding, embedding_to_bytes, Artifact, Embedding, Settings, Store, StoreError,
};

fn artifact(id: &str, path: &str, hash: &str) -> Artifact {
    Artifact {
        id: id.to_string(),
        path: path.to_string(),
        last_modified: 11,
        content_hash: hash.to_string(),
        indexed_at: 22,
    }
}

fn chunk(id: &str, artifact_id: &str, index: i32, text: &str) -> Embedding {
    Embedding {
        id: id.to_string(),
        artifact_id: artifact_id.to_string(),
        chunk_index: index,
        content: text.to_string(),
        embedding: vec![1, 2, 3],
    }
}

#[test]
fn test_upsert_and_get_artifact() {
    let mut store = Store::new();
    store.upsert_artifact(&artifact("id1", "a.md", "h1")).unwrap();
    let got = store.get_artifact_by_path("a.md").unwrap();
    assert_eq!(got.id, "id1");
    assert_eq!(got.content_hash, "h1");
    assert!(store.get_artifact_by_path("missing.md").is_none());

    // same id: replaced in place
    store.upsert_artifact(&artifact("id1", "a.md", "h2")).unwrap();
    assert_eq!(store.get_artifact_by_path("a.md").unwrap().content_hash, "h2");
    assert_eq!(store.get_all_artifacts().len(), 1);

    // other id, same path: refused
    let r = store.upsert_artifact(&artifact("id2", "a.md", "h3"));
    assert!(matches!(r, Err(StoreError::PathConflict)));
}

#[test]
fn test_cascade_delete_by_path() {
    let mut store = Store::new();
    store.upsert_artifact(&artifact("id1", "a.md", "h1")).unwrap();
    store.upsert_artifact(&artifact("id2", "b.md", "h2")).unwrap();
    store.insert_embedding(&chunk("id1#0", "id1", 0, "t0")).unwrap();
    store.insert_embedding(&chunk("id1#1", "id1", 1, "t1")).unwrap();
    store.insert_embedding(&chunk("id2#0", "id2", 0, "u0")).unwrap();

    store.delete_artifact_by_path("a.md");
    assert!(store.get_artifact_by_path("a.md").is_none());
    assert!(store.get_artifact_by_path("b.md").is_some());
    let left = store.get_all_embeddings();
    assert_eq!(left.len(), 1);
    assert_eq!(left[0].id, "id2#0");
}

#[test]
fn test_duplicate_chunk_refused() {
    let mut store = Store::new();
    store.upsert_artifact(&artifact("id1", "a.md", "h1")).unwrap();
    store.insert_embedding(&chunk("id1#0", "id1", 0, "t0")).unwrap();
    let r = store.insert_embedding(&chunk("id1#0", "id1", 0, "t0"));
    assert!(matches!(r, Err(StoreError::DuplicateChunk)));
    assert_eq!(store.get_all_embeddings().len(), 1);
}

#[test]
fn test_chat_log_order_and_clear() {
    let mut store = Store::new();
    let id1 = store.insert_chat_message("user", "first", 100).unwrap();
    let id2 = store.insert_chat_message("assistant", "second", 100).unwrap();
    let _id3 = store.insert_chat_message("user", "third", 90).unwrap();
    assert!(id1 < id2);

    let history = store.get_chat_history();
    // ordered by timestamp, id as tiebreak
    assert_eq!(history.len(), 3);
    assert_eq!(history[0].content, "third");
    assert_eq!(history[1].content, "first");
    assert_eq!(history[2].content, "second");

    store.clear_chat_history();
    assert!(store.get_chat_history().is_empty());
}

#[test]
fn test_vector_codec_round_trip_and_layout() {
    let v: Vec<u32> = vec![0x0000_0001, 0xdead_beef, 0, u32::MAX];
    let bytes = embedding_to_bytes(&v);
    assert_eq!(bytes.len(), 16);
    // little-endian, component by component
    assert_eq!(&bytes[0..4], &[1, 0, 0, 0]);
    assert_eq!(&bytes[4..8], &[0xef, 0xbe, 0xad, 0xde]);
    assert_eq!(bytes_to_embedding(&bytes), v);
    // matches the bit-for-bit float layout used by stored data
    let f = 1.5f32;
    let fb = embedding_to_bytes(&vec![f.to_bits()]);
    assert_eq!(fb, f.to_le_bytes().to_vec());
    assert_eq!(f32::from_bits(bytes_to_embedding(&fb)[0]), 1.5f32);
}

#[test]
fn test_codec_ignores_trailing_partial_group() {
    let decoded = bytes_to_embedding(&vec![1, 0, 0, 0, 9, 9]);
    assert_eq!(decoded, vec![1u32]);
}

#[test]
fn test_settings_defaults() {
    let s = Settings::default();
    assert_eq!(s.vault_path, "");
    assert_eq!(s.ollama_endpoint, "http://localhost:11434");
    assert_eq!(s.ollama_model, "llama3.2");
    assert_eq!(s.embedding_model, "nomic-embed-text");
}
