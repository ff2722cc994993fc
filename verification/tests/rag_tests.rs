use metamind::rag::{
    build_context, build_expansion_prompt, build_prompt_with_history, filter_relevant,
    fuse_results, parse_expansion_response, MIN_SIMILARITY_MICROS, SYSTEM_PROMPT,
};
use metamind::store::{ChatMessage, Embedding};
use metamind::vector::{rank_results, SearchResult};

fn result(id: &str, micros: i64) -> SearchResult {
    SearchResult {
        embedding: Embedding {
            id: id.to_string(),
            artifact_id: format!("doc-{}", id),
            chunk_index: 0,
            content: format!("text of {}", id),
            embedding: vec![],
        },
        similarity_micros: micros,
    }
}

fn message(id: i64, role: &str, content: &str) -> ChatMessage {
    ChatMessage { id, role: role.to_string(), content: content.to_string(), timestamp: id }
}

#[test]
fn test_threshold_keeps_first_two() {
    // similarities 0.9, 0.5, 0.2, 0.1 against threshold 0.25
    let results = vec![
        result("a", 900000),
        result("b", 500000),
        result("c", 200000),
        result("d", 100000),
    ];
    let kept = filter_relevant(&results, MIN_SIMILARITY_MICROS);
    let ids: Vec<&str> = kept.iter().map(|r| r.embedding.id.as_str()).collect();
    assert_eq!(ids, vec!["a", "b"]);
}

#[test]
fn test_rank_results_sorted_and_truncated() {
    let results = vec![
        result("a", 100000),
        result("b", 900000),
        result("c", 500000),
        result("d", 700000),
    ];
    let top = rank_results(results, 3);
    assert_eq!(top.len(), 3);
    let scores: Vec<i64> = top.iter().map(|r| r.similarity_micros).collect();
    assert_eq!(scores, vec![900000, 700000, 500000]);
    // non-increasing throughout
    for w in scores.windows(2) {
        assert!(w[0] >= w[1]);
    }
}

#[test]
fn test_fusion_deduplicates_shared_chunk() {
    // two queries both return chunk "shared"
    let lists = vec![
        vec![result("shared", 800000), result("only1", 600000)],
        vec![result("shared", 700000), result("only2", 500000)],
    ];
    let fused = fuse_results(&lists);
    let shared_count = fused.iter().filter(|r| r.embedding.id == "shared").count();
    assert_eq!(shared_count, 1);
    // first occurrence wins: the score from the first query's copy is kept
    let shared = fused.iter().find(|r| r.embedding.id == "shared").unwrap();
    assert_eq!(shared.similarity_micros, 800000);
    assert_eq!(fused.len(), 3);
}

#[test]
fn test_expansion_keeps_three_lines_drops_bullet() {
    let response = "What is the capital of France?\nParis facts and history\n- a bulleted line\nFrench capital city details\n";
    let queries = parse_expansion_response("Tell me about Paris", response);
    assert_eq!(
        queries,
        vec![
            "Tell me about Paris".to_string(),
            "What is the capital of France?".to_string(),
            "Paris facts and history".to_string(),
            "French capital city details".to_string(),
        ]
    );
}

#[test]
fn test_expansion_strips_numbering_and_caps_at_four() {
    let response = "1. first phrasing\n2) second phrasing\nthird phrasing\nfourth phrasing never kept";
    let queries = parse_expansion_response("original", response);
    assert_eq!(queries.len(), 4);
    assert_eq!(queries[0], "original");
    assert_eq!(queries[1], "first phrasing");
    assert_eq!(queries[2], "second phrasing");
    assert_eq!(queries[3], "third phrasing");
}

#[test]
fn test_expansion_keeps_line_of_exactly_five_hundred_chars() {
    let long = "x".repeat(500);
    let too_long = "y".repeat(501);
    let response = format!("{}\n{}\n", long, too_long);
    let queries = parse_expansion_response("q123", &response);
    assert_eq!(queries, vec!["q123".to_string(), long]);
}

#[test]
fn test_expansion_failure_uses_original_alone() {
    let queries = parse_expansion_response("the question", "");
    assert_eq!(queries, vec!["the question".to_string()]);
}

#[test]
fn test_context_blocks_are_labeled_and_numbered() {
    let results = vec![result("a", 900000), result("b", 254999)];
    let context = build_context(&results);
    let expected = "[Source 1: doc-a (relevance: 90%)]\ntext of a\n\n---\n\n[Source 2: doc-b (relevance: 25%)]\ntext of b";
    assert_eq!(context, expected);
}

#[test]
fn test_context_placeholder_when_empty() {
    let context = build_context(&vec![]);
    assert_eq!(context, "No relevant context found in your knowledge base.");
}

#[test]
fn test_prompt_holds_all_sections_in_order() {
    let history = vec![message(1, "user", "earlier question"), message(2, "assistant", "earlier answer")];
    let prompt = build_prompt_with_history("current question", "the context", &history);
    assert!(prompt.starts_with(SYSTEM_PROMPT));
    let ctx_at = prompt.find("## Context from your knowledge base:").unwrap();
    let conv_at = prompt.find("## Previous Conversation:").unwrap();
    let q_at = prompt.find("## Current User Question:").unwrap();
    let a_at = prompt.find("## Your Answer:").unwrap();
    assert!(ctx_at < conv_at && conv_at < q_at && q_at < a_at);
    assert!(prompt.contains("User: earlier question"));
    assert!(prompt.contains("Assistant: earlier answer"));
    assert!(prompt.contains("the context"));
    assert!(prompt.contains("current question"));
}

#[test]
fn test_prompt_window_is_last_ten_turns() {
    let mut history = Vec::new();
    for i in 0..12 {
        history.push(message(i, "user", &format!("turn{}", i)));
    }
    let prompt = build_prompt_with_history("q", "ctx", &history);
    assert!(!prompt.contains("turn0"));
    assert!(!prompt.contains("turn1\n"));
    assert!(prompt.contains("turn2"));
    assert!(prompt.contains("turn11"));
}

#[test]
fn test_expansion_prompt_quotes_conversation() {
    let history = vec![message(1, "user", "about cheese")];
    let prompt = build_expansion_prompt("gouda?", &history);
    assert!(prompt.contains("user: about cheese"));
    assert!(prompt.contains("Latest Query: gouda?"));
    assert!(prompt.ends_with("Alternative search queries:"));
}

#[test]
fn test_expansion_prompt_without_history() {
    let prompt = build_expansion_prompt("gouda?", &Vec::new());
    assert!(prompt.contains("No previous conversation."));
}
