use metamind::parser::{encode, compute_hash, MarkdownParser};

#[test]
fn test_extract_frontmatter() {
    let parser = MarkdownParser::new();
    let content = r#"---
title: Test Document
tags: [tag1, tag2]
---

# Hello World

This is a test document."#;

    let result = parser.parse_content(content).unwrap();
    assert_eq!(result.frontmatter.title, Some("Test Document".to_string()));
    assert_eq!(result.frontmatter.tags, vec!["tag1", "tag2"]);
}

#[test]
fn test_chunking() {
    let parser = MarkdownParser::new();
    let words: Vec<String> = (0..1000).map(|i| format!("word{}", i)).collect();
    let text = words.join(" ");

    let chunks = parser.chunk_text(&text);
    assert!(chunks.len() > 1);
}

#[test]
fn test_chunking_thousand_words_two_chunks() {
    let parser = MarkdownParser::new();
    let words: Vec<String> = (0..1000).map(|i| format!("word{}", i)).collect();
    let text = words.join(" ");

    let chunks = parser.chunk_text(&text);
    assert_eq!(chunks.len(), 2);
    assert_eq!(chunks[0], words[0..500].join(" "));
    assert_eq!(chunks[1], words[450..1000].join(" "));
}

#[test]
fn test_chunking_small_text_is_one_verbatim_chunk() {
    let parser = MarkdownParser::new();
    let text = "just a few words";
    let chunks = parser.chunk_text(text);
    assert_eq!(chunks, vec!["just a few words".to_string()]);
}

#[test]
fn test_chunking_overlap_words() {
    let parser = MarkdownParser::new();
    let words: Vec<String> = (0..1200).map(|i| format!("w{}", i)).collect();
    let text = words.join(" ");
    let chunks = parser.chunk_text(&text);
    assert_eq!(chunks.len(), 3);
    assert_eq!(chunks[0], words[0..500].join(" "));
    assert_eq!(chunks[1], words[450..950].join(" "));
    assert_eq!(chunks[2], words[900..1200].join(" "));
    // the last 50 words of a chunk open the next chunk
    let tail: Vec<String> = words[900..950].to_vec();
    assert!(chunks[1].ends_with(&tail.join(" ")));
    assert!(chunks[2].starts_with(&tail.join(" ")));
}

#[test]
fn test_chunking_middle_chunks_are_five_hundred_words() {
    let parser = MarkdownParser::new();
    let words: Vec<String> = (0..1100).map(|i| format!("v{}", i)).collect();
    let text = words.join(" ");
    let chunks = parser.chunk_text(&text);
    assert_eq!(chunks.len(), 3);
    assert_eq!(chunks[0], words[0..500].join(" "));
    assert_eq!(chunks[1], words[450..950].join(" "));
    assert_eq!(chunks[2], words[900..1100].join(" "));
    assert_eq!(chunks[1].split_whitespace().count(), 500);
}

#[test]
fn test_unicode_whitespace_collapses() {
    let parser = MarkdownParser::new();
    let result = parser.parse_content("one\u{a0}two\u{2003}three").unwrap();
    assert_eq!(result.content, "one two three");
}

#[test]
fn test_hex_encode() {
    assert_eq!(encode(&vec![]), "");
    assert_eq!(encode(&vec![0u8, 1, 0x7f, 0x80, 0xff]), "00017f80ff");
}

#[test]
fn test_fingerprint_known_value() {
    // the well-known SHA-256 of "abc"
    assert_eq!(
        compute_hash("abc"),
        "ba7816bf8f01cfea414140de5dae2223b00361a396177a9cb410ff61f20015ad"
    );
}

#[test]
fn test_fingerprint_stable_and_sensitive() {
    let a = compute_hash("some document body");
    let b = compute_hash("some document body");
    let c = compute_hash("some document bodY");
    assert_eq!(a, b);
    assert_ne!(a, c);
    assert_eq!(a.len(), 64);
}

#[test]
fn test_markdown_to_plain_text_via_parse() {
    let parser = MarkdownParser::new();
    let result = parser.parse_content("# Title\n\nHello   *world*, `code kept`.").unwrap();
    assert_eq!(result.content, "Title Hello world , code kept .");
}

#[test]
fn test_code_block_content_preserved() {
    let parser = MarkdownParser::new();
    let result = parser.parse_content("before\n\n```\nkept inner\n```\n\nafter").unwrap();
    assert_eq!(result.content, "before kept inner after");
}

#[test]
fn test_frontmatter_block_list_and_quotes() {
    let parser = MarkdownParser::new();
    let content = "---\ntitle: \"Quoted Title\"\ntags:\n- alpha\n- \"beta\"\naliases: solo\n---\nbody text";
    let result = parser.parse_content(content).unwrap();
    assert_eq!(result.frontmatter.title, Some("Quoted Title".to_string()));
    assert_eq!(result.frontmatter.tags, vec!["alpha", "beta"]);
    assert_eq!(result.frontmatter.aliases, vec!["solo"]);
    assert_eq!(result.content, "body text");
}

#[test]
fn test_frontmatter_scalar_tags_split_on_commas() {
    let parser = MarkdownParser::new();
    let content = "---\ntags: one, two ,three\n---\nbody";
    let result = parser.parse_content(content).unwrap();
    assert_eq!(result.frontmatter.tags, vec!["one", "two", "three"]);
}

#[test]
fn test_malformed_frontmatter_falls_back_to_empty() {
    let parser = MarkdownParser::new();
    let content = "---\ntitle: Good\nthis line has no separator\n---\nbody";
    let result = parser.parse_content(content).unwrap();
    assert_eq!(result.frontmatter.title, None);
    assert!(result.frontmatter.tags.is_empty());
    assert!(result.frontmatter.aliases.is_empty());
    assert_eq!(result.content, "body");
}

#[test]
fn test_no_frontmatter_keeps_whole_text() {
    let parser = MarkdownParser::new();
    let result = parser.parse_content("plain text only").unwrap();
    assert_eq!(result.frontmatter.title, None);
    assert_eq!(result.content, "plain text only");
    assert_eq!(result.chunks, vec!["plain text only".to_string()]);
}

#[test]
fn test_empty_document_is_one_empty_chunk() {
    let parser = MarkdownParser::new();
    assert_eq!(parser.chunk_text(""), vec!["".to_string()]);
    let parsed = parser.parse_content("").unwrap();
    assert_eq!(parsed.content, "");
    assert_eq!(parsed.chunks, vec!["".to_string()]);
}

#[test]
fn test_unclosed_metadata_block_is_body() {
    let parser = MarkdownParser::new();
    let parsed = parser.parse_content("---
title: Never Closed
body goes on").unwrap();
    assert_eq!(parsed.frontmatter.title, None);
    assert!(parsed.content.contains("title: Never Closed"));
}

#[test]
fn test_fingerprint_covers_raw_text_not_normalized() {
    let parser = MarkdownParser::new();
    let a = parser.parse_content("word  word").unwrap();
    let b = parser.parse_content("word word").unwrap();
    // both normalize to the same plain text, but the raw bytes differ
    assert_eq!(a.content, b.content);
    assert_ne!(a.content_hash, b.content_hash);
}
