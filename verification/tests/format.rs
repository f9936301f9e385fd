use discord_pipe::format::{code_block_ok, format_code_block, format_embed, overhead_chars, split_content, split_content_ok};

#[test]
fn formats_code_block_with_tag_and_timestamp() {
    let msg = format_code_block("hello\nworld", "cargo build", "2026-03-20 07:15:00");
    assert!(msg.starts_with("**`[cargo build]`** 2026-03-20 07:15:00\n```\n"));
    assert!(msg.ends_with("\n```"));
    assert!(msg.contains("hello\nworld"));
}

#[test]
fn formats_code_block_content_length() {
    let msg = format_code_block("test", "tag", "ts");
    assert!(msg.chars().count() <= 2000);
}

#[test]
fn formats_embed_with_tag_and_content() {
    let json = format_embed("hello\nworld", "cargo build", "2026-03-20T07:15:00Z");
    let parsed: serde_json::Value = serde_json::from_str(&json).unwrap();
    assert!(parsed["embeds"][0]["title"]
        .as_str()
        .unwrap()
        .contains("cargo build"));
    assert!(parsed["embeds"][0]["description"]
        .as_str()
        .unwrap()
        .contains("hello\nworld"));
}

#[test]
fn overhead_chars_code_block() {
    let tag = "cargo build";
    let overhead = overhead_chars(tag, "code");
    let msg = format_code_block("", tag, "2026-03-20 07:15:00");
    let content_len = 0_usize;
    assert_eq!(
        msg.chars().count() - content_len,
        overhead + "2026-03-20 07:15:00".len()
    );
}

#[test]
fn overhead_chars_embed() {
    let tag = "deploy";
    let overhead = overhead_chars(tag, "embed");
    assert!(overhead > 0);
}

#[test]
fn embed_has_correct_color() {
    let json = format_embed("test", "tag", "ts");
    let parsed: serde_json::Value = serde_json::from_str(&json).unwrap();
    assert_eq!(parsed["embeds"][0]["color"], 3066993);
}

#[test]
fn split_within_limit_returns_single_chunk() {
    let chunks = split_content("short text", 1800, 3);
    assert_eq!(chunks.len(), 1);
    assert_eq!(chunks[0], "short text");
}

#[test]
fn split_oversized_into_multiple_chunks() {
    let content = "a\n".repeat(100); // 200 chars across 100 lines
    let chunks = split_content(&content, 50, 3);
    assert!(chunks.len() > 1);
    assert!(chunks.len() <= 3);
    for chunk in &chunks {
        assert!(chunk.chars().count() <= 50);
    }
}

#[test]
fn split_truncates_middle_when_exceeding_max_messages() {
    let content = "line\n".repeat(500); // way too long for 3 msgs
    let chunks = split_content(&content, 50, 3);
    assert_eq!(chunks.len(), 3);
    assert!(chunks[1].contains("omitted") || chunks[1].contains("truncated"));
}

#[test]
fn split_preserves_line_boundaries() {
    let content = "aaaa\nbbbb\ncccc\ndddd";
    let chunks = split_content(&content, 10, 3);
    for chunk in &chunks {
        assert!(!chunk.starts_with('\n'));
    }
}

#[test]
fn code_block_is_exact_when_it_fits() {
    let msg = format_code_block("x", "t", "ts");
    assert_eq!(msg, "**`[t]`** ts\n```\nx\n```");
}

#[test]
fn code_block_is_cut_when_too_long() {
    let content = "z".repeat(3000);
    let msg = format_code_block(&content, "tag", "2026-03-20 07:15:00");
    let header = "**`[tag]`** 2026-03-20 07:15:00\n```\n";
    assert!(msg.starts_with(header));
    assert!(msg.ends_with("...\n```"));
    // overhead 21, timestamp 19 bytes: 2000 - 21 - 19 - 4 = 1956 characters kept
    assert_eq!(msg.chars().count(), header.chars().count() + 1956 + 7);
    assert!(msg.chars().count() <= 2000);
}

#[test]
fn overhead_of_unknown_format_is_zero() {
    assert_eq!(overhead_chars("tag", "plain"), 0);
    assert_eq!(overhead_chars("abc", "code"), 21);
}

#[test]
fn embed_payload_is_exact() {
    let json = format_embed("hi", "t", "ts");
    assert_eq!(
        json,
        "{\"embeds\":[{\"color\":3066993,\"description\":\"```\\nhi\\n```\",\"title\":\"[t] ts\"}]}"
    );
}

#[test]
fn embed_description_is_cut_past_limit() {
    let content = "q".repeat(5000);
    let json = format_embed(&content, "t", "ts");
    let parsed: serde_json::Value = serde_json::from_str(&json).unwrap();
    let desc = parsed["embeds"][0]["description"].as_str().unwrap();
    assert_eq!(desc.chars().count(), 4096);
    assert!(desc.ends_with("...\n```"));
}

#[test]
fn embed_overhead_is_payload_length_of_empty_content() {
    assert_eq!(overhead_chars("deploy", "embed"), format_embed("", "deploy", "").len());
}

#[test]
fn split_counts_omitted_lines() {
    let content = "line\n".repeat(500);
    let chunks = split_content(&content, 50, 3);
    // 501 lines (the last one empty); 10 lines per chunk of 49 characters
    assert_eq!(chunks[0], "line\n".repeat(9) + "line");
    assert_eq!(chunks[1], "... (480 lines omitted)");
    assert_eq!(chunks[2], "line\n".repeat(10));
}

#[test]
fn split_cuts_overlong_line() {
    let content = "abcdefghij";
    let chunks = split_content(content, 4, 3);
    assert_eq!(chunks, vec!["abcd".to_string()]);
}

#[test]
fn split_of_only_newlines_is_empty() {
    let chunks = split_content("\n\n\n", 2, 3);
    assert!(chunks.is_empty());
}

#[test]
fn split_is_defined_except_single_chunk_with_no_messages() {
    assert!(split_content_ok("short", 100, 0));
    assert!(split_content_ok("aaaa\nbbbb\ncccc", 5, 0));
    assert!(!split_content_ok("aaaaaaaaaa", 5, 0));
    assert!(split_content_ok("aaaaaaaaaa", 5, 1));
}

#[test]
fn code_block_is_defined_unless_the_tag_leaves_no_room() {
    assert!(code_block_ok("hello", "tag", "ts"));
    let long = "x".repeat(3000);
    assert!(code_block_ok(&long, "tag", "2026-03-20 07:15:00"));
    let huge_tag = "t".repeat(1990);
    assert!(!code_block_ok(&long, &huge_tag, "2026-03-20 07:15:00"));
}

#[test]
fn split_messages_rejoin_to_content() {
    let content = "first line\nsecond line\nthird line\nfourth";
    let parts = split_content(content, 12, 5);
    assert_eq!(parts.len(), 4);
    assert_eq!(parts.join("\n"), content);
}

#[test]
fn split_cuts_overlong_line_after_a_chunk() {
    let chunks = split_content("a\nbbbbbbbbbbbb\nc", 5, 3);
    assert_eq!(chunks, vec!["a", "bbbbb", "c"]);
}

#[test]
fn split_keeps_within_one_message() {
    let chunks = split_content("aaaa\nbbbb\ncccc", 5, 1);
    assert_eq!(chunks, vec!["aaaa"]);
}

#[test]
fn split_keeps_within_two_messages() {
    let chunks = split_content("aaaa\nbbbb\ncccc", 5, 2);
    assert_eq!(chunks, vec!["aaaa", "... (2 lines omitted)"]);
}

#[test]
fn split_marker_counts_lines_between_first_and_last() {
    let content = "aaaa\nbbbb\ncccc\ndddd\neeee";
    let chunks = split_content(content, 5, 3);
    assert_eq!(chunks, vec!["aaaa", "... (3 lines omitted)", "eeee"]);
    assert!(content.starts_with(&chunks[0]) && content.ends_with(&chunks[2]));
}

#[test]
fn split_gives_a_message_when_a_line_has_text() {
    let chunks = split_content("\n\nabcdef\n", 2, 1);
    assert_eq!(chunks, vec!["ab"]);
}
