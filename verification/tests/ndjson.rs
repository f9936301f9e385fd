use discord_pipe::ndjson::{parse_ndjson_line, try_parse_ndjson_line, NdjsonFilter};

#[test]
fn extracts_text_from_assistant_message() {
    let line =
        r#"{"type":"assistant","message":{"content":[{"type":"text","text":"Hello world"}]}}"#;
    assert_eq!(
        parse_ndjson_line(line, false),
        Some("Hello world".to_string())
    );
}

#[test]
fn extracts_multiple_text_blocks_from_assistant() {
    let line = r#"{"type":"assistant","message":{"content":[{"type":"text","text":"First"},{"type":"text","text":"Second"}]}}"#;
    assert_eq!(
        parse_ndjson_line(line, false),
        Some("First\nSecond".to_string())
    );
}

#[test]
fn filters_tool_use_by_default() {
    let line = r#"{"type":"tool_use","name":"file_read","input":{"file_path":"src/main.rs"}}"#;
    assert_eq!(parse_ndjson_line(line, false), None);
}

#[test]
fn shows_tool_use_with_wrench_emoji_when_enabled() {
    let line = r#"{"type":"tool_use","name":"file_read","input":{"file_path":"src/main.rs"}}"#;
    let result = parse_ndjson_line(line, true).unwrap();
    assert!(result.starts_with("\u{1f527} file_read("));
    assert!(result.contains("file_path"));
    assert!(result.contains("src/main.rs"));
}

#[test]
fn tool_use_without_input_shows_empty_parens() {
    let line = r#"{"type":"tool_use","name":"list"}"#;
    assert_eq!(
        parse_ndjson_line(line, true),
        Some("\u{1f527} list()".to_string())
    );
}

#[test]
fn filters_tool_result() {
    let line = r#"{"type":"tool_result","content":"some output here"}"#;
    assert_eq!(parse_ndjson_line(line, false), None);
    assert_eq!(parse_ndjson_line(line, true), None);
}

#[test]
fn filters_token_usage_events() {
    let line = r#"{"type":"token_usage","input":100,"output":50}"#;
    assert_eq!(parse_ndjson_line(line, false), None);
    assert_eq!(parse_ndjson_line(line, true), None);
}

#[test]
fn filters_usage_events() {
    let line = r#"{"type":"usage","total_tokens":150}"#;
    assert_eq!(parse_ndjson_line(line, false), None);
}

#[test]
fn filters_stats_events() {
    let line = r#"{"type":"stats","duration_ms":1234}"#;
    assert_eq!(parse_ndjson_line(line, false), None);
}

#[test]
fn filters_system_events() {
    let line = r#"{"type":"system","content":"init"}"#;
    assert_eq!(parse_ndjson_line(line, false), None);
}

#[test]
fn filters_result_events() {
    let line = r#"{"type":"result","content":"done"}"#;
    assert_eq!(parse_ndjson_line(line, false), None);
}

#[test]
fn passes_error_events_through() {
    let line = r#"{"type":"error","content":"something broke"}"#;
    assert_eq!(
        parse_ndjson_line(line, false),
        Some("[error: something broke]".to_string())
    );
}

#[test]
fn error_without_content_shows_unknown() {
    let line = r#"{"type":"error"}"#;
    assert_eq!(
        parse_ndjson_line(line, false),
        Some("[error: unknown error]".to_string())
    );
}

#[test]
fn non_json_lines_pass_through_as_plain_text() {
    let line = "This is just plain text output";
    assert_eq!(
        parse_ndjson_line(line, false),
        Some("This is just plain text output".to_string())
    );
}

#[test]
fn invalid_json_passes_through_as_plain_text() {
    let line = "{not valid json at all";
    assert_eq!(
        parse_ndjson_line(line, false),
        Some("{not valid json at all".to_string())
    );
}

#[test]
fn empty_lines_are_filtered() {
    assert_eq!(parse_ndjson_line("", false), None);
    assert_eq!(parse_ndjson_line("  ", false), None);
    assert_eq!(parse_ndjson_line("\t", false), None);
}

#[test]
fn assistant_with_empty_text_is_filtered() {
    let line = r#"{"type":"assistant","message":{"content":[{"type":"text","text":""}]}}"#;
    assert_eq!(parse_ndjson_line(line, false), None);
}

#[test]
fn assistant_without_message_is_filtered() {
    let line = r#"{"type":"assistant"}"#;
    assert_eq!(parse_ndjson_line(line, false), None);
}

#[test]
fn backward_compat_text_event_with_content_string() {
    let line = r#"{"type":"text","content":"Hello world"}"#;
    assert_eq!(
        parse_ndjson_line(line, false),
        Some("Hello world".to_string())
    );
}

#[test]
fn backward_compat_text_event_with_text_field() {
    let line = r#"{"type":"text","text":"Hello from text field"}"#;
    assert_eq!(
        parse_ndjson_line(line, false),
        Some("Hello from text field".to_string())
    );
}

#[test]
fn backward_compat_tool_call_event() {
    let line = r#"{"type":"tool_call","name":"read","content":"reading file"}"#;
    assert_eq!(parse_ndjson_line(line, false), None);
}

#[test]
fn backward_compat_tool_call_shown_when_enabled() {
    let line = r#"{"type":"tool_call","name":"read"}"#;
    let result = parse_ndjson_line(line, true).unwrap();
    assert!(result.starts_with("\u{1f527} read("));
}

#[test]
fn tool_args_truncated_for_long_strings() {
    let long_path = "a".repeat(100);
    let line =
        format!(r#"{{"type":"tool_use","name":"read","input":{{"file_path":"{long_path}"}}}}"#);
    let result = parse_ndjson_line(&line, true).unwrap();
    assert!(result.contains("..."));
    assert!(result.len() < 200);
}

#[test]
fn tool_args_limits_to_three_keys() {
    let line = r#"{"type":"tool_use","name":"edit","input":{"file_path":"a.rs","old_string":"x","new_string":"y","extra":"z"}}"#;
    let result = parse_ndjson_line(&line, true).unwrap();
    assert!(result.contains("..."));
}

#[test]
fn ndjson_filter_iterator_skips_noise() {
    let lines = vec![
        r#"{"type":"assistant","message":{"content":[{"type":"text","text":"Hello"}]}}"#
            .to_string(),
        r#"{"type":"tool_use","name":"read","input":{"file_path":"x"}}"#.to_string(),
        r#"{"type":"tool_result","content":"file content"}"#.to_string(),
        r#"{"type":"assistant","message":{"content":[{"type":"text","text":"Done"}]}}"#
            .to_string(),
        r#"{"type":"token_usage","input":100}"#.to_string(),
    ];

    let filter = NdjsonFilter::new(lines.into_iter(), false);
    let result: Vec<String> = filter.collect_texts().unwrap();
    assert_eq!(result, vec!["Hello", "Done"]);
}

#[test]
fn ndjson_filter_with_tool_calls_enabled() {
    let lines = vec![
        r#"{"type":"assistant","message":{"content":[{"type":"text","text":"Checking"}]}}"#
            .to_string(),
        r#"{"type":"tool_use","name":"grep","input":{"pattern":"TODO"}}"#.to_string(),
        r#"{"type":"tool_result","content":"found 3"}"#.to_string(),
        r#"{"type":"assistant","message":{"content":[{"type":"text","text":"Found items"}]}}"#
            .to_string(),
    ];

    let filter = NdjsonFilter::new(lines.into_iter(), true);
    let result: Vec<String> = filter.collect_texts().unwrap();
    assert_eq!(result.len(), 3);
    assert_eq!(result[0], "Checking");
    assert!(result[1].contains("grep"));
    assert!(result[1].contains("TODO"));
    assert_eq!(result[2], "Found items");
}

#[test]
fn unknown_json_type_with_content_passes_through() {
    let line = r#"{"type":"custom","content":"hello"}"#;
    assert_eq!(parse_ndjson_line(line, false), Some("hello".to_string()));
}

#[test]
fn no_type_field_with_text_passes_through() {
    let line = r#"{"text":"fallback text"}"#;
    assert_eq!(
        parse_ndjson_line(line, false),
        Some("fallback text".to_string())
    );
}

#[test]
fn no_type_no_content_passes_raw_line() {
    let line = r#"{"foo":"bar"}"#;
    assert_eq!(
        parse_ndjson_line(line, false),
        Some(r#"{"foo":"bar"}"#.to_string())
    );
}

#[test]
fn tool_args_exact_rendering() {
    let line = r#"{"type":"tool_use","name":"edit","input":{"b":1,"a":"x","d":[1,2],"c":null}}"#;
    assert_eq!(
        parse_ndjson_line(line, true),
        Some("\u{1f527} edit({a: \"x\", b: 1, c: null, ...})".to_string())
    );
}

#[test]
fn tool_args_string_input_is_quoted() {
    let line = r#"{"type":"tool_use","name":"run","input":"ls -la"}"#;
    assert_eq!(
        parse_ndjson_line(line, true),
        Some("\u{1f527} run(\"ls -la\")".to_string())
    );
}

#[test]
fn tool_without_name_is_unknown() {
    let line = r#"{"type":"tool_use"}"#;
    assert_eq!(parse_ndjson_line(line, true), Some("\u{1f527} unknown()".to_string()));
}

#[test]
fn long_string_argument_is_cut_at_57_bytes() {
    let line = format!(r#"{{"type":"tool_use","name":"w","input":{{"p":"{}"}}}}"#, "b".repeat(61));
    let expected = format!("\u{1f527} w({{p: \"{}...\"}})", "b".repeat(57));
    assert_eq!(parse_ndjson_line(&line, true), Some(expected));
}

#[test]
fn argument_cut_inside_a_character_is_refused() {
    // 'é' takes two bytes: byte 57 falls inside the 29th character.
    let line = format!(r#"{{"type":"tool_use","name":"w","input":{{"p":"{}"}}}}"#, "é".repeat(40));
    assert_eq!(try_parse_ndjson_line(&line, true), None);
    assert_eq!(try_parse_ndjson_line(&line, false), Some(None));
}

#[test]
fn content_blocks_in_text_event() {
    let line = r#"{"type":"text","content":[{"type":"text","text":"a"},{"type":"image"},{"type":"text","text":"b"}]}"#;
    assert_eq!(parse_ndjson_line(line, false), Some("a\nb".to_string()));
}

#[test]
fn wrongly_typed_field_passes_line_through() {
    let line = r#"{"type":5,"text":"x"}"#;
    assert_eq!(parse_ndjson_line(line, false), Some(line.to_string()));
}

#[test]
fn null_content_falls_back_to_text() {
    let line = r#"{"type":"custom","content":null,"text":"t"}"#;
    assert_eq!(parse_ndjson_line(line, false), Some("t".to_string()));
}

#[test]
fn surrounding_whitespace_is_trimmed() {
    assert_eq!(parse_ndjson_line("  plain \u{3000}", false), Some("plain".to_string()));
}

#[test]
fn filter_reports_unformattable_line() {
    let bad = format!(r#"{{"type":"tool_use","name":"w","input":"{}"}}"#, "é".repeat(50));
    let lines = vec!["one".to_string(), bad.clone(), "two".to_string()];
    let mut filter = NdjsonFilter::new(lines.into_iter(), true);
    assert_eq!(filter.next(), Some(Ok("one".to_string())));
    assert_eq!(filter.next(), Some(Err(bad)));
    assert_eq!(filter.next(), Some(Ok("two".to_string())));
    assert_eq!(filter.next(), None);
}
