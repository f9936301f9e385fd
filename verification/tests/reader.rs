use discord_pipe::reader::{line_from_raw, line_from_read, LineReader};
use std::io::Cursor;

fn read_all<R: std::io::BufRead>(mut reader: LineReader<R>) -> Vec<String> {
    let mut lines = Vec::new();
    while let Some(line) = reader.next_line() {
        lines.push(line);
    }
    lines
}

#[test]
fn reads_lines_from_buffered_input() {
    let input = Cursor::new("line1\nline2\nline3\n");
    let reader = LineReader::new(input);
    let lines: Vec<String> = read_all(reader);
    assert_eq!(lines, vec!["line1", "line2", "line3"]);
}

#[test]
fn handles_empty_input() {
    let input = Cursor::new("");
    let reader = LineReader::new(input);
    let lines: Vec<String> = read_all(reader);
    assert!(lines.is_empty());
}

#[test]
fn handles_line_without_trailing_newline() {
    let input = Cursor::new("no newline");
    let reader = LineReader::new(input);
    let lines: Vec<String> = read_all(reader);
    assert_eq!(lines, vec!["no newline"]);
}

#[test]
fn strips_ansi_when_enabled() {
    let input = Cursor::new("\x1b[31mred\x1b[0m\n");
    let reader = LineReader::with_ansi_strip(input, true);
    let lines: Vec<String> = read_all(reader);
    assert_eq!(lines, vec!["red"]);
}

#[test]
fn preserves_ansi_when_disabled() {
    let input = Cursor::new("\x1b[31mred\x1b[0m\n");
    let reader = LineReader::with_ansi_strip(input, false);
    let lines: Vec<String> = read_all(reader);
    assert_eq!(lines, vec!["\x1b[31mred\x1b[0m"]);
}

#[test]
fn crlf_endings_are_removed() {
    let input = Cursor::new("a\r\nb\r\r\n\n");
    let lines = read_all(LineReader::new(input));
    assert_eq!(lines, vec!["a", "b", ""]);
}

#[test]
fn raw_line_keeps_inner_carriage_return() {
    assert_eq!(line_from_raw("x\ry\n", false), "x\ry");
    assert_eq!(line_from_raw("\x1b[1mz\r\n", true), "z");
}

#[test]
fn read_results_become_lines() {
    assert_eq!(line_from_read(None, false), None);
    assert_eq!(line_from_read(Some(String::new()), false), None);
    assert_eq!(line_from_read(Some("abc\r\n".to_string()), false), Some("abc".to_string()));
    assert_eq!(line_from_read(Some("\x1b[1mhi\x1b[0m\n".to_string()), true), Some("hi".to_string()));
    assert_eq!(line_from_read(Some("\n".to_string()), false), Some(String::new()));
}
