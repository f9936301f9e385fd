use discord_pipe::ansi::strip_ansi;

#[test]
fn strips_simple_color_code() {
    assert_eq!(strip_ansi("\x1b[31mred\x1b[0m"), "red");
}

#[test]
fn strips_bold_and_reset() {
    assert_eq!(strip_ansi("\x1b[1mbold\x1b[0m"), "bold");
}

#[test]
fn preserves_plain_text() {
    assert_eq!(strip_ansi("hello world"), "hello world");
}

#[test]
fn strips_256_color() {
    assert_eq!(strip_ansi("\x1b[38;5;196mred\x1b[0m"), "red");
}

#[test]
fn strips_rgb_color() {
    assert_eq!(strip_ansi("\x1b[38;2;255;0;0mred\x1b[0m"), "red");
}

#[test]
fn strips_cursor_movement() {
    assert_eq!(strip_ansi("\x1b[2J\x1b[Hstart"), "start");
}

#[test]
fn handles_empty_string() {
    assert_eq!(strip_ansi(""), "");
}

#[test]
fn escape_with_other_char_drops_both() {
    assert_eq!(strip_ansi("a\x1bXb"), "ab");
}

#[test]
fn escape_at_end_is_dropped() {
    assert_eq!(strip_ansi("abc\x1b"), "abc");
}

#[test]
fn unterminated_sequence_drops_rest() {
    assert_eq!(strip_ansi("ok\x1b[12;34"), "ok");
}

#[test]
fn stripping_twice_changes_nothing() {
    let once = strip_ansi("\x1b\x1b[31mx\x1b[0m");
    assert_eq!(strip_ansi(&once), once);
    assert!(!once.contains('\x1b'));
}

#[test]
fn one_control_sequence_between_plain_texts_is_removed() {
    assert_eq!(strip_ansi("before\x1b[1;32;40mafter"), "beforeafter");
}

#[test]
fn stripped_text_is_a_subsequence() {
    let input = "a\x1b[0mb\x1bXc\x1b[2Jd";
    let out = strip_ansi(input);
    assert_eq!(out, "abcd");
    let mut rest = input.chars();
    assert!(out.chars().all(|c| rest.any(|d| d == c)));
}
