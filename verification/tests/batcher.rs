use discord_pipe::batcher::{batch_step, BatchAction, BatchBuffer, BatchEvent};

#[test]
fn new_batch_is_empty() {
    let batch = BatchBuffer::new(50, 1800);
    assert!(batch.is_empty());
    assert_eq!(batch.line_count(), 0);
    assert_eq!(batch.char_count(), 0);
}

#[test]
fn push_line_updates_counts() {
    let mut batch = BatchBuffer::new(50, 1800);
    batch.push_line("hello");
    assert_eq!(batch.line_count(), 1);
    assert_eq!(batch.char_count(), 5);
    assert!(!batch.is_empty());
}

#[test]
fn triggers_on_line_count() {
    let mut batch = BatchBuffer::new(3, 1800);
    batch.push_line("a");
    assert!(!batch.should_flush());
    batch.push_line("b");
    assert!(!batch.should_flush());
    batch.push_line("c");
    assert!(batch.should_flush());
}

#[test]
fn triggers_on_char_count() {
    let mut batch = BatchBuffer::new(50, 10);
    batch.push_line("12345678901"); // 11 chars > 10
    assert!(batch.should_flush());
}

#[test]
fn drain_returns_content_and_resets() {
    let mut batch = BatchBuffer::new(50, 1800);
    batch.push_line("hello");
    batch.push_line("world");
    let content = batch.drain();
    assert_eq!(content, "hello\nworld");
    assert!(batch.is_empty());
    assert_eq!(batch.line_count(), 0);
}

#[test]
fn counts_unicode_codepoints_not_bytes() {
    let mut batch = BatchBuffer::new(50, 10);
    batch.push_line("héllo"); // 5 codepoints, but 6 bytes
    assert_eq!(batch.char_count(), 5);
}

#[test]
fn drained_length_is_chars_plus_separators() {
    let mut batch = BatchBuffer::new(50, 1800);
    batch.push_line("ab");
    batch.push_line("");
    batch.push_line("cde");
    let count = batch.char_count();
    let lines = batch.line_count();
    let content = batch.drain();
    assert_eq!(content.chars().count(), count + lines - 1);
    assert_eq!(content, "ab\n\ncde");
    assert_eq!(batch.char_count(), 0);
}

#[test]
fn flush_stays_due_after_more_lines() {
    let mut batch = BatchBuffer::new(2, 1800);
    batch.push_line("x");
    batch.push_line("y");
    assert!(batch.should_flush());
    batch.push_line("z");
    assert!(batch.should_flush());
}

#[test]
fn drain_of_empty_batch_is_empty() {
    let mut batch = BatchBuffer::new(1, 1);
    assert_eq!(batch.drain(), "");
}

#[test]
fn batch_step_sends_when_line_limit_reached() {
    let mut b = BatchBuffer::new(2, 1800);
    assert!(matches!(batch_step(&mut b, BatchEvent::Line("one".to_string()), 2000), BatchAction::Wait));
    match batch_step(&mut b, BatchEvent::Line("two".to_string()), 2000) {
        BatchAction::Send(c) => assert_eq!(c, "one\ntwo"),
        BatchAction::Wait => panic!("expected a send"),
    }
    assert!(b.is_empty());
}

#[test]
fn batch_step_tick_sends_after_window() {
    let mut b = BatchBuffer::new(50, 1800);
    assert!(matches!(batch_step(&mut b, BatchEvent::Tick { since_flush_ms: 5000 }, 2000), BatchAction::Wait));
    batch_step(&mut b, BatchEvent::Line("x".to_string()), 2000);
    assert!(matches!(batch_step(&mut b, BatchEvent::Tick { since_flush_ms: 1999 }, 2000), BatchAction::Wait));
    assert_eq!(b.line_count(), 1);
    match batch_step(&mut b, BatchEvent::Tick { since_flush_ms: 2000 }, 2000) {
        BatchAction::Send(c) => assert_eq!(c, "x"),
        BatchAction::Wait => panic!("expected a send"),
    }
    assert!(b.is_empty());
}

#[test]
fn batch_step_end_sends_the_rest() {
    let mut b = BatchBuffer::new(50, 1800);
    assert!(matches!(batch_step(&mut b, BatchEvent::End, 2000), BatchAction::Wait));
    batch_step(&mut b, BatchEvent::Line("a".to_string()), 2000);
    batch_step(&mut b, BatchEvent::Line("b".to_string()), 2000);
    match batch_step(&mut b, BatchEvent::End, 2000) {
        BatchAction::Send(c) => assert_eq!(c, "a\nb"),
        BatchAction::Wait => panic!("expected a send"),
    }
    assert!(b.is_empty());
}

#[test]
fn drained_content_splits_back_into_lines() {
    let mut b = BatchBuffer::new(50, 1800);
    for l in ["one", "", "three"] {
        b.push_line(l);
    }
    let content = b.drain();
    assert_eq!(content.split('\n').collect::<Vec<_>>(), vec!["one", "", "three"]);
}
