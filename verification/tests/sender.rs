use discord_pipe::sender::{
    format_message, message_parts,
    build_webhook_payload, build_webhook_payload_seq, message_tags, timestamp_from_secs, webhook_payload_at,
    next_send_step, Format, Reply, SendError, SendStep, TokenBucket, MAX_ATTEMPTS,
};
use std::time::Duration;

#[test]
fn build_payload_code_block() {
    let payload = build_webhook_payload("hello\nworld", "cargo build", Format::Code, None);
    let parsed: serde_json::Value = serde_json::from_str(&payload).unwrap();
    assert!(parsed["content"].as_str().unwrap().contains("```"));
    assert!(parsed["content"].as_str().unwrap().contains("hello\nworld"));
}

#[test]
fn build_payload_embed() {
    let payload = build_webhook_payload("hello", "tag", Format::Embed, None);
    let parsed: serde_json::Value = serde_json::from_str(&payload).unwrap();
    assert!(parsed["embeds"].is_array());
    assert!(parsed["embeds"][0]["description"]
        .as_str()
        .unwrap()
        .contains("hello"));
}

#[test]
fn build_payload_with_username() {
    let payload = build_webhook_payload("test", "tag", Format::Code, Some("MyBot"));
    let parsed: serde_json::Value = serde_json::from_str(&payload).unwrap();
    assert_eq!(parsed["username"].as_str().unwrap(), "MyBot");
}

#[test]
fn build_payload_sequence_indicator() {
    let payload = build_webhook_payload_seq("content", "tag", Format::Code, None, 2, 3);
    let parsed: serde_json::Value = serde_json::from_str(&payload).unwrap();
    let content = parsed["content"].as_str().unwrap();
    assert!(content.contains("[2/3]"));
}

#[test]
fn new_bucket_has_full_tokens() {
    let mut bucket = TokenBucket::new(5, Duration::from_secs(2));
    assert!(bucket.try_acquire());
}

#[test]
fn bucket_drains_after_capacity() {
    let mut bucket = TokenBucket::new(5, Duration::from_secs(2));
    for _ in 0..5 {
        assert!(bucket.try_acquire());
    }
    assert!(!bucket.try_acquire());
}

#[test]
fn wait_duration_returns_zero_when_available() {
    let bucket = TokenBucket::new(5, Duration::from_secs(2));
    assert_eq!(bucket.wait_duration(), Duration::ZERO);
}

#[test]
fn wait_duration_returns_positive_when_empty() {
    let mut bucket = TokenBucket::new(5, Duration::from_secs(2));
    for _ in 0..5 {
        bucket.try_acquire();
    }
    assert!(bucket.wait_duration() > Duration::ZERO);
}

#[test]
fn sync_from_headers_updates_remaining() {
    let mut bucket = TokenBucket::new(5, Duration::from_secs(2));
    bucket.sync_from_headers(2, Duration::from_secs_f64(1.5));
    assert!(bucket.try_acquire());
    assert!(bucket.try_acquire());
    assert!(!bucket.try_acquire());
}

#[test]
fn sync_caps_remaining_at_capacity() {
    let mut bucket = TokenBucket::new(2, Duration::from_secs(60));
    bucket.sync_from_headers(9, Duration::from_secs(60));
    assert!(bucket.try_acquire());
    assert!(bucket.try_acquire());
    assert!(!bucket.try_acquire());
}

#[test]
fn elapsed_period_refills_bucket() {
    let mut bucket = TokenBucket::new(1, Duration::from_secs(2));
    assert!(bucket.try_acquire_after(Duration::from_secs(0)));
    assert!(!bucket.try_acquire_after(Duration::from_secs(1)));
    assert!(bucket.try_acquire_after(Duration::from_secs(2)));
}

#[test]
fn wait_after_is_rest_of_period() {
    let mut bucket = TokenBucket::new(1, Duration::from_secs(2));
    assert_eq!(bucket.wait_duration_after(Duration::from_secs(1)), Duration::ZERO);
    bucket.try_acquire_after(Duration::ZERO);
    assert_eq!(bucket.wait_duration_after(Duration::from_millis(500)), Duration::from_millis(1500));
    assert_eq!(bucket.wait_duration_after(Duration::from_secs(3)), Duration::ZERO);
}

#[test]
fn timestamp_of_epoch_and_later() {
    assert_eq!(timestamp_from_secs(0), "1970-01-01 00:00:00");
    assert_eq!(timestamp_from_secs(31_536_000 + 2_592_000 + 86_400 + 3_661), "1971-02-07 01:01:01");
}

#[test]
fn payload_at_is_exact() {
    let p = webhook_payload_at("x", "t", Format::Code, Some("bot"), "ts");
    assert_eq!(p, "{\"content\":\"**`[t]`** ts\\n```\\nx\\n```\",\"username\":\"bot\"}");
    let e = webhook_payload_at("x", "t", Format::Embed, Some("bot"), "ts");
    assert_eq!(
        e,
        "{\"embeds\":[{\"color\":3066993,\"description\":\"```\\nx\\n```\",\"title\":\"[t] ts\"}],\"username\":\"bot\"}"
    );
}

#[test]
fn tags_of_split_batches() {
    assert_eq!(message_tags("t", 1), vec!["t".to_string()]);
    assert_eq!(message_tags("t", 2), vec!["t [1/2]".to_string(), "t [2/2]".to_string()]);
}

#[test]
fn delivery_success_is_delivered() {
    let step = next_send_step(1, Reply::Status { status: 204, retry_after_ms: None });
    assert!(matches!(step, SendStep::Delivered));
}

#[test]
fn delivery_rate_limited_waits_retry_after() {
    let step = next_send_step(1, Reply::Status { status: 429, retry_after_ms: Some(100) });
    assert!(matches!(step, SendStep::RetryAfter(100)));
    let step = next_send_step(2, Reply::Status { status: 204, retry_after_ms: None });
    assert!(matches!(step, SendStep::Delivered));
}

#[test]
fn delivery_rate_limited_without_header_backs_off() {
    let step = next_send_step(2, Reply::Status { status: 429, retry_after_ms: None });
    assert!(matches!(step, SendStep::RetryAfter(2000)));
}

#[test]
fn delivery_server_errors_give_up_after_three_attempts() {
    assert!(matches!(next_send_step(1, Reply::Status { status: 500, retry_after_ms: None }), SendStep::RetryAfter(1000)));
    assert!(matches!(next_send_step(2, Reply::Status { status: 502, retry_after_ms: None }), SendStep::RetryAfter(2000)));
    assert!(matches!(
        next_send_step(MAX_ATTEMPTS, Reply::Status { status: 503, retry_after_ms: None }),
        SendStep::GiveUp(SendError::Transient(503))
    ));
}

#[test]
fn delivery_unauthorized_is_not_retried() {
    let step = next_send_step(1, Reply::Status { status: 401, retry_after_ms: None });
    assert!(matches!(step, SendStep::GiveUp(SendError::Permanent(401))));
}

#[test]
fn delivery_rate_limited_to_the_end() {
    let step = next_send_step(3, Reply::Status { status: 429, retry_after_ms: Some(50) });
    assert!(matches!(step, SendStep::GiveUp(SendError::RateLimited)));
}

#[test]
fn delivery_network_failure_retries_then_reports() {
    assert!(matches!(next_send_step(1, Reply::Failed("timeout".to_string())), SendStep::RetryAfter(1000)));
    match next_send_step(3, Reply::Failed("timeout".to_string())) {
        SendStep::GiveUp(SendError::Network(msg)) => assert_eq!(msg, "timeout"),
        other => panic!("unexpected step {other:?}"),
    }
}

#[test]
fn sync_at_sets_tokens_and_period_from_that_instant() {
    let mut bucket = TokenBucket::new(5, Duration::from_secs(2));
    bucket.sync_from_headers_at(1, Duration::from_secs(10), std::time::Instant::now());
    assert!(bucket.try_acquire_after(Duration::from_secs(1)));
    assert!(!bucket.try_acquire_after(Duration::from_secs(9)));
    assert!(bucket.try_acquire_after(Duration::from_secs(10)));
}

#[test]
fn message_parts_tag_each_split_message() {
    let parts = message_parts("aaaa\nbbbb\ncccc", "t", 5, 3, false);
    let want: Vec<(String, String)> = vec![
        ("aaaa".into(), "t [1/3]".into()),
        ("bbbb".into(), "t [2/3]".into()),
        ("cccc".into(), "t [3/3]".into()),
    ];
    assert_eq!(parts, want);
}

#[test]
fn message_parts_whole_batch_when_single() {
    let parts = message_parts("aaaaaaaaaa", "t", 5, 3, true);
    assert_eq!(parts, vec![("aaaaaaaaaa".to_string(), "t".to_string())]);
    let parts = message_parts("aaaaaaaaaa", "t", 5, 3, false);
    assert_eq!(parts, vec![("aaaaa".to_string(), "t".to_string())]);
}

#[test]
fn format_message_picks_the_format() {
    assert_eq!(
        format_message("hi", "t", Format::Code, "ts"),
        discord_pipe::format::format_code_block("hi", "t", "ts")
    );
    assert_eq!(
        format_message("hi", "t", Format::Embed, "ts"),
        discord_pipe::format::format_embed("hi", "t", "ts")
    );
}

#[test]
fn bucket_with_k_tokens_grants_k_takes() {
    let mut bucket = TokenBucket::new(3, Duration::from_secs(2));
    assert!(bucket.try_acquire_after(Duration::from_secs(0)));
    assert!(bucket.try_acquire_after(Duration::from_secs(5)));
    assert!(bucket.try_acquire_after(Duration::from_secs(0)));
}

#[test]
fn payload_parses_back_with_username() {
    let payload = webhook_payload_at("hello", "tag", Format::Embed, Some("Bot"), "ts");
    let parsed: serde_json::Value = serde_json::from_str(&payload).unwrap();
    assert_eq!(parsed["username"], "Bot");
    assert!(parsed["embeds"][0]["description"].as_str().unwrap().contains("hello"));
}
