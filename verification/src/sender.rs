//! Rate limiting and webhook payloads.

use vstd::prelude::*;
use std::time::{Duration, Instant};
use crate::format::{
    code_block_defined, embed_model, format_code_block, format_code_block_spec, format_embed, lemma_embed_model_canonical,
    split_content, split_content_defined, split_content_spec, dry_run_bodies, texts,
};
use crate::json::{JsonModel, json_parse, canonical, parse_depth, lemma_set_field_canonical, lemma_canonical_deeper, json_null, json_set, json_str, json_text, parse_json, set_field, to_json_text};
use crate::text::{decimal, decimal_string};

verus! {

// ---------------------------------------------------------------------------
// Time
// ---------------------------------------------------------------------------

#[verifier::external_type_specification]
#[verifier::external_body]
pub struct ExInstant(std::time::Instant);

/// The length of a duration in nanoseconds (what `Duration::as_nanos` returns).
pub uninterp spec fn duration_nanos(d: Duration) -> nat;

/// `Duration::as_nanos`.
#[verifier::external_body]
fn nanos(d: &Duration) -> (n: u128)
    ensures
        n == duration_nanos(*d),
{
    d.as_nanos()
}

/// `Duration::ZERO`, the empty duration.
#[verifier::external_body]
fn zero_duration() -> (d: Duration)
    ensures
        duration_nanos(d) == 0,
{
    Duration::ZERO
}

/// `Duration::saturating_sub`: `a - b`, or zero when `b` is longer.
#[verifier::external_body]
fn duration_saturating_sub(a: Duration, b: Duration) -> (d: Duration)
    ensures
        duration_nanos(d) == if duration_nanos(a) >= duration_nanos(b) {
            (duration_nanos(a) - duration_nanos(b)) as nat
        } else {
            0
        },
{
    a.saturating_sub(b)
}

/// `Instant::now`: the current instant; nothing is known of it.
#[verifier::external_body]
fn instant_now() -> Instant {
    Instant::now()
}

/// `Instant::elapsed`: the time since `i`, which depends on the clock.
#[verifier::external_body]
fn elapsed_since(i: &Instant) -> Duration {
    i.elapsed()
}

/// Seconds since the Unix epoch (`UNIX_EPOCH.elapsed()`, 0 when the clock is
/// before the epoch); depends on the clock.
#[verifier::external_body]
fn epoch_seconds() -> u64 {
    match std::time::UNIX_EPOCH.elapsed() {
        Ok(d) => d.as_secs(),
        Err(_) => 0,
    }
}

// ---------------------------------------------------------------------------
// Token bucket
// ---------------------------------------------------------------------------

/// What taking a token gives: whether one was taken, and the tokens left.
/// With `refilled`, the bucket is full again first.
pub open spec fn acquire_spec(capacity: nat, tokens: nat, refilled: bool) -> (bool, nat) {
    let t = if refilled { capacity } else { tokens };
    if t > 0 {
        (true, (t - 1) as nat)
    } else {
        (false, t)
    }
}

/// A local rate limiter: `capacity` tokens, all given back once
/// `refill_period` has passed since the last refill.
pub struct TokenBucket {
    capacity: u32,
    tokens: u32,
    refill_period: Duration,
    last_refill: Instant,
}

impl TokenBucket {
    /// Tokens of a full bucket.
    pub closed spec fn capacity(&self) -> nat {
        self.capacity as nat
    }

    /// Tokens left.
    pub closed spec fn tokens(&self) -> nat {
        self.tokens as nat
    }

    /// Time after which the bucket is full again.
    pub closed spec fn refill_period(&self) -> Duration {
        self.refill_period
    }

    /// The instant the bucket was last refilled (or synchronised).
    pub closed spec fn last_refill(&self) -> Instant {
        self.last_refill
    }

    /// Never more tokens than the capacity.
    pub open spec fn wf(&self) -> bool {
        self.tokens() <= self.capacity()
    }

    /// A full bucket.
    pub fn new(capacity: u32, refill_period: Duration) -> (b: Self)
        ensures
            b.wf(),
            b.capacity() == capacity,
            b.tokens() == capacity,
            b.refill_period() == refill_period,
    {
        TokenBucket { capacity, tokens: capacity, refill_period, last_refill: instant_now() }
    }

    /// Refills the bucket when `elapsed` (the time since the last refill) has
    /// reached the refill period, then takes a token if there is one.
    pub fn try_acquire_after(&mut self, elapsed: Duration) -> (r: bool)
        requires
            old(self).wf(),
        ensures
            final(self).wf(),
            final(self).capacity() == old(self).capacity(),
            final(self).refill_period() == old(self).refill_period(),
            (r, final(self).tokens()) == acquire_spec(
                old(self).capacity(),
                old(self).tokens(),
                duration_nanos(elapsed) >= duration_nanos(old(self).refill_period()),
            ),
            duration_nanos(elapsed) < duration_nanos(old(self).refill_period()) ==> final(self).last_refill() == old(self).last_refill(),
    {
        if nanos(&elapsed) >= nanos(&self.refill_period) {
            self.tokens = self.capacity;
            self.last_refill = instant_now();
        }
        if self.tokens > 0 {
            self.tokens = self.tokens - 1;
            true
        } else {
            false
        }
    }

    /// Takes a token if one is left, refilling first when the refill period
    /// has passed (which depends on the clock): a bucket with tokens never
    /// refuses.
    pub fn try_acquire(&mut self) -> (r: bool)
        requires
            old(self).wf(),
        ensures
            final(self).wf(),
            final(self).capacity() == old(self).capacity(),
            final(self).refill_period() == old(self).refill_period(),
            (r, final(self).tokens()) == acquire_spec(old(self).capacity(), old(self).tokens(), false)
                || (r, final(self).tokens()) == acquire_spec(old(self).capacity(), old(self).tokens(), true),
            old(self).tokens() > 0 ==> r,
    {
        let elapsed = elapsed_since(&self.last_refill);
        self.try_acquire_after(elapsed)
    }

    /// How long to wait for a token, given the time since the last refill:
    /// zero while tokens are left, otherwise what remains of the refill period.
    pub fn wait_duration_after(&self, elapsed: Duration) -> (d: Duration)
        ensures
            duration_nanos(d) == if self.tokens() > 0 {
                0
            } else if duration_nanos(self.refill_period()) >= duration_nanos(elapsed) {
                (duration_nanos(self.refill_period()) - duration_nanos(elapsed)) as nat
            } else {
                0
            },
    {
        if self.tokens > 0 {
            return zero_duration();
        }
        duration_saturating_sub(self.refill_period, elapsed)
    }

    /// How long to wait for a token (the elapsed time comes from the clock):
    /// zero while tokens are left, never more than the refill period.
    pub fn wait_duration(&self) -> (d: Duration)
        ensures
            self.tokens() > 0 ==> duration_nanos(d) == 0,
            duration_nanos(d) <= duration_nanos(self.refill_period()),
    {
        let elapsed = elapsed_since(&self.last_refill);
        self.wait_duration_after(elapsed)
    }

    /// Takes the state Discord reports at the instant `now`: `remaining`
    /// tokens (at most the capacity) and a refill period of `reset_after`,
    /// counted from `now`, which becomes the last refill.
    pub fn sync_from_headers_at(&mut self, remaining: u32, reset_after: Duration, now: Instant)
        ensures
            final(self).wf(),
            final(self).capacity() == old(self).capacity(),
            final(self).tokens() == if remaining < old(self).capacity() { remaining as nat } else { old(self).capacity() },
            final(self).refill_period() == reset_after,
            final(self).last_refill() == now,
    {
        self.tokens = if remaining < self.capacity { remaining } else { self.capacity };
        self.last_refill = now;
        self.refill_period = reset_after;
    }

    /// Takes the state Discord reports: `remaining` tokens (at most the
    /// capacity) and a refill period of `reset_after`, counted from now (the
    /// clock's current instant becomes the last refill; see
    /// `sync_from_headers_at`).
    pub fn sync_from_headers(&mut self, remaining: u32, reset_after: Duration)
        ensures
            final(self).wf(),
            final(self).capacity() == old(self).capacity(),
            final(self).tokens() == if remaining < old(self).capacity() { remaining as nat } else { old(self).capacity() },
            final(self).refill_period() == reset_after,
    {
        let now = instant_now();
        self.sync_from_headers_at(remaining, reset_after, now);
    }
}

/// A bucket with tokens left always grants one, and one without refill
/// granted `capacity` times in a row is empty and refuses.
pub proof fn law_bucket_drains(capacity: nat, tokens: nat)
    requires
        tokens <= capacity,
    ensures
        tokens > 0 ==> acquire_spec(capacity, tokens, false) == (true, (tokens - 1) as nat),
        acquire_spec(capacity, 0, false) == (false, 0nat),
        capacity > 0 ==> acquire_spec(capacity, tokens, true) == (true, (capacity - 1) as nat),
{
}

/// Taking one token per entry of `refills` in turn, with a refill first
/// where the entry is `true`: whether every take was granted, and the tokens
/// left. `try_acquire` takes one such step, refilling or not by the clock.
pub open spec fn acquire_run(capacity: nat, tokens: nat, refills: Seq<bool>) -> (bool, nat)
    decreases refills.len(),
{
    if refills.len() == 0 {
        (true, tokens)
    } else {
        let step = acquire_spec(capacity, tokens, refills[0]);
        let rest = acquire_run(capacity, step.1, refills.drop_first());
        (step.0 && rest.0, rest.1)
    }
}

/// A bucket holding `k` tokens grants `k` takes in a row, whatever the clock
/// does in between.
pub proof fn law_k_acquires(capacity: nat, tokens: nat, refills: Seq<bool>)
    requires
        tokens <= capacity,
        refills.len() <= tokens,
    ensures
        acquire_run(capacity, tokens, refills).0,
    decreases refills.len(),
{
    if refills.len() > 0 {
        let step = acquire_spec(capacity, tokens, refills[0]);
        law_k_acquires(capacity, step.1, refills.drop_first());
    }
}

// ---------------------------------------------------------------------------
// Payloads
// ---------------------------------------------------------------------------

/// How a batch is shown in Discord.
#[derive(Debug, Clone, Copy, PartialEq, Eq, Structural)]
pub enum Format {
    Code,
    Embed,
}

/// `n` written with at least two digits.
pub open spec fn pad2(n: nat) -> Seq<char> {
    if n < 10 {
        seq!['0'] + decimal(n)
    } else {
        decimal(n)
    }
}

/// The timestamp written for `secs` seconds since the Unix epoch, counting
/// 365-day years and 30-day months: `Y-MM-DD hh:mm:ss`.
pub open spec fn timestamp_text(secs: nat) -> Seq<char> {
    decimal(1970 + secs / 31_536_000) + seq!['-'] + pad2((secs % 31_536_000) / 2_592_000 + 1) + seq!['-']
        + pad2((secs % 2_592_000) / 86400 + 1) + seq![' '] + pad2((secs % 86400) / 3600) + seq![':']
        + pad2((secs % 3600) / 60) + seq![':'] + pad2(secs % 60)
}

fn pad2_string(n: u64) -> (s: String)
    ensures
        s@ == pad2(n as nat),
{
    let d = decimal_string(n);
    if n < 10 {
        let mut s = String::new();
        s.append("0");
        s.append(d.as_str());
        proof {
            reveal_strlit("0");
            assert(s@ =~= seq!['0'] + decimal(n as nat));
        }
        s
    } else {
        d
    }
}

/// The timestamp for `secs` seconds since the Unix epoch (see `timestamp_text`).
pub fn timestamp_from_secs(secs: u64) -> (s: String)
    ensures
        s@ == timestamp_text(secs as nat),
{
    let mut s = decimal_string(1970 + secs / 31_536_000);
    s.append("-");
    s.append(pad2_string((secs % 31_536_000) / 2_592_000 + 1).as_str());
    s.append("-");
    s.append(pad2_string((secs % 2_592_000) / 86400 + 1).as_str());
    s.append(" ");
    s.append(pad2_string((secs % 86400) / 3600).as_str());
    s.append(":");
    s.append(pad2_string((secs % 3600) / 60).as_str());
    s.append(":");
    s.append(pad2_string(secs % 60).as_str());
    proof {
        reveal_strlit("-");
        reveal_strlit(" ");
        reveal_strlit(":");
        assert(s@ =~= timestamp_text(secs as nat));
    }
    s
}

/// The timestamp of the current time (see `timestamp_text`).
pub fn timestamp_now() -> (s: String)
    ensures
        exists|secs: u64| s@ == timestamp_text(secs as nat),
{
    let secs = epoch_seconds();
    timestamp_from_secs(secs)
}

/// The username as a text.
pub open spec fn opt_str(u: Option<&str>) -> Option<Seq<char>> {
    match u {
        Some(n) => Some(n@),
        None => None,
    }
}

/// The JSON value sent for a batch at timestamp `ts`: an object whose
/// `content` is the code-block message, or the embed payload; with
/// `username` set when given.
pub open spec fn payload_model(
    content: Seq<char>,
    tag: Seq<char>,
    format: Format,
    username: Option<Seq<char>>,
    ts: Seq<char>,
) -> JsonModel {
    let base = match format {
        Format::Code => set_field(JsonModel::Null, "content"@, JsonModel::Str(format_code_block_spec(content, tag, ts))),
        Format::Embed => embed_model(content, tag, ts),
    };
    match username {
        Some(n) => set_field(base, "username"@, JsonModel::Str(n)),
        None => base,
    }
}

/// The webhook payload for a batch at timestamp `ts`: the JSON text of
/// `payload_model`.
pub open spec fn payload_spec(
    content: Seq<char>,
    tag: Seq<char>,
    format: Format,
    username: Option<Seq<char>>,
    ts: Seq<char>,
) -> Seq<char> {
    json_text(payload_model(content, tag, format, username, ts))
}

/// The payload value is canonical, so its text parses back to it.
pub proof fn lemma_payload_model_canonical(
    content: Seq<char>,
    tag: Seq<char>,
    format: Format,
    username: Option<Seq<char>>,
    ts: Seq<char>,
)
    ensures
        canonical(payload_model(content, tag, format, username, ts), parse_depth()),
{
    let base = match format {
        Format::Code => set_field(JsonModel::Null, "content"@, JsonModel::Str(format_code_block_spec(content, tag, ts))),
        Format::Embed => embed_model(content, tag, ts),
    };
    match format {
        Format::Code => {
            lemma_set_field_canonical(JsonModel::Null, "content"@, JsonModel::Str(format_code_block_spec(content, tag, ts)), 1);
            lemma_canonical_deeper(base, 1, parse_depth());
        },
        Format::Embed => {
            lemma_embed_model_canonical(content, tag, ts);
        },
    }
    match username {
        Some(n) => {
            lemma_set_field_canonical(base, "username"@, JsonModel::Str(n), parse_depth());
        },
        None => {},
    }
}

/// Inputs on which a payload can be built at any time: a code block that
/// must be cut leaves room for the tag and every possible timestamp.
pub open spec fn payload_defined(content: Seq<char>, tag: Seq<char>, format: Format) -> bool {
    format == Format::Code ==> forall|secs: u64| #[trigger] code_block_defined(content, tag, timestamp_text(secs as nat))
}

/// The webhook payload for a batch at timestamp `ts` (see `payload_spec`).
pub fn webhook_payload_at(
    content: &str,
    tag: &str,
    format: Format,
    username: Option<&str>,
    ts: &str,
) -> (payload: String)
    requires
        format == Format::Code ==> code_block_defined(content@, tag@, ts@),
    ensures
        payload@ == payload_spec(content@, tag@, format, opt_str(username), ts@),
        json_parse(payload@) == Some(payload_model(content@, tag@, format, opt_str(username), ts@)),
{
    proof {
        lemma_payload_model_canonical(content@, tag@, format, opt_str(username), ts@);
    }
    match format {
        Format::Code => {
            let formatted = format_code_block(content, tag, ts);
            let mut payload = json_null();
            json_set(&mut payload, "content", json_str(formatted.as_str()));
            match username {
                Some(name) => json_set(&mut payload, "username", json_str(name)),
                None => {},
            }
            to_json_text(&payload)
        },
        Format::Embed => {
            let text = format_embed(content, tag, ts);
            match username {
                Some(name) => {
                    let mut payload = match parse_json(text.as_str()) {
                        Some(j) => j,
                        None => json_null(),
                    };
                    json_set(&mut payload, "username", json_str(name));
                    to_json_text(&payload)
                },
                None => text,
            }
        },
    }
}

/// The webhook payload for a batch, stamped with the current time.
pub fn build_webhook_payload(content: &str, tag: &str, format: Format, username: Option<&str>) -> (payload: String)
    requires
        payload_defined(content@, tag@, format),
    ensures
        exists|secs: u64| {
            &&& payload@ == payload_spec(content@, tag@, format, opt_str(username), timestamp_text(secs as nat))
            &&& json_parse(payload@) == Some(payload_model(content@, tag@, format, opt_str(username), timestamp_text(secs as nat)))
        },
{
    let secs = epoch_seconds();
    let ts = timestamp_from_secs(secs);
    proof {
        if format == Format::Code {
            assert(code_block_defined(content@, tag@, timestamp_text(secs as nat)));
        }
    }
    webhook_payload_at(content, tag, format, username, ts.as_str())
}

/// `tag [seq/total]`, the tag of one of several messages.
pub open spec fn seq_tag(tag: Seq<char>, seq: nat, total: nat) -> Seq<char> {
    tag + " ["@ + decimal(seq) + "/"@ + decimal(total) + "]"@
}

/// The tag of message `seq` out of `total`.
pub fn seq_tag_string(tag: &str, seq: usize, total: usize) -> (s: String)
    ensures
        s@ == seq_tag(tag@, seq as nat, total as nat),
{
    let mut s = String::new();
    s.append(tag);
    s.append(" [");
    s.append(decimal_string(seq as u64).as_str());
    s.append("/");
    s.append(decimal_string(total as u64).as_str());
    s.append("]");
    assert(s@ =~= seq_tag(tag@, seq as nat, total as nat));
    s
}

/// The payload of message `seq` out of `total` of a split batch: its tag
/// carries the sequence indicator `[seq/total]`.
pub fn build_webhook_payload_seq(
    content: &str,
    tag: &str,
    format: Format,
    username: Option<&str>,
    seq: usize,
    total: usize,
) -> (payload: String)
    requires
        payload_defined(content@, seq_tag(tag@, seq as nat, total as nat), format),
    ensures
        exists|secs: u64| {
            &&& payload@ == payload_spec(
                content@,
                seq_tag(tag@, seq as nat, total as nat),
                format,
                opt_str(username),
                timestamp_text(secs as nat),
            )
            &&& json_parse(payload@) == Some(payload_model(
                content@,
                seq_tag(tag@, seq as nat, total as nat),
                format,
                opt_str(username),
                timestamp_text(secs as nat),
            ))
        },
{
    let t = seq_tag_string(tag, seq, total);
    build_webhook_payload(content, t.as_str(), format, username)
}

/// The tags of the messages a batch is sent as: the tag itself for a single
/// message, otherwise the tag with `[i/count]` for each message in turn.
pub fn message_tags(tag: &str, count: usize) -> (tags: Vec<String>)
    ensures
        tags@.len() == count,
        count == 1 ==> tags@[0]@ == tag@,
        count != 1 ==> forall|i: int| 0 <= i < count ==> #[trigger] tags@[i]@ == seq_tag(tag@, (i + 1) as nat, count as nat),
{
    let mut tags: Vec<String> = Vec::new();
    if count == 1 {
        tags.push(tag.to_owned());
        return tags;
    }
    let mut i: usize = 0;
    while i < count
        invariant
            count != 1,
            i <= count,
            tags@.len() == i,
            forall|j: int| 0 <= j < i ==> #[trigger] tags@[j]@ == seq_tag(tag@, (j + 1) as nat, count as nat),
        decreases count - i,
    {
        tags.push(seq_tag_string(tag, i + 1, count));
        i = i + 1;
    }
    tags
}

// ---------------------------------------------------------------------------
// Delivery
// ---------------------------------------------------------------------------

/// Number of times one payload is posted before giving up.
pub const MAX_ATTEMPTS: u32 = 3;

/// What came back from posting a payload once.
#[derive(Debug, Clone)]
pub enum Reply {
    /// An HTTP answer, with the delay Discord asked to wait (`Retry-After`,
    /// in milliseconds) when it gave one.
    Status { status: u16, retry_after_ms: Option<u64> },
    /// No answer: the request failed on the way.
    Failed(String),
}

/// Why a payload was not delivered.
#[derive(Debug, Clone)]
pub enum SendError {
    /// Still rate limited after the last attempt.
    RateLimited,
    /// Refused with this status; retrying would not help.
    Permanent(u16),
    /// The last attempt ended in a server error with this status.
    Transient(u16),
    /// The last attempt got no answer.
    Network(String),
}

/// What to do after an attempt.
#[derive(Debug, Clone)]
pub enum SendStep {
    /// The payload was accepted.
    Delivered,
    /// Post again after this many milliseconds.
    RetryAfter(u64),
    /// Stop and report the error.
    GiveUp(SendError),
}

/// The status means the payload was accepted.
pub open spec fn is_success(status: u16) -> bool {
    200 <= status <= 299
}

/// Posting again may help: rate limited, a server error, or no answer.
pub open spec fn is_retryable(reply: Reply) -> bool {
    match reply {
        Reply::Status { status, .. } => status == 429 || (500 <= status <= 599),
        Reply::Failed(_) => true,
    }
}

/// Exponential backoff after the given number of attempts: 1 s, 2 s, then 4 s.
pub open spec fn backoff_ms(attempts: nat) -> u64 {
    if attempts <= 1 {
        1000
    } else if attempts == 2 {
        2000
    } else {
        4000
    }
}

/// The error reported when the attempts run out on `reply`.
pub open spec fn final_error(reply: Reply) -> SendError {
    match reply {
        Reply::Status { status, .. } => if status == 429 {
            SendError::RateLimited
        } else if 500 <= status <= 599 {
            SendError::Transient(status)
        } else {
            SendError::Permanent(status)
        },
        Reply::Failed(msg) => SendError::Network(msg),
    }
}

/// The step after `attempts` attempts, the last of which got `reply`:
/// delivered on a 2xx status; given up at once on a status that retrying
/// cannot mend; otherwise retried, after Discord's `Retry-After` for a 429
/// that has one and after the backoff delay for the rest, until
/// `MAX_ATTEMPTS` attempts have been made.
pub open spec fn send_step_spec(attempts: nat, reply: Reply) -> SendStep {
    match reply {
        Reply::Status { status, retry_after_ms } => if is_success(status) {
            SendStep::Delivered
        } else if !is_retryable(reply) {
            SendStep::GiveUp(SendError::Permanent(status))
        } else if attempts >= MAX_ATTEMPTS {
            SendStep::GiveUp(final_error(reply))
        } else {
            match retry_after_ms {
                Some(ms) if status == 429 => SendStep::RetryAfter(ms),
                _ => SendStep::RetryAfter(backoff_ms(attempts)),
            }
        },
        Reply::Failed(msg) => if attempts >= MAX_ATTEMPTS {
            SendStep::GiveUp(SendError::Network(msg))
        } else {
            SendStep::RetryAfter(backoff_ms(attempts))
        },
    }
}

fn backoff(attempts: u32) -> (ms: u64)
    ensures
        ms == backoff_ms(attempts as nat),
{
    if attempts <= 1 {
        1000
    } else if attempts == 2 {
        2000
    } else {
        4000
    }
}

/// Decides what follows an attempt to post a payload (see `send_step_spec`);
/// `attempts` counts the attempts made so far, this one included.
pub fn next_send_step(attempts: u32, reply: Reply) -> (step: SendStep)
    ensures
        step == send_step_spec(attempts as nat, reply),
{
    match reply {
        Reply::Status { status, retry_after_ms } => {
            if 200 <= status && status <= 299 {
                SendStep::Delivered
            } else if !(status == 429 || (500 <= status && status <= 599)) {
                SendStep::GiveUp(SendError::Permanent(status))
            } else if attempts >= MAX_ATTEMPTS {
                if status == 429 {
                    SendStep::GiveUp(SendError::RateLimited)
                } else {
                    SendStep::GiveUp(SendError::Transient(status))
                }
            } else {
                match retry_after_ms {
                    Some(ms) if status == 429 => SendStep::RetryAfter(ms),
                    _ => SendStep::RetryAfter(backoff(attempts)),
                }
            }
        },
        Reply::Failed(msg) => {
            if attempts >= MAX_ATTEMPTS {
                SendStep::GiveUp(SendError::Network(msg))
            } else {
                SendStep::RetryAfter(backoff(attempts))
            }
        },
    }
}

/// A payload is posted at most `MAX_ATTEMPTS` times: no retry follows the
/// last attempt. A 2xx answer always ends the sending, and a status that
/// retrying cannot mend (such as 401 or 404) is never retried.
pub proof fn law_bounded_retries(attempts: nat, reply: Reply)
    ensures
        attempts >= MAX_ATTEMPTS ==> !(send_step_spec(attempts, reply) is RetryAfter),
        reply matches Reply::Status { status, .. } && is_success(status) ==> send_step_spec(attempts, reply) is Delivered,
        !is_retryable(reply) && !(reply matches Reply::Status { status, .. } && is_success(status))
            ==> send_step_spec(attempts, reply) is GiveUp,
{
}

// ---------------------------------------------------------------------------
// Messages of a batch
// ---------------------------------------------------------------------------

/// The messages a batch is sent as, each a body and a tag: the split parts
/// of the batch (the whole batch instead of a single part when
/// `whole_when_single`), tagged with the tag alone for one message and with
/// `[i/n]` added for several.
pub open spec fn message_parts_spec(
    content: Seq<char>,
    tag: Seq<char>,
    max_chars: nat,
    max_messages: nat,
    whole_when_single: bool,
) -> Seq<(Seq<char>, Seq<char>)> {
    let chunks = split_content_spec(content, max_chars, max_messages);
    let n = chunks.len();
    Seq::new(
        n,
        |i: int|
            (
                if whole_when_single && n == 1 { content } else { chunks[i] },
                if n == 1 { tag } else { seq_tag(tag, (i + 1) as nat, n) },
            ),
    )
}

/// The body and tag of each message a batch is sent as (see
/// `message_parts_spec`).
pub fn message_parts(
    content: &str,
    tag: &str,
    max_chars: usize,
    max_messages: usize,
    whole_when_single: bool,
) -> (parts: Vec<(String, String)>)
    requires
        split_content_defined(content@, max_chars as nat, max_messages as nat),
    ensures
        parts@.len() == message_parts_spec(content@, tag@, max_chars as nat, max_messages as nat, whole_when_single).len(),
        forall|i: int| 0 <= i < parts@.len() ==> (#[trigger] parts@[i].0@, parts@[i].1@)
            == message_parts_spec(content@, tag@, max_chars as nat, max_messages as nat, whole_when_single)[i],
{
    let ghost want = message_parts_spec(content@, tag@, max_chars as nat, max_messages as nat, whole_when_single);
    let chunks = split_content(content, max_chars, max_messages);
    let ghost split = texts(chunks@);
    let n = chunks.len();
    let tags = message_tags(tag, n);
    let bodies = if whole_when_single {
        dry_run_bodies(content, chunks)
    } else {
        chunks
    };
    proof {
        assert(texts(bodies@).len() == bodies@.len());
        assert(texts(chunks@).len() == chunks@.len());
        if whole_when_single && n == 1 {
            assert(texts(bodies@)[0] == bodies@[0]@);
        }
        if !(whole_when_single && n == 1) {
            assert forall|k: int| 0 <= k < n implies #[trigger] bodies@[k]@ == split[k] by {
                assert(texts(bodies@)[k] == bodies@[k]@);
            }
        }
    }
    let mut parts: Vec<(String, String)> = Vec::new();
    let mut i: usize = 0;
    while i < n
        invariant
            n == bodies@.len(),
            n == tags@.len(),
            n == want.len(),
            split == split_content_spec(content@, max_chars as nat, max_messages as nat),
            want == message_parts_spec(content@, tag@, max_chars as nat, max_messages as nat, whole_when_single),
            whole_when_single && n == 1 ==> bodies@[0]@ == content@,
            !(whole_when_single && n == 1) ==> forall|k: int| 0 <= k < n ==> #[trigger] bodies@[k]@ == split[k],
            n == 1 ==> tags@[0]@ == tag@,
            n != 1 ==> forall|k: int| 0 <= k < n ==> #[trigger] tags@[k]@ == seq_tag(tag@, (k + 1) as nat, n as nat),
            i <= n,
            parts@.len() == i,
            forall|k: int| 0 <= k < i ==> (#[trigger] parts@[k].0@, parts@[k].1@) == want[k],
        decreases n - i,
    {
        let b = bodies[i].as_str().to_owned();
        let t = tags[i].as_str().to_owned();
        parts.push((b, t));
        proof {
            assert(texts(bodies@).len() == n);
        }
        i = i + 1;
    }
    parts
}

/// The text shown for one message at timestamp `ts`: a code block, or the
/// embed payload.
pub open spec fn message_text(body: Seq<char>, tag: Seq<char>, format: Format, ts: Seq<char>) -> Seq<char> {
    match format {
        Format::Code => format_code_block_spec(body, tag, ts),
        Format::Embed => json_text(embed_model(body, tag, ts)),
    }
}

/// Formats one message in the chosen format (see `message_text`).
pub fn format_message(body: &str, tag: &str, format: Format, ts: &str) -> (text: String)
    requires
        format == Format::Code ==> code_block_defined(body@, tag@, ts@),
    ensures
        text@ == message_text(body@, tag@, format, ts@),
{
    match format {
        Format::Code => format_code_block(body, tag, ts),
        Format::Embed => format_embed(body, tag, ts),
    }
}

} // verus!
