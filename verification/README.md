# discord_pipe

Pipes command-line output to Discord webhooks: lines are read from stdin or a
followed file, optionally stripped of ANSI escape sequences or filtered out of
an agent's NDJSON event stream, batched by line and character count, split into
messages that fit Discord's limits, formatted as code blocks or embeds, and
posted under a token-bucket rate limit with bounded retries.

The library in `src/` is verified with Verus; each public function states what
it returns in its `ensures`, and the laws that relate several functions are
public proof functions named `law_*`.

- `ansi` — removal of ANSI escape sequences.
- `batcher` — the batch buffer, when it is due for flushing, and `batch_step`,
  which decides on each line, clock tick or end of input whether to send.
- `format` — code blocks, embed payloads and overflow splitting.
- `ndjson` — text of NDJSON agent events, line by line and over a stream.
- `reader` — lines of a buffered input.
- `sender` — token bucket, timestamps, webhook payloads and retry decisions.
- `cli` — the command-line options and the webhook URL check.
- `json`, `text` — JSON values through `serde_json` with their models, and
  character helpers.

`app/main.rs` is the program around the library: argument parsing, threads,
stdin and file I/O, the clock that feeds `batch_step`, and posting with `curl`.
