//! Batching, formatting and filtering of command-line output for Discord webhooks.

pub mod ansi;
pub mod batcher;
pub mod cli;
pub mod format;
pub mod json;
pub mod ndjson;
pub mod reader;
pub mod sender;
pub mod text;
