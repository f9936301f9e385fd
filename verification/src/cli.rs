//! Command-line options and the checks made on them before running.

use vstd::prelude::*;
use std::path::PathBuf;
use crate::sender::Format;
use crate::text::{chars_of};

verus! {

#[verifier::external_type_specification]
#[verifier::external_body]
pub struct ExPathBuf(std::path::PathBuf);

/// Output format chosen on the command line.
#[derive(Debug, Clone, Copy, PartialEq, Eq, Structural)]
pub enum CliFormat {
    Code,
    Embed,
}

/// The command-line options.
pub struct Cli {
    pub webhook: String,
    pub tag: String,
    pub follow: Option<PathBuf>,
    pub window_ms: u64,
    pub max_lines: usize,
    pub max_bytes: usize,
    pub max_messages: usize,
    pub format: CliFormat,
    pub username: Option<String>,
    pub no_strip_ansi: bool,
    pub ndjson: bool,
    pub show_tool_calls: bool,
    pub dry_run: bool,
    pub quiet: bool,
}

/// The webhook URL prefixes Discord uses.
pub open spec fn discord_webhook(url: Seq<char>) -> bool {
    "https://discord.com/api/webhooks/"@.is_prefix_of(url) || "https://discordapp.com/api/webhooks/"@.is_prefix_of(url)
}

/// `p` is a prefix of `s`.
fn has_prefix(s: &str, p: &str) -> (r: bool)
    ensures
        r == p@.is_prefix_of(s@),
{
    let sc = chars_of(s);
    let pc = chars_of(p);
    if pc.len() > sc.len() {
        return false;
    }
    let mut i: usize = 0;
    while i < pc.len()
        invariant
            sc@ == s@,
            pc@ == p@,
            pc@.len() <= sc@.len(),
            i <= pc@.len(),
            forall|j: int| 0 <= j < i ==> pc@[j] == sc@[j],
        decreases pc@.len() - i,
    {
        if pc[i] != sc[i] {
            return false;
        }
        i = i + 1;
    }
    true
}

impl Cli {
    /// The webhook URL is accepted: a Discord webhook, or anything in a dry run.
    pub fn webhook_accepted(&self) -> (r: bool)
        ensures
            r == (self.dry_run || discord_webhook(self.webhook@)),
    {
        self.dry_run || has_prefix(self.webhook.as_str(), "https://discord.com/api/webhooks/")
            || has_prefix(self.webhook.as_str(), "https://discordapp.com/api/webhooks/")
    }

    /// The message format the sender uses.
    pub fn sender_format(&self) -> (f: Format)
        ensures
            f == (match self.format {
                CliFormat::Code => Format::Code,
                CliFormat::Embed => Format::Embed,
            }),
    {
        match self.format {
            CliFormat::Code => Format::Code,
            CliFormat::Embed => Format::Embed,
        }
    }
}

} // verus!
