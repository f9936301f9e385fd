//! Accumulation of lines into batches that are flushed by line or character count.

use vstd::prelude::*;
use crate::text::{chars_of, string_of};

verus! {

/// Total number of characters over all `lines`.
pub open spec fn total_chars(lines: Seq<Seq<char>>) -> nat
    decreases lines.len(),
{
    if lines.len() == 0 {
        0
    } else {
        total_chars(lines.drop_last()) + lines.last().len()
    }
}

/// `lines` joined with a newline between consecutive lines.
pub open spec fn join_lines(lines: Seq<Seq<char>>) -> Seq<char>
    decreases lines.len(),
{
    if lines.len() == 0 {
        Seq::empty()
    } else if lines.len() == 1 {
        lines[0]
    } else {
        join_lines(lines.drop_last()) + seq!['\n'] + lines.last()
    }
}

/// What a batch buffer holds: its lines and the two limits it was made with.
pub struct BatchView {
    pub lines: Seq<Seq<char>>,
    pub max_lines: nat,
    pub max_chars: nat,
}

/// A batch is due for flushing once it holds `max_lines` lines or
/// `max_chars` characters.
pub open spec fn flush_due(b: BatchView) -> bool {
    b.lines.len() >= b.max_lines || total_chars(b.lines) >= b.max_chars
}

/// Lines waiting to be sent, with their running character count.
pub struct BatchBuffer {
    lines: Vec<String>,
    char_count: usize,
    max_lines: usize,
    max_chars: usize,
}

impl View for BatchBuffer {
    type V = BatchView;

    closed spec fn view(&self) -> BatchView {
        BatchView {
            lines: self.lines@.map_values(|s: String| s@),
            max_lines: self.max_lines as nat,
            max_chars: self.max_chars as nat,
        }
    }
}

impl BatchBuffer {
    /// The running character count matches the buffered lines.
    pub closed spec fn wf(&self) -> bool {
        self.char_count == total_chars(self@.lines)
    }

    /// An empty batch with the given limits.
    pub fn new(max_lines: usize, max_chars: usize) -> (b: Self)
        ensures
            b.wf(),
            b@.lines == Seq::<Seq<char>>::empty(),
            b@.max_lines == max_lines,
            b@.max_chars == max_chars,
    {
        let b = BatchBuffer { lines: Vec::new(), char_count: 0, max_lines, max_chars };
        assert(b@.lines =~= Seq::<Seq<char>>::empty());
        b
    }

    /// Adds one line; its characters (code points, not bytes) are counted.
    pub fn push_line(&mut self, line: &str)
        requires
            old(self).wf(),
            total_chars(old(self)@.lines) + line@.len() <= usize::MAX,
        ensures
            final(self).wf(),
            final(self)@.lines == old(self)@.lines.push(line@),
            final(self)@.max_lines == old(self)@.max_lines,
            final(self)@.max_chars == old(self)@.max_chars,
    {
        let n = line.unicode_len();
        let owned = line.to_owned();
        self.char_count = self.char_count + n;
        self.lines.push(owned);
        proof {
            let new_lines = self@.lines;
            assert(new_lines =~= old(self)@.lines.push(line@));
            assert(new_lines.drop_last() =~= old(self)@.lines);
        }
    }

    /// `true` once the line limit or the character limit is reached.
    pub fn should_flush(&self) -> (r: bool)
        requires
            self.wf(),
        ensures
            r == flush_due(self@),
    {
        self.lines.len() >= self.max_lines || self.char_count >= self.max_chars
    }

    /// Takes the buffered lines out, joined by newlines, and empties the buffer.
    pub fn drain(&mut self) -> (content: String)
        requires
            old(self).wf(),
        ensures
            content@ == join_lines(old(self)@.lines),
            final(self).wf(),
            final(self)@.lines == Seq::<Seq<char>>::empty(),
            final(self)@.max_lines == old(self)@.max_lines,
            final(self)@.max_chars == old(self)@.max_chars,
    {
        let ghost lines = self@.lines;
        let mut out: Vec<char> = Vec::new();
        let mut i: usize = 0;
        while i < self.lines.len()
            invariant
                i <= self.lines@.len(),
                lines == self.lines@.map_values(|s: String| s@),
                out@ == join_lines(lines.take(i as int)),
            decreases self.lines@.len() - i,
        {
            let ghost before = out@;
            if i > 0 {
                out.push('\n');
            }
            let cs = chars_of(self.lines[i].as_str());
            let mut k: usize = 0;
            while k < cs.len()
                invariant
                    k <= cs@.len(),
                    out@ == (if i > 0 { before + seq!['\n'] } else { before }) + cs@.take(k as int),
                decreases cs@.len() - k,
            {
                out.push(cs[k]);
                k = k + 1;
                assert(out@ =~= (if i > 0 { before + seq!['\n'] } else { before }) + cs@.take(k as int));
            }
            proof {
                assert(cs@.take(cs@.len() as int) =~= cs@);
                assert(lines.take(i + 1).drop_last() =~= lines.take(i as int));
                assert(lines.take(i + 1).last() == lines[i as int]);
                if i == 0 {
                    assert(before =~= Seq::<char>::empty());
                    assert(out@ =~= lines[0]);
                }
            }
            i = i + 1;
        }
        assert(lines.take(lines.len() as int) =~= lines);
        self.lines = Vec::new();
        self.char_count = 0;
        assert(self@.lines =~= Seq::<Seq<char>>::empty());
        string_of(&out)
    }

    /// No line is buffered.
    pub fn is_empty(&self) -> (r: bool)
        ensures
            r == (self@.lines.len() == 0),
    {
        self.lines.len() == 0
    }

    /// Number of lines buffered so far.
    pub fn line_count(&self) -> (r: usize)
        ensures
            r == self@.lines.len(),
    {
        self.lines.len()
    }

    /// Number of characters buffered so far.
    pub fn char_count(&self) -> (r: usize)
        requires
            self.wf(),
        ensures
            r == total_chars(self@.lines),
    {
        self.char_count
    }
}

/// What happens to a batch: a line arrives, time passes (with the
/// milliseconds since the last flush), or the input ends.
pub enum BatchEvent {
    Line(String),
    Tick { since_flush_ms: u64 },
    End,
}

/// What to do after an event: nothing yet, or send this content.
pub enum BatchAction {
    Wait,
    Send(String),
}

/// The batch after `event` and the action it calls for: a line is added, and
/// the batch is sent once it is due (`flush_due`); a tick sends a non-empty
/// batch once `window_ms` milliseconds have passed since the last flush; the
/// end of the input sends what is left.
pub open spec fn batch_step_spec(b: BatchView, event: BatchEvent, window_ms: nat) -> (BatchView, Option<Seq<char>>) {
    let empty = BatchView { lines: Seq::empty(), ..b };
    match event {
        BatchEvent::Line(l) => {
            let pushed = BatchView { lines: b.lines.push(l@), ..b };
            if flush_due(pushed) {
                (empty, Some(join_lines(pushed.lines)))
            } else {
                (pushed, None)
            }
        },
        BatchEvent::Tick { since_flush_ms } => if since_flush_ms >= window_ms && b.lines.len() > 0 {
            (empty, Some(join_lines(b.lines)))
        } else {
            (b, None)
        },
        BatchEvent::End => if b.lines.len() > 0 {
            (empty, Some(join_lines(b.lines)))
        } else {
            (empty, None)
        },
    }
}

/// The text an action sends, if any.
pub open spec fn sent(a: BatchAction) -> Option<Seq<char>> {
    match a {
        BatchAction::Wait => None,
        BatchAction::Send(c) => Some(c@),
    }
}

/// Takes one event into the batch and says whether to send (see
/// `batch_step_spec`).
pub fn batch_step(batch: &mut BatchBuffer, event: BatchEvent, window_ms: u64) -> (a: BatchAction)
    requires
        old(batch).wf(),
        event matches BatchEvent::Line(l) ==> total_chars(old(batch)@.lines) + l@.len() <= usize::MAX,
    ensures
        final(batch).wf(),
        (final(batch)@, sent(a)) == batch_step_spec(old(batch)@, event, window_ms as nat),
{
    let ghost b = batch@;
    match event {
        BatchEvent::Line(l) => {
            batch.push_line(l.as_str());
            if batch.should_flush() {
                let c = batch.drain();
                assert(batch@ == BatchView { lines: Seq::empty(), ..b });
                BatchAction::Send(c)
            } else {
                BatchAction::Wait
            }
        },
        BatchEvent::Tick { since_flush_ms } => {
            if since_flush_ms >= window_ms && !batch.is_empty() {
                let c = batch.drain();
                assert(batch@ == BatchView { lines: Seq::empty(), ..b });
                BatchAction::Send(c)
            } else {
                BatchAction::Wait
            }
        },
        BatchEvent::End => {
            if !batch.is_empty() {
                let c = batch.drain();
                assert(batch@ == BatchView { lines: Seq::empty(), ..b });
                BatchAction::Send(c)
            } else {
                assert(batch@.lines =~= Seq::<Seq<char>>::empty());
                BatchAction::Wait
            }
        },
    }
}

/// The drained text has one newline between each pair of lines: its length is
/// the character count plus the number of lines minus one.
pub proof fn law_drained_length(lines: Seq<Seq<char>>)
    requires
        lines.len() > 0,
    ensures
        join_lines(lines).len() == total_chars(lines) + lines.len() - 1,
    decreases lines.len(),
{
    if lines.len() > 1 {
        law_drained_length(lines.drop_last());
    } else {
        assert(lines.drop_last() =~= Seq::<Seq<char>>::empty());
        assert(total_chars(lines.drop_last()) == 0);
        assert(lines.last() == lines[0]);
    }
}

/// Adding a line never makes a batch that was due for flushing stop being due.
pub proof fn law_push_keeps_flush_due(b: BatchView, line: Seq<char>)
    requires
        flush_due(b),
    ensures
        flush_due(BatchView { lines: b.lines.push(line), ..b }),
{
    assert(b.lines.push(line).drop_last() =~= b.lines);
}

} // verus!
