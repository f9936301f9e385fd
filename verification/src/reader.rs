//! Reading input line by line, with optional ANSI stripping.

use vstd::prelude::*;
use std::io::BufRead;
use crate::ansi::{strip_ansi, strip_ansi_spec, lemma_strip_ansi_keeps_absent};
use crate::text::{chars_of, string_of};

verus! {

/// `s` without all trailing copies of `c` (`str::trim_end_matches(c)`).
pub open spec fn trim_end_char(s: Seq<char>, c: char) -> Seq<char>
    decreases s.len(),
{
    if s.len() > 0 && s.last() == c {
        trim_end_char(s.drop_last(), c)
    } else {
        s
    }
}

/// The line read from the raw text `raw`: trailing newlines, then trailing
/// carriage returns, removed; ANSI escape sequences stripped when `strip`.
pub open spec fn line_text(raw: Seq<char>, strip: bool) -> Seq<char> {
    let t = trim_end_char(trim_end_char(raw, '\n'), '\r');
    if strip {
        strip_ansi_spec(t)
    } else {
        t
    }
}

proof fn lemma_trim_end_char_prefix(s: Seq<char>, c: char)
    ensures
        trim_end_char(s, c).len() <= s.len(),
        trim_end_char(s, c) == s.take(trim_end_char(s, c).len() as int),
    decreases s.len(),
{
    if s.len() > 0 && s.last() == c {
        lemma_trim_end_char_prefix(s.drop_last(), c);
        assert(s.drop_last().take(trim_end_char(s, c).len() as int) =~= s.take(trim_end_char(s, c).len() as int));
    } else {
        assert(s.take(s.len() as int) =~= s);
    }
}

/// Trimming `c` removes only copies of `c` from the end.
proof fn lemma_trim_end_char_removed(s: Seq<char>, c: char)
    ensures
        trim_end_char(s, c).len() <= s.len(),
        forall|i: int| trim_end_char(s, c).len() <= i < s.len() ==> s[i] == c,
    decreases s.len(),
{
    if s.len() > 0 && s.last() == c {
        lemma_trim_end_char_removed(s.drop_last(), c);
        assert forall|i: int| trim_end_char(s, c).len() <= i < s.len() implies s[i] == c by {
            if i < s.len() - 1 {
                assert(s.drop_last()[i] == s[i]);
            }
        }
    }
}

/// A line keeps the raw text's characters from its start on: it is a prefix
/// of the raw text, and only newlines and carriage returns follow it there.
pub proof fn law_line_text_keeps_start(raw: Seq<char>)
    ensures
        line_text(raw, false).is_prefix_of(raw),
        forall|i: int| line_text(raw, false).len() <= i < raw.len() ==> raw[i] == '\n' || raw[i] == '\r',
{
    let t1 = trim_end_char(raw, '\n');
    let t2 = trim_end_char(t1, '\r');
    lemma_trim_end_char_prefix(raw, '\n');
    lemma_trim_end_char_prefix(t1, '\r');
    lemma_trim_end_char_removed(raw, '\n');
    lemma_trim_end_char_removed(t1, '\r');
    assert forall|i: int| 0 <= i < t2.len() implies t2[i] == raw[i] by {
        assert(t2[i] == t1[i]);
    }
    assert forall|i: int| t2.len() <= i < raw.len() implies raw[i] == '\n' || raw[i] == '\r' by {
        if i < t1.len() {
            assert(t1[i] == raw[i]);
        }
    }
}

/// A line made from a read that holds no newline before its last character
/// holds no newline at all.
pub proof fn lemma_line_text_no_newline(raw: Seq<char>, strip: bool)
    requires
        forall|i: int| 0 <= i < raw.len() - 1 ==> raw[i] != '\n',
    ensures
        !line_text(raw, strip).contains('\n'),
{
    let t1 = trim_end_char(raw, '\n');
    let t2 = trim_end_char(t1, '\r');
    lemma_trim_end_char_prefix(raw, '\n');
    lemma_trim_end_char_prefix(t1, '\r');
    lemma_trim_end_char_last(raw, '\n');
    assert forall|i: int| 0 <= i < t2.len() implies t2[i] != '\n' by {
        assert(t2[i] == t1[i]);
        assert(t1[i] == raw[i]);
        if i == t1.len() - 1 {
        } else {
            assert(i < raw.len() - 1);
        }
    }
    if strip {
        lemma_strip_ansi_keeps_absent(t2, '\n');
    }
}

/// Trimming `c` leaves a text that does not end in `c`.
proof fn lemma_trim_end_char_last(s: Seq<char>, c: char)
    ensures
        trim_end_char(s, c).len() > 0 ==> trim_end_char(s, c).last() != c,
    decreases s.len(),
{
    if s.len() > 0 && s.last() == c {
        lemma_trim_end_char_last(s.drop_last(), c);
    }
}

/// `s` without its trailing copies of `c`.
fn trim_end(s: &[char], c: char) -> (r: Vec<char>)
    ensures
        r@ == trim_end_char(s@, c),
{
    let mut end: usize = s.len();
    assert(s@.take(end as int) =~= s@);
    while end > 0 && s[end - 1] == c
        invariant
            end <= s@.len(),
            trim_end_char(s@, c) == trim_end_char(s@.take(end as int), c),
        decreases end,
    {
        assert(s@.take(end as int).drop_last() =~= s@.take(end - 1));
        end = end - 1;
    }
    let mut r: Vec<char> = Vec::new();
    let mut i: usize = 0;
    while i < end
        invariant
            end <= s@.len(),
            i <= end,
            r@ == s@.take(i as int),
        decreases end - i,
    {
        r.push(s[i]);
        i = i + 1;
        assert(r@ =~= s@.take(i as int));
    }
    r
}

/// The line held in the raw text of one read (see `line_text`).
pub fn line_from_raw(raw: &str, strip: bool) -> (line: String)
    ensures
        line@ == line_text(raw@, strip),
{
    let chars = chars_of(raw);
    let a = trim_end(chars.as_slice(), '\n');
    let b = trim_end(a.as_slice(), '\r');
    let t = string_of(b.as_slice());
    if strip {
        strip_ansi(t.as_str())
    } else {
        t
    }
}

/// What one read gives as a line: `None` for a failed read (`None`) or for
/// the empty read at the end of the input; otherwise the line of the raw text
/// (see `line_text`), which holds no newline when the raw text holds none
/// before its last character.
pub fn line_from_read(raw: Option<String>, strip: bool) -> (r: Option<String>)
    ensures
        r is Some <==> (raw matches Some(t) && t@.len() > 0),
        r matches Some(l) ==> l@ == line_text(raw->0@, strip),
        (raw matches Some(t) && forall|i: int| 0 <= i < t@.len() - 1 ==> t@[i] != '\n')
            ==> (r matches Some(l) ==> !l@.contains('\n')),
{
    match raw {
        None => None,
        Some(t) => {
            if t.as_str().unicode_len() == 0 {
                None
            } else {
                let l = line_from_raw(t.as_str(), strip);
                proof {
                    if forall|i: int| 0 <= i < t@.len() - 1 ==> t@[i] != '\n' {
                        lemma_line_text_no_newline(t@, strip);
                    }
                }
                Some(l)
            }
        },
    }
}

/// The text of a read: `None` for a failed read.
pub open spec fn read_text(r: Option<String>) -> Option<Seq<char>> {
    match r {
        Some(s) => Some(s@),
        None => None,
    }
}

/// The line a read gives (see `line_from_read`): nothing for a failed or
/// empty read, otherwise the line of its raw text.
pub open spec fn read_line_spec(raw: Option<Seq<char>>, strip: bool) -> Option<Seq<char>> {
    match raw {
        Some(t) => if t.len() > 0 { Some(line_text(t, strip)) } else { None },
        None => None,
    }
}

/// `BufRead::read_line` on the reader's input into a fresh buffer: the text
/// up to and including the next newline, empty at the end of the input,
/// `None` on a read error. What is read depends on the input; only that it
/// holds no newline before its last character is stated. The result is
/// recorded in the reader's log of reads, and nothing else of the reader
/// changes.
#[verifier::external_body]
fn read_raw_line<R: BufRead>(lr: &mut LineReader<R>) -> (r: Option<String>)
    ensures
        r matches Some(s) ==> forall|i: int| 0 <= i < s@.len() - 1 ==> s@[i] != '\n',
        final(lr).reads() == old(lr).reads().push(read_text(r)),
        final(lr).strips_ansi() == old(lr).strips_ansi(),
{
    let mut buf = String::new();
    let r = match lr.reader.read_line(&mut buf) {
        Ok(_) => Some(buf),
        Err(_) => None,
    };
    lr.reads = Ghost(lr.reads@.push(read_text(r)));
    r
}

/// Lines of a buffered input, optionally with ANSI escape sequences removed.
pub struct LineReader<R> {
    reader: R,
    strip_ansi: bool,
    reads: Ghost<Seq<Option<Seq<char>>>>,
}

impl<R: BufRead> LineReader<R> {
    /// The reader removes ANSI escape sequences from its lines.
    pub closed spec fn strips_ansi(&self) -> bool {
        self.strip_ansi
    }

    /// The texts of the reads made so far, in order (`None` for a failed read).
    pub closed spec fn reads(&self) -> Seq<Option<Seq<char>>> {
        self.reads@
    }

    /// A reader that keeps ANSI escape sequences.
    pub fn new(reader: R) -> (r: Self)
        ensures
            !r.strips_ansi(),
            r.reads() == Seq::<Option<Seq<char>>>::empty(),
    {
        LineReader { reader, strip_ansi: false, reads: Ghost(Seq::empty()) }
    }

    /// A reader that strips ANSI escape sequences when `strip` is set.
    pub fn with_ansi_strip(reader: R, strip: bool) -> (r: Self)
        ensures
            r.strips_ansi() == strip,
            r.reads() == Seq::<Option<Seq<char>>>::empty(),
    {
        LineReader { reader, strip_ansi: strip, reads: Ghost(Seq::empty()) }
    }

    /// The next line, without its line ending (so holding no newline); `None`
    /// at the end of the input or on a read error. It makes one read, and
    /// returns the line of exactly what that read gave (`read_line_spec`);
    /// which text is read depends on the input.
    pub fn next_line(&mut self) -> (r: Option<String>)
        ensures
            final(self).strips_ansi() == old(self).strips_ansi(),
            final(self).reads().len() == old(self).reads().len() + 1,
            final(self).reads().drop_last() == old(self).reads(),
            read_text(r) == read_line_spec(final(self).reads().last(), old(self).strips_ansi()),
            r matches Some(l) ==> !l@.contains('\n') && exists|raw: Seq<char>|
                raw.len() > 0 && l@ == line_text(raw, old(self).strips_ansi()),
    {
        let raw = read_raw_line(self);
        let ghost raw_model = raw;
        let r = line_from_read(raw, self.strip_ansi);
        proof {
            if r is Some {
                assert(raw_model->0@.len() > 0 && r->0@ == line_text(raw_model->0@, self.strip_ansi));
            }
        }
        r
    }
}

} // verus!
