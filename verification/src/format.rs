//! Message formatting for Discord: code blocks, embeds and overflow splitting.

use vstd::prelude::*;
use crate::text::{chars_of, decimal, decimal_string, string_of, text_eq, lemma_encode_utf8_len, utf8_len_at_most};
use crate::json::{JsonModel, models, json_parse, json_text, set_field, json_null, json_set, json_str, json_u64, json_array, to_json_text, canonical, parse_depth, lemma_set_field_canonical, lemma_canonical_deeper};
use vstd::utf8::encode_utf8;
use crate::batcher::join_lines;

verus! {

broadcast use vstd::seq_lib::group_seq_properties;

// ---------------------------------------------------------------------------
// Lines and chunks
// ---------------------------------------------------------------------------

/// The pieces of `s` between newlines (`str::split('\n')`): a text with
/// `n` newlines has `n + 1` pieces.
pub open spec fn split_lines(s: Seq<char>) -> Seq<Seq<char>>
    decreases s.len(),
{
    if s.len() == 0 {
        seq![Seq::empty()]
    } else {
        let init = split_lines(s.drop_last());
        if s.last() == '\n' {
            init.push(Seq::empty())
        } else {
            init.drop_last().push(init.last().push(s.last()))
        }
    }
}

/// Number of newline characters in `s`.
pub open spec fn newline_count(s: Seq<char>) -> nat
    decreases s.len(),
{
    if s.len() == 0 {
        0
    } else {
        newline_count(s.drop_last()) + if s.last() == '\n' { 1nat } else { 0nat }
    }
}

/// Number of lines in `s`, as `s.split('\n').count()` counts them.
pub open spec fn line_count(s: Seq<char>) -> nat {
    newline_count(s) + 1
}

/// Sum of `line_count` over `chunks`.
pub open spec fn total_line_count(chunks: Seq<Seq<char>>) -> nat
    decreases chunks.len(),
{
    if chunks.len() == 0 {
        0
    } else {
        total_line_count(chunks.drop_last()) + line_count(chunks.last())
    }
}

/// Chunks finished so far and the chunk being filled.
pub struct ChunkState {
    pub chunks: Seq<Seq<char>>,
    pub current: Seq<char>,
}

/// Adds one line to the chunk being filled, closing that chunk and starting
/// a new one when the line would not fit in `max` characters; a line longer
/// than `max` is cut to `max` characters and becomes a chunk of its own.
pub open spec fn chunk_step(st: ChunkState, line: Seq<char>, max: nat) -> ChunkState {
    let candidate = if st.current.len() == 0 {
        line
    } else {
        st.current + seq!['\n'] + line
    };
    if candidate.len() > max {
        let closed = if st.current.len() != 0 { st.chunks.push(st.current) } else { st.chunks };
        if line.len() > max {
            ChunkState { chunks: closed.push(line.take(max as int)), current: Seq::empty() }
        } else {
            ChunkState { chunks: closed, current: line }
        }
    } else {
        ChunkState { chunks: st.chunks, current: candidate }
    }
}

/// `chunk_step` applied to each of `lines` in turn, from an empty state.
pub open spec fn chunk_fold(lines: Seq<Seq<char>>, max: nat) -> ChunkState
    decreases lines.len(),
{
    if lines.len() == 0 {
        ChunkState { chunks: Seq::empty(), current: Seq::empty() }
    } else {
        chunk_step(chunk_fold(lines.drop_last(), max), lines.last(), max)
    }
}

/// The chunks that `content` is cut into on line boundaries, each meant to
/// fit in `max` characters.
pub open spec fn chunks_of(content: Seq<char>, max: nat) -> Seq<Seq<char>> {
    let st = chunk_fold(split_lines(content), max);
    if st.current.len() != 0 {
        st.chunks.push(st.current)
    } else {
        st.chunks
    }
}

/// The message that stands for the chunks left out in the middle.
pub open spec fn omitted_marker(n: nat) -> Seq<char> {
    "... ("@ + decimal(n) + " lines omitted)"@
}

/// The messages that `content` is sent as: the content itself when it fits
/// in `max_chars`; otherwise its chunks, or, when there are more chunks than
/// `max_messages`, the first chunk, a marker counting the lines left out, and
/// the last chunk, as far as `max_messages` allows: the first chunk alone
/// for one message, the first chunk and the marker for two.
pub open spec fn split_content_spec(content: Seq<char>, max_chars: nat, max_messages: nat) -> Seq<Seq<char>> {
    if content.len() <= max_chars {
        seq![content]
    } else {
        let chunks = chunks_of(content, max_chars);
        if chunks.len() <= max_messages {
            chunks
        } else if max_messages == 1 {
            seq![chunks.first()]
        } else if max_messages == 2 {
            seq![chunks.first(), omitted_marker(total_line_count(chunks.subrange(1, chunks.len() as int)))]
        } else {
            seq![
                chunks.first(),
                omitted_marker(total_line_count(chunks.subrange(1, chunks.len() - 1))),
                chunks.last(),
            ]
        }
    }
}

/// The split replaces some chunks by the marker, which is then its second
/// message.
pub open spec fn split_omits(content: Seq<char>, max_chars: nat, max_messages: nat) -> bool {
    content.len() > max_chars && chunks_of(content, max_chars).len() > max_messages && max_messages != 1
}

/// Inputs on which splitting is defined: it cannot drop the middle of a
/// single chunk (with `max_messages == 0` and one chunk).
pub open spec fn split_content_defined(content: Seq<char>, max_chars: nat, max_messages: nat) -> bool {
    content.len() > max_chars && max_messages == 0 ==> chunks_of(content, max_chars).len() != 1
}

/// The texts of a sequence of strings.
pub open spec fn texts(v: Seq<String>) -> Seq<Seq<char>> {
    v.map_values(|s: String| s@)
}

/// The texts of a sequence of character vectors.
pub open spec fn char_vecs(v: Seq<Vec<char>>) -> Seq<Seq<char>> {
    v.map_values(|s: Vec<char>| s@)
}

// ---------------------------------------------------------------------------
// Lemmas on lines and chunks
// ---------------------------------------------------------------------------

/// A text with `n` newlines splits into `n + 1` pieces.
pub proof fn lemma_split_lines_len(s: Seq<char>)
    ensures
        split_lines(s).len() == newline_count(s) + 1,
    decreases s.len(),
{
    if s.len() > 0 {
        lemma_split_lines_len(s.drop_last());
    }
}

/// No piece of a split holds a newline.
pub proof fn lemma_split_lines_no_newline(s: Seq<char>)
    ensures
        forall|i: int| 0 <= i < split_lines(s).len() ==> newline_count(#[trigger] split_lines(s)[i]) == 0,
    decreases s.len(),
{
    if s.len() > 0 {
        lemma_split_lines_no_newline(s.drop_last());
        lemma_split_lines_len(s.drop_last());
        let init = split_lines(s.drop_last());
        if s.last() == '\n' {
            assert(newline_count(Seq::<char>::empty()) == 0);
        } else {
            let l = init.last();
            assert(l.push(s.last()).drop_last() =~= l);
            assert(newline_count(init[init.len() - 1]) == 0);
        }
    }
}

/// Newlines of a concatenation add up.
pub proof fn lemma_newline_count_add(a: Seq<char>, b: Seq<char>)
    ensures
        newline_count(a + b) == newline_count(a) + newline_count(b),
    decreases b.len(),
{
    if b.len() == 0 {
        assert(a + b =~= a);
    } else {
        lemma_newline_count_add(a, b.drop_last());
        assert((a + b).drop_last() =~= a + b.drop_last());
        assert((a + b).last() == b.last());
    }
}

/// A prefix of a text without newlines has none either.
pub proof fn lemma_newline_count_take(s: Seq<char>, k: int)
    requires
        newline_count(s) == 0,
        0 <= k <= s.len(),
    ensures
        newline_count(s.take(k)) == 0,
{
    lemma_newline_count_add(s.take(k), s.skip(k));
    assert(s.take(k) + s.skip(k) =~= s);
}

/// `s` begins with a newline.
pub open spec fn starts_with_newline(s: Seq<char>) -> bool {
    s.len() > 0 && s[0] == '\n'
}

/// Every piece of `content` between newlines has at most `max` characters.
pub open spec fn all_lines_fit(content: Seq<char>, max: nat) -> bool {
    forall|i: int| 0 <= i < split_lines(content).len() ==> (#[trigger] split_lines(content)[i]).len() <= max
}

/// What stays true while lines are folded into chunks.
pub open spec fn fold_facts(st: ChunkState, lines_done: nat, max: nat) -> bool {
    &&& total_line_count(st.chunks) + (if st.current.len() != 0 { line_count(st.current) } else { 0 }) <= lines_done
    &&& forall|i: int| 0 <= i < st.chunks.len() ==> !starts_with_newline(#[trigger] st.chunks[i])
    &&& !starts_with_newline(st.current)
    &&& forall|i: int| 0 <= i < st.chunks.len() ==> (#[trigger] st.chunks[i]).len() <= max
    &&& st.current.len() <= max
    &&& max > 0 ==> forall|i: int| 0 <= i < st.chunks.len() ==> (#[trigger] st.chunks[i]).len() > 0
}

/// Every line of `lines` has at most `max` characters.
pub open spec fn lines_fit(lines: Seq<Seq<char>>, max: nat) -> bool {
    forall|i: int| 0 <= i < lines.len() ==> (#[trigger] lines[i]).len() <= max
}

/// No line of `lines` holds a newline.
pub open spec fn lines_plain(lines: Seq<Seq<char>>) -> bool {
    forall|i: int| 0 <= i < lines.len() ==> newline_count(#[trigger] lines[i]) == 0
}

/// A text without newlines does not begin with one.
pub proof fn lemma_no_newline_first(s: Seq<char>)
    requires
        newline_count(s) == 0,
    ensures
        !starts_with_newline(s),
{
    if s.len() > 0 {
        lemma_newline_count_add(seq![s[0]], s.drop_first());
        assert(seq![s[0]] + s.drop_first() =~= s);
        assert(seq![s[0]].drop_last() =~= Seq::<char>::empty());
    }
}

/// Folding plain lines into chunks keeps `fold_facts`.
pub proof fn lemma_chunk_fold_facts(lines: Seq<Seq<char>>, max: nat)
    requires
        lines_plain(lines),
    ensures
        fold_facts(chunk_fold(lines, max), lines.len(), max),
    decreases lines.len(),
{
    if lines.len() > 0 {
        let init = lines.drop_last();
        assert(lines_plain(init)) by {
            assert forall|i: int| 0 <= i < init.len() implies newline_count(#[trigger] init[i]) == 0 by {
                assert(init[i] == lines[i]);
            }
        }
        lemma_chunk_fold_facts(init, max);
        let st = chunk_fold(init, max);
        let line = lines.last();
        assert(newline_count(line) == 0);
        lemma_no_newline_first(line);
        let candidate = if st.current.len() == 0 { line } else { st.current + seq!['\n'] + line };
        if st.current.len() != 0 {
            lemma_newline_count_add(st.current + seq!['\n'], line);
            lemma_newline_count_add(st.current, seq!['\n']);
            assert(seq!['\n'].drop_last() =~= Seq::<char>::empty());
            assert(candidate[0] == st.current[0]);
        }
        let next = chunk_step(st, line, max);
        if candidate.len() > max {
            let closed = if st.current.len() != 0 { st.chunks.push(st.current) } else { st.chunks };
            if st.current.len() != 0 {
                assert(closed.drop_last() =~= st.chunks);
            }
            assert(fold_facts(ChunkState { chunks: closed, current: Seq::empty() }, init.len(), max));
            if line.len() > max {
                let cut = line.take(max as int);
                lemma_newline_count_take(line, max as int);
                lemma_no_newline_first(cut);
                assert(next.chunks.drop_last() =~= closed);
                assert(line_count(cut) == 1);
            } else {
                assert(next.chunks == closed);
            }
        }
        assert(chunk_fold(lines, max) == next);
    }
}

/// Folding lines of which one is non-empty, with a positive limit, leaves
/// some chunk or a non-empty chunk being filled.
pub proof fn lemma_chunk_fold_nonempty(lines: Seq<Seq<char>>, max: nat, k: int)
    requires
        max > 0,
        0 <= k < lines.len(),
        lines[k].len() > 0,
    ensures
        chunk_fold(lines, max).chunks.len() > 0 || chunk_fold(lines, max).current.len() > 0,
    decreases lines.len(),
{
    let init = lines.drop_last();
    let line = lines.last();
    let st = chunk_fold(init, max);
    if k < lines.len() - 1 {
        assert(init[k] == lines[k]);
        lemma_chunk_fold_nonempty(init, max, k);
    } else {
        assert(line == lines[k]);
    }
    assert(chunk_fold(lines, max) == chunk_step(st, line, max));
}

/// Line counts of chunks add up over a split of the chunk sequence.
pub proof fn lemma_total_line_count_split(s: Seq<Seq<char>>, k: int)
    requires
        0 <= k <= s.len(),
    ensures
        total_line_count(s) == total_line_count(s.take(k)) + total_line_count(s.skip(k)),
    decreases s.len(),
{
    if s.len() == 0 {
        assert(s.take(k) =~= s);
        assert(s.skip(k) =~= s);
    } else if k == s.len() {
        assert(s.take(k) =~= s);
        assert(s.skip(k) =~= Seq::<Seq<char>>::empty());
    } else {
        lemma_total_line_count_split(s.drop_last(), k);
        assert(s.drop_last().take(k) =~= s.take(k));
        assert(s.skip(k).drop_last() =~= s.drop_last().skip(k));
        assert(s.skip(k).last() == s.last());
    }
}

/// A text has no more newlines than characters.
pub proof fn lemma_newline_count_bound(s: Seq<char>)
    ensures
        newline_count(s) <= s.len(),
    decreases s.len(),
{
    if s.len() > 0 {
        lemma_newline_count_bound(s.drop_last());
    }
}

/// All chunks together have no more lines than the content; none begins
/// with a newline, none exceeds `max` characters, and none is empty when
/// `max` is positive.
pub proof fn lemma_chunks_of_facts(content: Seq<char>, max: nat)
    ensures
        total_line_count(chunks_of(content, max)) <= newline_count(content) + 1,
        forall|i: int| 0 <= i < chunks_of(content, max).len() ==> !starts_with_newline(#[trigger] chunks_of(content, max)[i]),
        forall|i: int| 0 <= i < chunks_of(content, max).len() ==> (#[trigger] chunks_of(content, max)[i]).len() <= max,
        max > 0 ==> forall|i: int| 0 <= i < chunks_of(content, max).len() ==> (#[trigger] chunks_of(content, max)[i]).len() > 0,
{
    let lines = split_lines(content);
    lemma_split_lines_len(content);
    lemma_split_lines_no_newline(content);
    lemma_chunk_fold_facts(lines, max);
    let st = chunk_fold(lines, max);
    if st.current.len() != 0 {
        assert(st.chunks.push(st.current).drop_last() =~= st.chunks);
    }
}

/// Joining the pieces of a split with newlines gives the text back.
pub proof fn lemma_join_split_lines(s: Seq<char>)
    ensures
        join_lines(split_lines(s)) == s,
    decreases s.len(),
{
    if s.len() > 0 {
        let init = split_lines(s.drop_last());
        lemma_join_split_lines(s.drop_last());
        lemma_split_lines_len(s.drop_last());
        let c = s.last();
        if c == '\n' {
            assert(init.push(Seq::<char>::empty()).drop_last() =~= init);
            assert(s =~= s.drop_last() + seq!['\n'] + Seq::<char>::empty());
        } else {
            let r = init.drop_last().push(init.last().push(c));
            if init.len() == 1 {
                assert(r =~= seq![init[0].push(c)]);
                assert(s =~= s.drop_last().push(c));
            } else {
                assert(r.drop_last() =~= init.drop_last());
                assert(join_lines(init) == join_lines(init.drop_last()) + seq!['\n'] + init.last());
                assert(s =~= s.drop_last().push(c));
                assert(join_lines(r) =~= join_lines(init).push(c));
            }
        }
    }
}

/// Appending `"\n" + x` to the last of some lines appends it to their join.
proof fn lemma_join_extend_last(c: Seq<Seq<char>>, a: Seq<char>, x: Seq<char>)
    ensures
        join_lines(c.push(a + seq!['\n'] + x)) == join_lines(c.push(a)) + seq!['\n'] + x,
{
    assert(c.push(a + seq!['\n'] + x).drop_last() =~= c);
    assert(c.push(a).drop_last() =~= c);
    if c.len() == 0 {
        assert(c.push(a + seq!['\n'] + x) =~= seq![a + seq!['\n'] + x]);
        assert(c.push(a) =~= seq![a]);
    } else {
        assert(join_lines(c.push(a + seq!['\n'] + x)) =~= join_lines(c) + seq!['\n'] + (a + seq!['\n'] + x));
    }
}

/// Folding non-empty lines that fit leaves a non-empty chunk being filled,
/// and the chunks followed by it join back to the lines.
proof fn lemma_fold_rejoins(lines: Seq<Seq<char>>, max: nat)
    requires
        lines.len() > 0,
        forall|i: int| 0 <= i < lines.len() ==> (#[trigger] lines[i]).len() > 0,
        forall|i: int| 0 <= i < lines.len() ==> (#[trigger] lines[i]).len() <= max,
    ensures
        chunk_fold(lines, max).current.len() > 0,
        join_lines(chunk_fold(lines, max).chunks.push(chunk_fold(lines, max).current)) == join_lines(lines),
    decreases lines.len(),
{
    let init = lines.drop_last();
    let x = lines.last();
    if lines.len() == 1 {
        assert(init =~= Seq::<Seq<char>>::empty());
        assert(x == lines[0]);
        let st0 = chunk_fold(init, max);
        assert(st0.chunks.len() == 0 && st0.current.len() == 0);
        let st = chunk_fold(lines, max);
        assert(st == chunk_step(st0, x, max));
        assert(st.current == x);
        assert(st.chunks.len() == 0);
        assert(st.chunks.push(st.current) =~= lines);
    } else {
        assert forall|i: int| 0 <= i < init.len() implies (#[trigger] init[i]).len() > 0 && init[i].len() <= max by {
            assert(init[i] == lines[i]);
        }
        lemma_fold_rejoins(init, max);
        let st = chunk_fold(init, max);
        assert(x == lines[lines.len() - 1]);
        assert(x.len() > 0 && x.len() <= max);
        assert(init.push(x) =~= lines);
        let candidate = st.current + seq!['\n'] + x;
        if candidate.len() > max {
            let chunks2 = st.chunks.push(st.current);
            assert(chunks2.push(x).drop_last() =~= chunks2);
        } else {
            lemma_join_extend_last(st.chunks, st.current, x);
        }
    }
}

/// The chunks of a text whose lines are all non-empty and fit join back to it.
pub proof fn lemma_chunks_rejoin(content: Seq<char>, max: nat)
    requires
        forall|i: int| 0 <= i < split_lines(content).len() ==> (#[trigger] split_lines(content)[i]).len() > 0,
        all_lines_fit(content, max),
    ensures
        join_lines(chunks_of(content, max)) == content,
{
    let lines = split_lines(content);
    lemma_split_lines_len(content);
    lemma_fold_rejoins(lines, max);
    lemma_join_split_lines(content);
}

/// When every line is non-empty and fits and no chunk has to be left out,
/// the messages joined with newlines give the content back: the split loses
/// nothing.
pub proof fn law_split_rejoins(content: Seq<char>, max_chars: nat, max_messages: nat)
    requires
        forall|i: int| 0 <= i < split_lines(content).len() ==> (#[trigger] split_lines(content)[i]).len() > 0,
        all_lines_fit(content, max_chars),
        chunks_of(content, max_chars).len() <= max_messages,
    ensures
        join_lines(split_content_spec(content, max_chars, max_messages)) == content,
{
    if content.len() <= max_chars {
        assert(seq![content].len() == 1);
    } else {
        lemma_chunks_rejoin(content, max_chars);
    }
}

/// A text without newlines is a single piece, and appending a newline and
/// such a text adds it as a piece.
proof fn lemma_split_lines_append(s: Seq<char>, t: Seq<char>, first: bool)
    requires
        !t.contains('\n'),
    ensures
        first ==> split_lines(t) == seq![t],
        !first ==> split_lines(s + seq!['\n'] + t) == split_lines(s).push(t),
    decreases t.len(),
{
    let whole = if first { t } else { s + seq!['\n'] + t };
    if t.len() == 0 {
        if first {
            assert(split_lines(t) =~= seq![t]);
        } else {
            assert(whole =~= s.push('\n'));
            assert(whole.drop_last() =~= s);
            assert(t =~= Seq::<char>::empty());
        }
    } else {
        let c = t.last();
        assert(c == t[t.len() - 1]);
        assert(c != '\n');
        assert(!t.drop_last().contains('\n')) by {
            if t.drop_last().contains('\n') {
                let i = choose|i: int| 0 <= i < t.drop_last().len() && t.drop_last()[i] == '\n';
                assert(t[i] == '\n');
            }
        }
        lemma_split_lines_append(s, t.drop_last(), first);
        let prev = if first { t.drop_last() } else { s + seq!['\n'] + t.drop_last() };
        assert(whole.drop_last() =~= prev);
        assert(whole.last() == c);
        assert(t.drop_last().push(c) =~= t);
        if first {
            assert(split_lines(t) =~= seq![t]);
        } else {
            assert(split_lines(whole) =~= split_lines(s).push(t));
        }
    }
}

/// Splitting drained content at newlines gives the lines back, when no line
/// holds a newline.
pub proof fn law_drain_splits_back(lines: Seq<Seq<char>>)
    requires
        lines.len() > 0,
        forall|i: int| 0 <= i < lines.len() ==> !(#[trigger] lines[i]).contains('\n'),
    ensures
        split_lines(join_lines(lines)) == lines,
    decreases lines.len(),
{
    if lines.len() == 1 {
        lemma_split_lines_append(Seq::empty(), lines[0], true);
        assert(seq![lines[0]] =~= lines);
    } else {
        let init = lines.drop_last();
        assert forall|i: int| 0 <= i < init.len() implies !(#[trigger] init[i]).contains('\n') by {
            assert(init[i] == lines[i]);
        }
        law_drain_splits_back(init);
        assert(!lines.last().contains('\n')) by {
            assert(lines.last() == lines[lines.len() - 1]);
        }
        lemma_split_lines_append(join_lines(init), lines.last(), false);
        assert(init.push(lines.last()) =~= lines);
    }
}

/// Joining lines splits at any inner position: the join of the first `k`,
/// a newline, and the join of the rest.
pub proof fn lemma_join_lines_split(c: Seq<Seq<char>>, k: int)
    requires
        1 <= k < c.len(),
    ensures
        join_lines(c) == join_lines(c.take(k)) + seq!['\n'] + join_lines(c.skip(k)),
    decreases c.len(),
{
    if k == c.len() - 1 {
        assert(c.drop_last() =~= c.take(k));
        assert(c.skip(k) =~= seq![c.last()]);
    } else {
        lemma_join_lines_split(c.drop_last(), k);
        assert(c.drop_last().take(k) =~= c.take(k));
        assert(c.skip(k).drop_last() =~= c.drop_last().skip(k));
        assert(c.skip(k).last() == c.last());
        assert(c.skip(k).len() >= 2);
    }
}

/// The lines of a join are the lines of its parts.
pub proof fn lemma_join_line_count(c: Seq<Seq<char>>)
    requires
        c.len() >= 1,
    ensures
        line_count(join_lines(c)) == total_line_count(c),
    decreases c.len(),
{
    if c.len() == 1 {
        assert(c.drop_last() =~= Seq::<Seq<char>>::empty());
        assert(c.last() == c[0]);
        assert(total_line_count(c) == total_line_count(c.drop_last()) + line_count(c.last()));
    } else {
        lemma_join_line_count(c.drop_last());
        let j = join_lines(c.drop_last());
        lemma_newline_count_add(j + seq!['\n'], c.last());
        lemma_newline_count_add(j, seq!['\n']);
        assert(seq!['\n'].drop_last() =~= Seq::<char>::empty());
        assert(newline_count(seq!['\n']) == 1);
        assert(join_lines(c) == j + seq!['\n'] + c.last());
        assert(total_line_count(c) == total_line_count(c.drop_last()) + line_count(c.last()));
    }
}

/// When every line is non-empty and fits and chunks are left out, the three
/// messages are a beginning of the content, the marker counting the lines
/// in between, and an end of the content.
pub proof fn law_split_marker(content: Seq<char>, max_chars: nat, max_messages: nat)
    requires
        forall|i: int| 0 <= i < split_lines(content).len() ==> (#[trigger] split_lines(content)[i]).len() > 0,
        all_lines_fit(content, max_chars),
        content.len() > max_chars,
        max_messages >= 3,
        chunks_of(content, max_chars).len() > max_messages,
    ensures
        ({
            let r = split_content_spec(content, max_chars, max_messages);
            &&& r.len() == 3
            &&& r[0].is_prefix_of(content)
            &&& r[2].is_suffix_of(content)
            &&& r[1] == omitted_marker((line_count(content) - line_count(r[0]) - line_count(r[2])) as nat)
        }),
{
    let c = chunks_of(content, max_chars);
    let len = c.len();
    let r = split_content_spec(content, max_chars, max_messages);
    assert(r == seq![c[0], omitted_marker(total_line_count(c.subrange(1, len - 1))), c.last()]);
    lemma_chunks_rejoin(content, max_chars);
    assert(c[0].is_prefix_of(content)) by {
        lemma_join_lines_split(c, 1);
        assert(c.take(1) =~= seq![c[0]]);
        assert(join_lines(seq![c[0]]) == c[0]);
        assert(content =~= c[0] + (seq!['\n'] + join_lines(c.skip(1))));
    }
    assert(c.last().is_suffix_of(content)) by {
        lemma_join_lines_split(c, len - 1);
        assert(c.skip(len - 1) =~= seq![c.last()]);
        assert(join_lines(seq![c.last()]) == c.last());
        assert(content =~= (join_lines(c.take(len - 1)) + seq!['\n']) + c.last());
    }
    assert(total_line_count(c.subrange(1, len - 1)) == line_count(content) - line_count(c[0]) - line_count(c.last())) by {
        lemma_join_line_count(c);
        lemma_total_line_count_split(c, 1);
        lemma_total_line_count_split(c.skip(1), len - 2);
        assert(c.skip(1).take(len - 2) =~= c.subrange(1, len - 1));
        assert(c.skip(1).skip(len - 2) =~= seq![c.last()]);
        assert(c.take(1) =~= seq![c[0]]);
        assert(seq![c[0]].drop_last() =~= Seq::<Seq<char>>::empty());
        assert(seq![c.last()].drop_last() =~= Seq::<Seq<char>>::empty());
    }
}

// ---------------------------------------------------------------------------
// Code blocks and embeds
// ---------------------------------------------------------------------------

/// Discord's limit on the characters of a message's content.
pub const DISCORD_CONTENT_LIMIT: usize = 2000;

/// Discord's limit on the characters of an embed's description.
pub const DISCORD_EMBED_DESC_LIMIT: usize = 4096;

/// The colour given to every embed.
pub const EMBED_COLOR: u64 = 3066993;

/// The bold tag and timestamp line that heads a code-block message.
pub open spec fn code_header(tag: Seq<char>, ts: Seq<char>) -> Seq<char> {
    "**`["@ + tag + "]`** "@ + ts
}

/// A code-block message: the header, then `body` in a fenced code block.
pub open spec fn code_message(tag: Seq<char>, ts: Seq<char>, body: Seq<char>) -> Seq<char> {
    code_header(tag, ts) + "\n```\n"@ + body + "\n```"@
}

/// Characters of a code-block message other than its content and timestamp.
pub open spec fn code_overhead(tag: Seq<char>) -> nat {
    code_message(tag, Seq::empty(), Seq::empty()).len()
}

/// Number of content characters kept when a code block is cut short.
pub open spec fn code_keep(tag: Seq<char>, ts: Seq<char>) -> int {
    let available = DISCORD_CONTENT_LIMIT - code_overhead(tag) - encode_utf8(ts).len();
    if available >= 4 { available - 4 } else { 0 }
}

/// The first `k` characters of `s` (all of `s` when it is shorter).
pub open spec fn take_at_most(s: Seq<char>, k: int) -> Seq<char> {
    if k < s.len() { s.take(k) } else { s }
}

/// The code-block message for `content`; when it would exceed Discord's
/// limit, the content is cut and followed by `...`.
pub open spec fn format_code_block_spec(content: Seq<char>, tag: Seq<char>, ts: Seq<char>) -> Seq<char> {
    let full = code_message(tag, ts, content);
    if full.len() > DISCORD_CONTENT_LIMIT {
        code_header(tag, ts) + "\n```\n"@ + take_at_most(content, code_keep(tag, ts)) + "...\n```"@
    } else {
        full
    }
}

/// Inputs the code-block formatting is defined on: when the message must be
/// cut, the tag's overhead and the timestamp's bytes fit in the limit.
pub open spec fn code_block_defined(content: Seq<char>, tag: Seq<char>, ts: Seq<char>) -> bool {
    code_message(tag, ts, content).len() > DISCORD_CONTENT_LIMIT
        ==> code_overhead(tag) + encode_utf8(ts).len() <= DISCORD_CONTENT_LIMIT
}

/// Title of an embed.
pub open spec fn embed_title(tag: Seq<char>, ts: Seq<char>) -> Seq<char> {
    "["@ + tag + "] "@ + ts
}

/// Description of an embed: the content in a code block, cut and followed by
/// `...` when it would exceed the description limit.
pub open spec fn embed_description(content: Seq<char>) -> Seq<char> {
    let full = "```\n"@ + content + "\n```"@;
    if full.len() > DISCORD_EMBED_DESC_LIMIT {
        "```\n"@ + take_at_most(content, DISCORD_EMBED_DESC_LIMIT - 8 - 3) + "...\n```"@
    } else {
        full
    }
}

/// The embed payload: `{"embeds": [{"title", "description", "color"}]}`,
/// each entry set into its object in that order.
pub open spec fn embed_model(content: Seq<char>, tag: Seq<char>, ts: Seq<char>) -> JsonModel {
    let embed = set_field(
        set_field(
            set_field(JsonModel::Null, "title"@, JsonModel::Str(embed_title(tag, ts))),
            "description"@,
            JsonModel::Str(embed_description(content)),
        ),
        "color"@,
        JsonModel::Number(decimal(EMBED_COLOR as nat)),
    );
    set_field(JsonModel::Null, "embeds"@, JsonModel::Array(seq![embed]))
}

/// Formatting overhead of a format, as `overhead_chars` reports it.
pub open spec fn overhead_spec(tag: Seq<char>, format: Seq<char>) -> int {
    if format == "code"@ {
        code_overhead(tag) as int
    } else if format == "embed"@ {
        (encode_utf8(json_text(embed_model(Seq::empty(), tag, Seq::empty()))).len() as usize) as int
    } else {
        0
    }
}

/// `"**`[" + tag + "]`** " + ts`.
fn code_header_string(tag: &str, ts: &str) -> (s: String)
    ensures
        s@ == code_header(tag@, ts@),
{
    let mut s = String::new();
    s.append("**`[");
    s.append(tag);
    s.append("]`** ");
    s.append(ts);
    assert(s@ =~= code_header(tag@, ts@));
    s
}

/// Characters of formatting that a message of the given format adds besides
/// its content and timestamp: for `"code"` the code-block template; for
/// `"embed"` the bytes of the embed payload of empty content; 0 otherwise.
pub fn overhead_chars(tag: &str, format: &str) -> (n: usize)
    ensures
        n as int == overhead_spec(tag@, format@),
        format@ == "embed"@ ==> n > 0,
        format@ == "code"@ ==> n == tag@.len() + 18,
{
    if text_eq(format, "code") {
        let mut t = code_header_string(tag, "");
        t.append("\n```\n");
        t.append("\n```");
        proof {
            reveal_strlit("");
            reveal_strlit("code");
            reveal_strlit("embed");
            assert("code"@[0] != "embed"@[0]);
            reveal_strlit("**`[");
            reveal_strlit("]`** ");
            reveal_strlit("\n```\n");
            reveal_strlit("\n```");
            assert(t@ =~= code_message(tag@, Seq::empty(), Seq::empty()));
        }
        t.unicode_len()
    } else if text_eq(format, "embed") {
        let sample = format_embed("", tag, "");
        proof {
            reveal_strlit("");
            assert(""@ =~= Seq::<char>::empty());
            lemma_encode_utf8_len(sample@);
        }
        sample.as_str().len()
    } else {
        0
    }
}

/// Formats `content` as a Discord code block under a bold tag and timestamp
/// header, cutting the content short when the message would exceed 2000
/// characters.
pub fn format_code_block(content: &str, tag: &str, timestamp: &str) -> (msg: String)
    requires
        code_block_defined(content@, tag@, timestamp@),
    ensures
        msg@ == format_code_block_spec(content@, tag@, timestamp@),
{
    let header = code_header_string(tag, timestamp);
    let mut full = header.clone();
    full.append("\n```\n");
    full.append(content);
    full.append("\n```");
    assert(full@ =~= code_message(tag@, timestamp@, content@));
    if full.unicode_len() > DISCORD_CONTENT_LIMIT {
        let overhead = overhead_chars(tag, "code");
        let ts_bytes = timestamp.len();
        let available = DISCORD_CONTENT_LIMIT - overhead - ts_bytes;
        let keep = if available >= 4 { available - 4 } else { 0 };
        let chars = chars_of(content);
        let kept = take_chars(chars.as_slice(), keep);
        let truncated = string_of(kept.as_slice());
        let mut msg = header;
        msg.append("\n```\n");
        msg.append(truncated.as_str());
        msg.append("...\n```");
        assert(msg@ =~= format_code_block_spec(content@, tag@, timestamp@));
        msg
    } else {
        full
    }
}

/// Whether `format_code_block` is defined on these arguments: a message cut
/// short must leave room for its template and timestamp.
pub fn code_block_ok(content: &str, tag: &str, timestamp: &str) -> (r: bool)
    ensures
        r == code_block_defined(content@, tag@, timestamp@),
{
    let mut full = code_header_string(tag, timestamp);
    full.append("\n```\n");
    full.append(content);
    full.append("\n```");
    assert(full@ =~= code_message(tag@, timestamp@, content@));
    if full.unicode_len() > DISCORD_CONTENT_LIMIT {
        let overhead = overhead_chars(tag, "code");
        proof {
            reveal_strlit("code");
        }
        overhead <= DISCORD_CONTENT_LIMIT && utf8_len_at_most(timestamp, DISCORD_CONTENT_LIMIT - overhead)
    } else {
        true
    }
}

/// `"```\n" + text + tail`.
fn fenced(text: &str, tail: &str) -> (s: String)
    ensures
        s@ == "```\n"@ + text@ + tail@,
{
    let mut s = String::new();
    s.append("```\n");
    s.append(text);
    s.append(tail);
    s
}

/// The embed payload is a canonical JSON value, three levels deep.
pub proof fn lemma_embed_model_canonical(content: Seq<char>, tag: Seq<char>, ts: Seq<char>)
    ensures
        canonical(embed_model(content, tag, ts), parse_depth()),
{
    let e1 = set_field(JsonModel::Null, "title"@, JsonModel::Str(embed_title(tag, ts)));
    lemma_set_field_canonical(JsonModel::Null, "title"@, JsonModel::Str(embed_title(tag, ts)), 1);
    let e2 = set_field(e1, "description"@, JsonModel::Str(embed_description(content)));
    lemma_set_field_canonical(e1, "description"@, JsonModel::Str(embed_description(content)), 1);
    let color = JsonModel::Number(decimal(EMBED_COLOR as nat));
    assert(canonical(color, 0)) by {
        let n: u64 = EMBED_COLOR;
        assert(decimal(EMBED_COLOR as nat) == decimal(n as nat));
    }
    let e3 = set_field(e2, "color"@, color);
    lemma_set_field_canonical(e2, "color"@, color, 1);
    let arr = JsonModel::Array(seq![e3]);
    assert(canonical(arr, 2)) by {
        assert(seq![e3][0] == e3);
    }
    lemma_set_field_canonical(JsonModel::Null, "embeds"@, arr, 3);
    lemma_canonical_deeper(embed_model(content, tag, ts), 3, parse_depth());
}

/// Formats `content` as the JSON payload of a Discord embed, titled with the
/// tag and timestamp, its description cut short past 4096 characters.
pub fn format_embed(content: &str, tag: &str, timestamp: &str) -> (payload: String)
    ensures
        payload@ == json_text(embed_model(content@, tag@, timestamp@)),
        json_parse(payload@) == Some(embed_model(content@, tag@, timestamp@)),
        payload@.len() > 0,
        encode_utf8(payload@).len() <= usize::MAX,
{
    proof {
        lemma_embed_model_canonical(content@, tag@, timestamp@);
    }
    let mut title = String::new();
    title.append("[");
    title.append(tag);
    title.append("] ");
    title.append(timestamp);
    let full = fenced(content, "\n```");
    let description = if full.unicode_len() > DISCORD_EMBED_DESC_LIMIT {
        let available = DISCORD_EMBED_DESC_LIMIT - 8;
        let chars = chars_of(content);
        let kept = take_chars(chars.as_slice(), available - 3);
        let truncated = string_of(kept.as_slice());
        fenced(truncated.as_str(), "...\n```")
    } else {
        full
    };
    assert(description@ == embed_description(content@));
    let mut embed = json_null();
    json_set(&mut embed, "title", json_str(title.as_str()));
    json_set(&mut embed, "description", json_str(description.as_str()));
    json_set(&mut embed, "color", json_u64(EMBED_COLOR));
    let ghost embed_m = embed@;
    let mut items = Vec::new();
    items.push(embed);
    assert(models(items@) =~= seq![embed_m]);
    let embeds = json_array(items);
    let mut payload = json_null();
    json_set(&mut payload, "embeds", embeds);
    assert(title@ =~= embed_title(tag@, timestamp@));
    to_json_text(&payload)
}

/// A code-block message stays within Discord's 2000-character limit whenever
/// the tag, the timestamp and the `...` marker leave room for it.
pub proof fn law_code_block_fits(content: Seq<char>, tag: Seq<char>, ts: Seq<char>)
    requires
        code_overhead(tag) + encode_utf8(ts).len() + 4 <= DISCORD_CONTENT_LIMIT,
    ensures
        format_code_block_spec(content, tag, ts).len() <= DISCORD_CONTENT_LIMIT,
{
    reveal_strlit("**`[");
    reveal_strlit("]`** ");
    reveal_strlit("\n```\n");
    reveal_strlit("\n```");
    reveal_strlit("...\n```");
    lemma_encode_utf8_len(ts);
}

/// A code-block message of empty content that fits is exactly the overhead
/// `overhead_chars` reports plus the timestamp's characters.
pub proof fn law_overhead_matches_code_block(tag: Seq<char>, ts: Seq<char>)
    requires
        code_message(tag, ts, Seq::empty()).len() <= DISCORD_CONTENT_LIMIT,
    ensures
        format_code_block_spec(Seq::empty(), tag, ts).len() == code_overhead(tag) + ts.len(),
{
}

/// A code-block message that fits is the whole message; one that does not
/// keeps the beginning of the content: its first `code_keep` characters (all
/// of them when fewer), followed by `...`.
pub proof fn law_code_block_keeps_prefix(content: Seq<char>, tag: Seq<char>, ts: Seq<char>)
    ensures
        code_message(tag, ts, content).len() <= DISCORD_CONTENT_LIMIT ==> format_code_block_spec(content, tag, ts)
            == code_header(tag, ts) + "\n```\n"@ + content + "\n```"@,
        code_message(tag, ts, content).len() > DISCORD_CONTENT_LIMIT ==> exists|p: Seq<char>|
            #![trigger p.is_prefix_of(content)]
            p.is_prefix_of(content)
            && p.len() == (if code_keep(tag, ts) < content.len() { code_keep(tag, ts) } else { content.len() as int })
            && format_code_block_spec(content, tag, ts) == code_header(tag, ts) + "\n```\n"@ + p + "...\n```"@,
{
    if code_message(tag, ts, content).len() > DISCORD_CONTENT_LIMIT {
        let k = code_keep(tag, ts);
        assert(k >= 0);
        let p = take_at_most(content, k);
        assert(p.is_prefix_of(content)) by {
            if k < content.len() {
                assert(p =~= content.take(k));
            } else {
                assert(content.take(content.len() as int) =~= content);
            }
        }
    }
}

/// An embed description that fits holds the whole content; one that does
/// not keeps the beginning of the content: its first 4085 characters,
/// followed by `...`.
pub proof fn law_embed_description_keeps_prefix(content: Seq<char>)
    ensures
        ("```\n"@ + content + "\n```"@).len() <= DISCORD_EMBED_DESC_LIMIT ==> embed_description(content) == "```\n"@ + content + "\n```"@,
        ("```\n"@ + content + "\n```"@).len() > DISCORD_EMBED_DESC_LIMIT ==> exists|p: Seq<char>|
            #![trigger p.is_prefix_of(content)]
            p.is_prefix_of(content) && p.len() == 4085
            && embed_description(content) == "```\n"@ + p + "...\n```"@,
{
    reveal_strlit("```\n");
    reveal_strlit("\n```");
    if ("```\n"@ + content + "\n```"@).len() > DISCORD_EMBED_DESC_LIMIT {
        let p = take_at_most(content, 4085);
        assert(content.len() > 4085);
        assert(p =~= content.take(4085));
        assert(p.is_prefix_of(content));
    }
}

/// An embed description never exceeds Discord's 4096-character limit when the
/// content is cut, and equals the fenced content otherwise.
pub proof fn law_embed_description_fits(content: Seq<char>)
    ensures
        embed_description(content).len() <= DISCORD_EMBED_DESC_LIMIT,
{
    reveal_strlit("```\n");
    reveal_strlit("\n```");
    reveal_strlit("...\n```");
}

// ---------------------------------------------------------------------------
// Splitting, executable
// ---------------------------------------------------------------------------

/// Appends the characters of `src` to `dst`.
fn append_chars(dst: &mut Vec<char>, src: &[char])
    ensures
        final(dst)@ == old(dst)@ + src@,
{
    let mut i: usize = 0;
    while i < src.len()
        invariant
            i <= src@.len(),
            dst@ == old(dst)@ + src@.take(i as int),
        decreases src@.len() - i,
    {
        dst.push(src[i]);
        i = i + 1;
        assert(dst@ =~= old(dst)@ + src@.take(i as int));
    }
    assert(src@.take(src@.len() as int) =~= src@);
}

/// The first `k` characters of `src` (all of them when it is shorter).
fn take_chars(src: &[char], k: usize) -> (r: Vec<char>)
    ensures
        r@ == src@.take(if k < src@.len() { k as int } else { src@.len() as int }),
{
    let end = if k < src.len() { k } else { src.len() };
    let mut r: Vec<char> = Vec::new();
    let mut i: usize = 0;
    while i < end
        invariant
            end <= src@.len(),
            i <= end,
            r@ == src@.take(i as int),
        decreases end - i,
    {
        r.push(src[i]);
        i = i + 1;
        assert(r@ =~= src@.take(i as int));
    }
    r
}

/// One step of the chunking: `line` is added to the chunk being filled.
fn chunk_step_exec(chunks: &mut Vec<Vec<char>>, current: &mut Vec<char>, line: &Vec<char>, max: usize)
    requires
        old(current)@.len() + (if old(current)@.len() > 0 { 1int } else { 0int }) + line@.len() <= usize::MAX,
    ensures
        (ChunkState { chunks: char_vecs(final(chunks)@), current: final(current)@ }) == chunk_step(
            ChunkState { chunks: char_vecs(old(chunks)@), current: old(current)@ },
            line@,
            max as nat,
        ),
{
    let ghost st = ChunkState { chunks: char_vecs(chunks@), current: current@ };
    let cand_len = if current.len() == 0 { line.len() } else { current.len() + 1 + line.len() };
    if cand_len > max {
        if current.len() != 0 {
            let mut done: Vec<char> = Vec::new();
            std::mem::swap(current, &mut done);
            assert(done@ == st.current);
            chunks.push(done);
            assert(char_vecs(chunks@) =~= st.chunks.push(st.current));
        }
        let ghost closed = char_vecs(chunks@);
        assert(current@.len() == 0);
        if line.len() > max {
            let cut = take_chars(line.as_slice(), max);
            chunks.push(cut);
            assert(char_vecs(chunks@) =~= closed.push(line@.take(max as int)));
        } else {
            append_chars(current, line.as_slice());
            assert(current@ =~= line@);
        }
    } else {
        if current.len() != 0 {
            current.push('\n');
        }
        append_chars(current, line.as_slice());
        assert(current@ =~= (if st.current.len() == 0 { line@ } else { st.current + seq!['\n'] + line@ }));
    }
}

/// `line_count` of a chunk: its newlines plus one.
fn count_lines(v: &Vec<char>) -> (r: usize)
    requires
        line_count(v@) <= usize::MAX,
    ensures
        r == line_count(v@),
{
    let mut count: usize = 0;
    let mut i: usize = 0;
    while i < v.len()
        invariant
            i <= v@.len(),
            count == newline_count(v@.take(i as int)),
            newline_count(v@) + 1 <= usize::MAX,
        decreases v@.len() - i,
    {
        proof {
            assert(v@.take(i + 1).drop_last() =~= v@.take(i as int));
            lemma_newline_count_add(v@.take(i + 1), v@.skip(i + 1));
            assert(v@.take(i + 1) + v@.skip(i + 1) =~= v@);
        }
        if v[i] == '\n' {
            count = count + 1;
        }
        i = i + 1;
    }
    assert(v@.take(v@.len() as int) =~= v@);
    count + 1
}

/// The texts of `chunks` as strings.
fn strings_of(chunks: &Vec<Vec<char>>) -> (r: Vec<String>)
    ensures
        texts(r@) == char_vecs(chunks@),
{
    let mut r: Vec<String> = Vec::new();
    let mut i: usize = 0;
    while i < chunks.len()
        invariant
            i <= chunks@.len(),
            r@.len() == i,
            texts(r@) == char_vecs(chunks@).take(i as int),
        decreases chunks@.len() - i,
    {
        let ghost old_r = r@;
        let t = string_of(chunks[i].as_slice());
        r.push(t);
        proof {
            assert forall|j: int| 0 <= j < i + 1 implies #[trigger] texts(r@)[j] == char_vecs(chunks@)[j] by {
                if j < i {
                    assert(r@[j] == old_r[j]);
                    assert(texts(old_r)[j] == char_vecs(chunks@).take(i as int)[j]);
                }
            }
        }
        i = i + 1;
        assert(texts(r@) =~= char_vecs(chunks@).take(i as int));
    }
    assert(char_vecs(chunks@).take(chunks@.len() as int) =~= char_vecs(chunks@));
    r
}

/// The marker for `n` lines left out.
fn omitted_marker_string(n: usize) -> (s: String)
    ensures
        s@ == omitted_marker(n as nat),
{
    let mut s = String::new();
    s.append("... (");
    let digits = decimal_string(n as u64);
    s.append(digits.as_str());
    s.append(" lines omitted)");
    s
}

/// Splitting a text extended by one character.
proof fn lemma_split_lines_push(s: Seq<char>, c: char)
    ensures
        c == '\n' ==> split_lines(s.push(c)).drop_last() == split_lines(s),
        c == '\n' ==> split_lines(s.push(c)).last() == Seq::<char>::empty(),
        c != '\n' ==> split_lines(s.push(c)).drop_last() == split_lines(s).drop_last(),
        c != '\n' ==> split_lines(s.push(c)).last() == split_lines(s).last().push(c),
{
    assert(s.push(c).drop_last() =~= s);
    assert(s.push(c).last() == c);
    lemma_split_lines_len(s);
}

/// Folding all lines is folding all but the last, then stepping with the last.
proof fn lemma_fold_last(lines: Seq<Seq<char>>, max: nat)
    requires
        lines.len() > 0,
    ensures
        chunk_fold(lines, max) == chunk_step(chunk_fold(lines.drop_last(), max), lines.last(), max),
        lines.drop_last().push(lines.last()) == lines,
{
    assert(lines.drop_last().push(lines.last()) =~= lines);
}

/// The chunks of a text, as `chunks_of` describes them.
#[verifier::rlimit(60)]
#[verifier::spinoff_prover]
fn chunk_chars(chars: &Vec<char>, max_chars: usize) -> (chunks: Vec<Vec<char>>)
    ensures
        char_vecs(chunks@) == chunks_of(chars@, max_chars as nat),
{
    let n = chars.len();
    let ghost text = chars@;
    let mut chunks: Vec<Vec<char>> = Vec::new();
    let mut current: Vec<char> = Vec::new();
    let mut line: Vec<char> = Vec::new();
    let mut i: usize = 0;
    proof {
        assert(text.take(0) =~= Seq::<char>::empty());
        assert(split_lines(text.take(0)).drop_last() =~= Seq::<Seq<char>>::empty());
        assert(char_vecs(chunks@) =~= Seq::<Seq<char>>::empty());
    }
    while i < n
        invariant
            n == text.len(),
            text == chars@,
            i <= n,
            (ChunkState { chunks: char_vecs(chunks@), current: current@ }) == chunk_fold(
                split_lines(text.take(i as int)).drop_last(),
                max_chars as nat,
            ),
            line@ == split_lines(text.take(i as int)).last(),
            current@.len() + (if current@.len() > 0 { 1int } else { 0int }) + line@.len() <= i,
        decreases n - i,
    {
        let c = chars[i];
        let ghost prefix = text.take(i as int);
        proof {
            assert(text.take(i + 1) =~= prefix.push(c));
            lemma_split_lines_push(prefix, c);
        }
        if c == '\n' {
            proof {
                lemma_split_lines_len(prefix);
                lemma_fold_last(split_lines(prefix), max_chars as nat);
            }
            chunk_step_exec(&mut chunks, &mut current, &line, max_chars);
            line = Vec::new();
        } else {
            line.push(c);
        }
        i = i + 1;
    }
    proof {
        assert(text.take(n as int) =~= text);
        lemma_split_lines_len(text);
        lemma_fold_last(split_lines(text), max_chars as nat);
    }
    chunk_step_exec(&mut chunks, &mut current, &line, max_chars);
    if current.len() > 0 {
        chunks.push(current);
    }
    assert(char_vecs(chunks@) =~= chunks_of(text, max_chars as nat));
    chunks
}

/// Lines held by the chunks after the first one and before index `end`.
fn omitted_lines(chunks: &Vec<Vec<char>>, n: usize, end: usize) -> (omitted: usize)
    requires
        1 <= end <= chunks@.len(),
        total_line_count(char_vecs(chunks@)) <= n + 1,
    ensures
        omitted == total_line_count(char_vecs(chunks@).subrange(1, end as int)),
{
    let len = chunks.len();
    let ghost all = char_vecs(chunks@);
    let ghost middle = all.subrange(1, end as int);
    proof {
        lemma_total_line_count_split(all, 1);
        lemma_total_line_count_split(all.skip(1), end - 1);
        assert(all.skip(1).take(end - 1) =~= middle);
        assert(all.take(1) =~= seq![all[0]]);
        assert(seq![all[0]].drop_last() =~= Seq::<Seq<char>>::empty());
        assert(total_line_count(middle) <= n);
    }
    let mut omitted: usize = 0;
    let mut k: usize = 1;
    while k < end
        invariant
            len == chunks@.len(),
            1 <= end <= len,
            all == char_vecs(chunks@),
            middle == all.subrange(1, end as int),
            1 <= k <= end,
            omitted == total_line_count(middle.take(k - 1)),
            total_line_count(middle) <= usize::MAX,
        decreases end - k,
    {
        proof {
            lemma_total_line_count_split(middle, k as int);
            lemma_total_line_count_split(middle.take(k as int), k - 1);
            assert(middle.take(k as int).take(k - 1) =~= middle.take(k - 1));
            assert(middle.take(k as int).skip(k - 1) =~= seq![middle[k - 1]]);
            assert(seq![middle[k - 1]].drop_last() =~= Seq::<Seq<char>>::empty());
            assert(middle[k - 1] == chunks@[k as int]@);
        }
        let lc = count_lines(&chunks[k]);
        omitted = omitted + lc;
        k = k + 1;
    }
    assert(middle.take(end - 1) =~= middle);
    omitted
}

/// Whether `split_content` is defined on these arguments: with no message
/// allowed, an oversized content must not fall into exactly one chunk.
pub fn split_content_ok(content: &str, max_chars: usize, max_messages: usize) -> (r: bool)
    ensures
        r == split_content_defined(content@, max_chars as nat, max_messages as nat),
{
    if max_messages != 0 {
        return true;
    }
    let chars = chars_of(content);
    if chars.len() <= max_chars {
        return true;
    }
    let chunks = chunk_chars(&chars, max_chars);
    assert(char_vecs(chunks@).len() == chunks@.len());
    chunks.len() != 1
}

/// Splits `content` into messages of at most `max_chars` characters, cut on
/// line boundaries (a longer line is cut to `max_chars`); when more than
/// `max_messages` would be needed, only the first and last chunks are kept,
/// with a marker counting the lines between, as far as `max_messages` allows
/// (see `split_content_spec`).
#[verifier::rlimit(40)]
pub fn split_content(content: &str, max_chars: usize, max_messages: usize) -> (r: Vec<String>)
    requires
        split_content_defined(content@, max_chars as nat, max_messages as nat),
    ensures
        texts(r@) == split_content_spec(content@, max_chars as nat, max_messages as nat),
        max_messages >= 1 ==> r@.len() <= max_messages,
        max_messages == 0 ==> r@.len() <= 3,
        content@.len() > max_chars ==> forall|i: int| 0 <= i < r@.len() ==> !starts_with_newline(#[trigger] r@[i]@),
        forall|i: int| 0 <= i < r@.len() && !(split_omits(content@, max_chars as nat, max_messages as nat) && i == 1)
            ==> (#[trigger] r@[i]@).len() <= max_chars,
        content@.len() > max_chars && max_chars > 0 ==> forall|i: int| 0 <= i < r@.len() ==> (#[trigger] r@[i]@).len() > 0,
        max_chars > 0 && (exists|k: int| 0 <= k < split_lines(content@).len() && (#[trigger] split_lines(content@)[k]).len() > 0)
            ==> r@.len() >= 1,
{
    let chars = chars_of(content);
    let n = chars.len();
    if n <= max_chars {
        let mut r: Vec<String> = Vec::new();
        r.push(content.to_owned());
        assert(texts(r@) =~= seq![content@]);
        return r;
    }
    let chunks = chunk_chars(&chars, max_chars);
    let ghost text = chars@;
    proof {
        lemma_chunks_of_facts(text, max_chars as nat);
        lemma_newline_count_bound(text);
        if max_chars > 0 && exists|k: int| 0 <= k < split_lines(text).len() && (#[trigger] split_lines(text)[k]).len() > 0 {
            let k = choose|k: int| 0 <= k < split_lines(text).len() && (#[trigger] split_lines(text)[k]).len() > 0;
            lemma_chunk_fold_nonempty(split_lines(text), max_chars as nat, k);
            let st = chunk_fold(split_lines(text), max_chars as nat);
            if st.current.len() != 0 {
                assert(chunks_of(text, max_chars as nat).len() == st.chunks.len() + 1);
            }
            assert(chunks_of(text, max_chars as nat).len() > 0);
        }
    }
    if chunks.len() <= max_messages {
        let r = strings_of(&chunks);
        proof {
            assert forall|i: int| 0 <= i < r@.len() implies #[trigger] r@[i]@ == chunks_of(text, max_chars as nat)[i] by {
                assert(texts(r@)[i] == r@[i]@);
            }
        }
        return r;
    }
    let len = chunks.len();
    let first = string_of(chunks[0].as_slice());
    let mut r: Vec<String> = Vec::new();
    r.push(first);
    if max_messages == 1 {
        assert(texts(r@) =~= split_content_spec(text, max_chars as nat, max_messages as nat));
        return r;
    }
    let end = if max_messages == 2 { len } else { len - 1 };
    let omitted = omitted_lines(&chunks, n, end);
    let marker = omitted_marker_string(omitted);
    r.push(marker);
    if max_messages != 2 {
        let last = string_of(chunks[len - 1].as_slice());
        r.push(last);
    }
    proof {
        assert(texts(r@) =~= split_content_spec(text, max_chars as nat, max_messages as nat));
        lemma_no_newline_marker(omitted as nat);
    }
    r
}

/// The texts a dry run prints for a batch split into `chunks`: the whole
/// batch when it is one message, otherwise the chunks.
pub fn dry_run_bodies(content: &str, chunks: Vec<String>) -> (bodies: Vec<String>)
    ensures
        chunks@.len() == 1 ==> texts(bodies@) == seq![content@],
        chunks@.len() != 1 ==> bodies@ == chunks@,
{
    if chunks.len() == 1 {
        let mut v: Vec<String> = Vec::new();
        v.push(content.to_owned());
        assert(texts(v@) =~= seq![content@]);
        v
    } else {
        chunks
    }
}

/// The marker for omitted lines starts with a dot, not a newline.
pub proof fn lemma_no_newline_marker(n: nat)
    ensures
        !starts_with_newline(omitted_marker(n)),
{
    reveal_strlit("... (");
    assert(omitted_marker(n)[0] == '.');
}

} // verus!
