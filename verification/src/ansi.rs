//! Removal of ANSI escape sequences from terminal output.

use vstd::prelude::*;
use crate::text::{chars_of, string_of};

verus! {

/// The escape character that starts every ANSI sequence.
pub open spec fn esc() -> char {
    '\x1b'
}

/// `c` is an ASCII letter (`char::is_ascii_alphabetic`).
pub open spec fn is_ascii_letter(c: char) -> bool {
    (('a' as u32) <= (c as u32) && (c as u32) <= ('z' as u32))
        || (('A' as u32) <= (c as u32) && (c as u32) <= ('Z' as u32))
}

/// Length of the body of a control sequence that starts at the front of `s`
/// (after `ESC [`): everything up to and including the first ASCII letter,
/// or all of `s` when no letter follows.
pub open spec fn csi_body_len(s: Seq<char>) -> nat
    decreases s.len(),
{
    if s.len() == 0 {
        0
    } else if is_ascii_letter(s[0]) {
        1
    } else {
        1 + csi_body_len(s.drop_first())
    }
}

/// A control sequence body never extends past the text.
pub proof fn lemma_csi_body_len_bound(s: Seq<char>)
    ensures
        csi_body_len(s) <= s.len(),
    decreases s.len(),
{
    if s.len() > 0 && !is_ascii_letter(s[0]) {
        lemma_csi_body_len_bound(s.drop_first());
    }
}

/// The text that remains of `s` once its ANSI escape sequences are removed.
///
/// An `ESC` is dropped together with the character after it; when that
/// character is `[`, the control sequence body that follows is dropped too.
pub open spec fn strip_ansi_spec(s: Seq<char>) -> Seq<char>
    decreases s.len(),
{
    if s.len() == 0 {
        Seq::empty()
    } else if s[0] == esc() {
        if s.len() == 1 {
            Seq::empty()
        } else if s[1] == '[' {
            proof {
                lemma_csi_body_len_bound(s.skip(2));
            }
            strip_ansi_spec(s.skip(2 + csi_body_len(s.skip(2)) as int))
        } else {
            strip_ansi_spec(s.skip(2))
        }
    } else {
        seq![s[0]] + strip_ansi_spec(s.drop_first())
    }
}

/// Whatever the input, the stripped text holds no escape character.
pub proof fn lemma_strip_ansi_no_esc(s: Seq<char>)
    ensures
        !strip_ansi_spec(s).contains(esc()),
    decreases s.len(),
{
    if s.len() > 0 {
        if s[0] == esc() {
            if s.len() > 1 {
                if s[1] == '[' {
                    lemma_csi_body_len_bound(s.skip(2));
                    lemma_strip_ansi_no_esc(s.skip(2 + csi_body_len(s.skip(2)) as int));
                } else {
                    lemma_strip_ansi_no_esc(s.skip(2));
                }
            }
        } else {
            lemma_strip_ansi_no_esc(s.drop_first());
            let r = strip_ansi_spec(s.drop_first());
            assert forall|i: int| 0 <= i < (seq![s[0]] + r).len() implies (seq![s[0]] + r)[i] != esc() by {
                if i > 0 {
                    assert((seq![s[0]] + r)[i] == r[i - 1]);
                }
            }
        }
    }
}

/// Stripping adds no character: one absent from the input is absent from
/// the output.
pub proof fn lemma_strip_ansi_keeps_absent(s: Seq<char>, x: char)
    requires
        !s.contains(x),
    ensures
        !strip_ansi_spec(s).contains(x),
    decreases s.len(),
{
    if s.len() > 0 {
        if s[0] == esc() {
            if s.len() > 1 {
                let k: int = if s[1] == '[' {
                    lemma_csi_body_len_bound(s.skip(2));
                    2 + csi_body_len(s.skip(2)) as int
                } else {
                    2
                };
                assert(!s.skip(k).contains(x)) by {
                    if s.skip(k).contains(x) {
                        let i = choose|i: int| 0 <= i < s.skip(k).len() && s.skip(k)[i] == x;
                        assert(s[i + k] == x);
                    }
                }
                lemma_strip_ansi_keeps_absent(s.skip(k), x);
            }
        } else {
            assert(!s.drop_first().contains(x)) by {
                if s.drop_first().contains(x) {
                    let i = choose|i: int| 0 <= i < s.drop_first().len() && s.drop_first()[i] == x;
                    assert(s[i + 1] == x);
                }
            }
            lemma_strip_ansi_keeps_absent(s.drop_first(), x);
            let r = strip_ansi_spec(s.drop_first());
            assert(s[0] != x);
            assert forall|i: int| 0 <= i < (seq![s[0]] + r).len() implies (seq![s[0]] + r)[i] != x by {
                if i > 0 {
                    assert((seq![s[0]] + r)[i] == r[i - 1]);
                }
            }
        }
    }
}

/// Text without an escape character passes through unchanged.
pub proof fn lemma_strip_ansi_plain(s: Seq<char>)
    requires
        !s.contains(esc()),
    ensures
        strip_ansi_spec(s) == s,
    decreases s.len(),
{
    if s.len() > 0 {
        assert(s[0] != esc());
        assert(!s.drop_first().contains(esc())) by {
            if s.drop_first().contains(esc()) {
                let i = choose|i: int| 0 <= i < s.drop_first().len() && s.drop_first()[i] == esc();
                assert(s[i + 1] == esc());
            }
        }
        lemma_strip_ansi_plain(s.drop_first());
        assert(seq![s[0]] + s.drop_first() =~= s);
    }
}

/// Stripping twice gives what stripping once gives.
pub proof fn law_strip_ansi_idempotent(s: Seq<char>)
    ensures
        strip_ansi_spec(strip_ansi_spec(s)) == strip_ansi_spec(s),
{
    lemma_strip_ansi_no_esc(s);
    lemma_strip_ansi_plain(strip_ansi_spec(s));
}

/// `a` is a subsequence of `b`: its characters occur in `b` in order.
pub open spec fn subseq_of(a: Seq<char>, b: Seq<char>) -> bool
    decreases b.len(),
{
    if a.len() == 0 {
        true
    } else if b.len() == 0 {
        false
    } else {
        (a[0] == b[0] && subseq_of(a.drop_first(), b.drop_first())) || subseq_of(a, b.drop_first())
    }
}

/// Dropping the first `k` characters of `b` keeps `a` a subsequence of `b`.
proof fn lemma_subseq_of_skip(a: Seq<char>, b: Seq<char>, k: int)
    requires
        0 <= k <= b.len(),
        subseq_of(a, b.skip(k)),
    ensures
        subseq_of(a, b),
    decreases k,
{
    if k > 0 {
        assert(b.skip(k - 1).drop_first() =~= b.skip(k));
        assert(subseq_of(a, b.skip(k - 1)));
        lemma_subseq_of_skip(a, b, k - 1);
    } else {
        assert(b.skip(0) =~= b);
    }
}

/// Stripping only removes characters: the output is a subsequence of the
/// input.
pub proof fn law_strip_ansi_subsequence(s: Seq<char>)
    ensures
        subseq_of(strip_ansi_spec(s), s),
    decreases s.len(),
{
    if s.len() > 0 {
        if s[0] == esc() {
            if s.len() > 1 {
                let k: int = if s[1] == '[' {
                    lemma_csi_body_len_bound(s.skip(2));
                    2 + csi_body_len(s.skip(2)) as int
                } else {
                    2
                };
                law_strip_ansi_subsequence(s.skip(k));
                lemma_subseq_of_skip(strip_ansi_spec(s), s, k);
            }
        } else {
            law_strip_ansi_subsequence(s.drop_first());
            let r = strip_ansi_spec(s.drop_first());
            assert((seq![s[0]] + r).drop_first() =~= r);
        }
    }
}

/// Escape-free text in front passes through, and the rest is stripped.
proof fn lemma_strip_ansi_plain_prefix(a: Seq<char>, t: Seq<char>)
    requires
        !a.contains(esc()),
    ensures
        strip_ansi_spec(a + t) == a + strip_ansi_spec(t),
    decreases a.len(),
{
    if a.len() == 0 {
        assert(a + t =~= t);
        assert(a + strip_ansi_spec(t) =~= strip_ansi_spec(t));
    } else {
        assert(a[0] != esc());
        assert(!a.drop_first().contains(esc())) by {
            if a.drop_first().contains(esc()) {
                let i = choose|i: int| 0 <= i < a.drop_first().len() && a.drop_first()[i] == esc();
                assert(a[i + 1] == esc());
            }
        }
        lemma_strip_ansi_plain_prefix(a.drop_first(), t);
        assert((a + t)[0] == a[0]);
        assert((a + t).drop_first() =~= a.drop_first() + t);
        assert(seq![a[0]] + (a.drop_first() + strip_ansi_spec(t)) =~= a + strip_ansi_spec(t));
    }
}

/// A control sequence body of non-letters ended by a letter spans them all.
proof fn lemma_csi_body_len_params(params: Seq<char>, l: char, rest: Seq<char>)
    requires
        forall|i: int| 0 <= i < params.len() ==> !is_ascii_letter(#[trigger] params[i]),
        is_ascii_letter(l),
    ensures
        csi_body_len(params + seq![l] + rest) == params.len() + 1,
    decreases params.len(),
{
    let t = params + seq![l] + rest;
    if params.len() == 0 {
        assert(t[0] == l);
    } else {
        assert(t[0] == params[0]);
        assert forall|i: int| 0 <= i < params.drop_first().len() implies !is_ascii_letter(#[trigger] params.drop_first()[i]) by {
            assert(params.drop_first()[i] == params[i + 1]);
        }
        lemma_csi_body_len_params(params.drop_first(), l, rest);
        assert(t.drop_first() =~= params.drop_first() + seq![l] + rest);
    }
}

/// One control sequence `ESC [ params letter` between two escape-free texts
/// is removed, and the texts around it are kept.
pub proof fn law_strip_ansi_removes_sequence(a: Seq<char>, params: Seq<char>, l: char, b: Seq<char>)
    requires
        !a.contains(esc()),
        !b.contains(esc()),
        forall|i: int| 0 <= i < params.len() ==> !is_ascii_letter(#[trigger] params[i]),
        is_ascii_letter(l),
    ensures
        strip_ansi_spec(a + seq![esc(), '['] + params + seq![l] + b) == a + b,
{
    let t = seq![esc(), '['] + params + seq![l] + b;
    assert(a + seq![esc(), '['] + params + seq![l] + b =~= a + t);
    lemma_strip_ansi_plain_prefix(a, t);
    assert(t.skip(2) =~= params + seq![l] + b);
    lemma_csi_body_len_params(params, l, b);
    lemma_csi_body_len_bound(t.skip(2));
    assert(t.skip(2 + csi_body_len(t.skip(2)) as int) =~= b);
    assert(t[0] == esc() && t[1] == '[');
    lemma_strip_ansi_plain(b);
}

fn is_letter(c: char) -> (b: bool)
    ensures
        b == is_ascii_letter(c),
{
    ('a' <= c && c <= 'z') || ('A' <= c && c <= 'Z')
}

/// Removes ANSI escape sequences (colours, cursor movement, ...) from `input`.
pub fn strip_ansi(input: &str) -> (out: String)
    ensures
        out@ == strip_ansi_spec(input@),
        !out@.contains(esc()),
        !input@.contains(esc()) ==> out@ == input@,
{
    let chars = chars_of(input);
    let n = chars.len();
    let mut out: Vec<char> = Vec::new();
    let mut i: usize = 0;
    assert(chars@.skip(0) =~= chars@);
    while i < n
        invariant
            n == chars@.len(),
            i <= n,
            strip_ansi_spec(chars@) == out@ + strip_ansi_spec(chars@.skip(i as int)),
        decreases n - i,
    {
        let ghost rest = chars@.skip(i as int);
        let c = chars[i];
        if c == '\x1b' {
            if i + 1 < n {
                if chars[i + 1] == '[' {
                    let mut j: usize = i + 2;
                    proof {
                        assert(chars@.skip(j as int) =~= rest.skip(2));
                    }
                    while j < n && !is_letter(chars[j])
                        invariant
                            n == chars@.len(),
                            i + 2 <= j <= n,
                            rest == chars@.skip(i as int),
                            csi_body_len(rest.skip(2)) == (j - (i + 2)) + csi_body_len(chars@.skip(j as int)),
                        decreases n - j,
                    {
                        assert(chars@.skip(j as int).drop_first() =~= chars@.skip(j + 1));
                        j = j + 1;
                    }
                    if j < n {
                        j = j + 1;
                    }
                    proof {
                        assert(rest.skip(2 + csi_body_len(rest.skip(2)) as int) =~= chars@.skip(j as int));
                    }
                    i = j;
                } else {
                    assert(rest.skip(2) =~= chars@.skip(i + 2));
                    i = i + 2;
                }
            } else {
                i = i + 1;
            }
        } else {
            let ghost old_out = out@;
            out.push(c);
            assert(rest.drop_first() =~= chars@.skip(i + 1));
            assert(out@ + strip_ansi_spec(chars@.skip(i + 1)) =~= old_out + (seq![c] + strip_ansi_spec(rest.drop_first())));
            i = i + 1;
        }
    }
    assert(chars@.skip(n as int) =~= Seq::<char>::empty());
    assert(out@ + Seq::<char>::empty() =~= out@);
    proof {
        lemma_strip_ansi_no_esc(input@);
        if !input@.contains(esc()) {
            lemma_strip_ansi_plain(input@);
        }
    }
    string_of(&out)
}

} // verus!
