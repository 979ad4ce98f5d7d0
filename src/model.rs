//! The scanner as a mathematical function on character sequences.
//!
//! Tokens are described by spans `(a, b)` of character indices: the token
//! covers `s[a..b]`. Byte offsets follow from the UTF-8 encoding of the prefix.
use vstd::prelude::*;
use vstd::utf8::encode_utf8;
use crate::classify::{is_alphanumeric, is_ascii_digit, is_punctuation, is_terminator, is_white_space};

verus! {

/// The byte offset of character index `i` of `s`.
pub open spec fn byte_offset(s: Seq<char>, i: int) -> int {
    encode_utf8(s.subrange(0, i)).len() as int
}

/// The character after index `i`, if any.
pub open spec fn next_char(s: Seq<char>, i: int) -> Option<char> {
    if 0 <= i + 1 < s.len() {
        Some(s[i + 1])
    } else {
        None
    }
}

/// Whether each character of `s` is whitespace.
pub open spec fn white_of(s: Seq<char>) -> Seq<bool> {
    Seq::new(s.len(), |i: int| is_white_space(s[i]))
}

/// Whether each character of `s` is alphanumeric.
pub open spec fn alnum_of(s: Seq<char>) -> Seq<bool> {
    Seq::new(s.len(), |i: int| is_alphanumeric(s[i]))
}

/// Whether a punctuation character `c` stays inside the token being built,
/// given whether the last character of that token is alphanumeric, the
/// character after `c`, and whether that one is alphanumeric. `-` and `.`
/// need an alphanumeric on both sides; `:` and `,` need an ASCII digit after
/// them.
pub open spec fn is_inner_punctuation(
    c: char,
    prev_alnum: bool,
    next: Option<char>,
    next_alnum: bool,
) -> bool {
    ||| (c == '-' || c == '.') && prev_alnum && next is Some && next_alnum
    ||| (c == ':' || c == ',') && next is Some && is_ascii_digit(next->0)
}

/// How many characters equal to `c` follow one another from index `j`.
pub open spec fn run_len(s: Seq<char>, j: int, c: char) -> nat
    decreases s.len() - j,
{
    if 0 <= j < s.len() && s[j] == c {
        1 + run_len(s, j + 1, c)
    } else {
        0
    }
}

/// The span of the buffer, if one is open, closed at `end`.
pub open spec fn flushed(start: Option<int>, end: int) -> Seq<(int, int)> {
    if start is Some {
        seq![(start->0, end)]
    } else {
        seq![]
    }
}

/// The spans emitted from index `i` on, where `start` is where the open buffer
/// began (`None` when the buffer is empty), and `white` and `alnum` say of
/// each character whether it is whitespace and whether it is alphanumeric.
pub open spec fn scan(
    s: Seq<char>,
    white: Seq<bool>,
    alnum: Seq<bool>,
    i: int,
    start: Option<int>,
) -> Seq<(int, int)>
    decreases s.len() - i,
{
    if i < 0 || i >= s.len() {
        flushed(start, s.len() as int)
    } else {
        let c = s[i];
        let opened = if start is Some {
            start
        } else {
            Some(i)
        };
        let prev_alnum = start is Some && alnum[i - 1];
        let next_alnum = i + 1 < s.len() && alnum[i + 1];
        if white[i] {
            flushed(start, i) + scan(s, white, alnum, i + 1, None)
        } else if !is_punctuation(c) {
            scan(s, white, alnum, i + 1, opened)
        } else if is_inner_punctuation(c, prev_alnum, next_char(s, i), next_alnum) {
            scan(s, white, alnum, i + 1, opened)
        } else if is_terminator(c) {
            let j = i + 1 + run_len(s, i + 1, c);
            proof {
                lemma_run_len_bound(s, i + 1, c);
            }
            flushed(start, i) + seq![(i, j)] + scan(s, white, alnum, j, None)
        } else {
            flushed(start, i) + seq![(i, i + 1)] + scan(s, white, alnum, i + 1, None)
        }
    }
}

/// The spans of all tokens of `s`, in order, under the given character
/// classes.
pub open spec fn classified_spans(s: Seq<char>, white: Seq<bool>, alnum: Seq<bool>) -> Seq<(int, int)> {
    scan(s, white, alnum, 0, None)
}

/// The spans of all tokens of `s`, in order.
pub open spec fn token_spans(s: Seq<char>) -> Seq<(int, int)> {
    classified_spans(s, white_of(s), alnum_of(s))
}

pub proof fn lemma_run_len_bound(s: Seq<char>, j: int, c: char)
    requires
        0 <= j <= s.len(),
    ensures
        j + run_len(s, j, c) <= s.len(),
        forall|k: int| j <= k < j + run_len(s, j, c) ==> s[k] == c,
        j + run_len(s, j, c) < s.len() ==> s[j + run_len(s, j, c)] != c,
    decreases s.len() - j,
{
    if j < s.len() && s[j] == c {
        lemma_run_len_bound(s, j + 1, c);
    }
}

/// Every span lies inside `[lo, hi]`, is non-empty, and ends no later than
/// the next one starts.
pub open spec fn spans_within(spans: Seq<(int, int)>, lo: int, hi: int) -> bool {
    &&& forall|k: int| 0 <= k < spans.len() ==> lo <= #[trigger] spans[k].0 < spans[k].1 <= hi
    &&& forall|k: int, l: int| 0 <= k < l < spans.len() ==> #[trigger] spans[k].1 <= #[trigger] spans[l].0
}

/// Character index `j` lies inside one of the spans.
pub open spec fn covered(spans: Seq<(int, int)>, j: int) -> bool {
    exists|k: int| 0 <= k < spans.len() && #[trigger] spans[k].0 <= j < spans[k].1
}

/// The pieces of `s` from index `from` on, cut at the spans: each gap before
/// a span, then the span itself, and finally what follows the last span.
pub open spec fn reassemble(s: Seq<char>, spans: Seq<(int, int)>, from: int) -> Seq<char>
    decreases spans.len(),
{
    if spans.len() == 0 {
        s.subrange(from, s.len() as int)
    } else {
        s.subrange(from, spans[0].0) + s.subrange(spans[0].0, spans[0].1) + reassemble(
            s,
            spans.drop_first(),
            spans[0].1,
        )
    }
}

} // verus!
