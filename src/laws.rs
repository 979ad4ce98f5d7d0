//! Properties of the tokens of every input.
use vstd::prelude::*;
use vstd::utf8::encode_utf8;
use crate::classify::{is_punctuation, is_terminator, is_white_space};
use crate::encoding::{lemma_byte_offset_monotone, lemma_encode_slice};
use crate::model::{
    alnum_of, byte_offset, classified_spans, covered, flushed, is_inner_punctuation,
    lemma_run_len_bound, next_char, reassemble, run_len, scan, spans_within, token_spans, white_of,
};

verus! {

/// Equal characters have equal classes.
pub open spec fn classes_by_char(s: Seq<char>, class: Seq<bool>) -> bool {
    forall|i: int, j: int| 0 <= i < s.len() && 0 <= j < s.len() && s[i] == s[j] ==> #[trigger] class[i] == #[trigger] class[j]
}

proof fn lemma_within_concat(a: Seq<(int, int)>, b: Seq<(int, int)>, lo: int, mid: int, hi: int)
    requires
        spans_within(a, lo, mid),
        spans_within(b, mid, hi),
        lo <= mid <= hi,
    ensures
        spans_within(a + b, lo, hi),
{
    let c = a + b;
    assert forall|k: int, l: int| 0 <= k < l < c.len() implies #[trigger] c[k].1 <= #[trigger] c[l].0 by {
        if l < a.len() {
            assert(c[k] == a[k] && c[l] == a[l]);
            assert(a[k].1 <= a[l].0);
        } else if k >= a.len() {
            assert(c[k] == b[k - a.len()] && c[l] == b[l - a.len()]);
            assert(b[k - a.len()].1 <= b[l - a.len()].0);
        } else {
            assert(c[k] == a[k] && c[l] == b[l - a.len()]);
            assert(lo <= a[k].0 < a[k].1 <= mid);
            assert(mid <= b[l - a.len()].0 < b[l - a.len()].1 <= hi);
        }
    }
    assert forall|k: int| 0 <= k < c.len() implies lo <= #[trigger] c[k].0 < c[k].1 <= hi by {
        if k >= a.len() {
            assert(c[k] == b[k - a.len()]);
            assert(mid <= b[k - a.len()].0 < b[k - a.len()].1 <= hi);
        } else {
            assert(c[k] == a[k]);
            assert(lo <= a[k].0 < a[k].1 <= mid);
        }
    }
}

proof fn lemma_within_widen(a: Seq<(int, int)>, lo: int, lo2: int, hi: int)
    requires
        spans_within(a, lo2, hi),
        lo <= lo2,
    ensures
        spans_within(a, lo, hi),
{
}

proof fn lemma_covered_concat(a: Seq<(int, int)>, b: Seq<(int, int)>, j: int)
    ensures
        covered(a + b, j) <==> covered(a, j) || covered(b, j),
{
    let c = a + b;
    if covered(c, j) {
        let k = choose|k: int| 0 <= k < c.len() && #[trigger] c[k].0 <= j < c[k].1;
        if k >= a.len() {
            assert(b[k - a.len()].0 <= j < b[k - a.len()].1);
        }
    }
    if covered(a, j) {
        let k = choose|k: int| 0 <= k < a.len() && #[trigger] a[k].0 <= j < a[k].1;
        assert(c[k].0 <= j < c[k].1);
    }
    if covered(b, j) {
        let k = choose|k: int| 0 <= k < b.len() && #[trigger] b[k].0 <= j < b[k].1;
        assert(c[k + a.len()].0 <= j < c[k + a.len()].1);
    }
}

proof fn lemma_covered_outside(a: Seq<(int, int)>, lo: int, hi: int, j: int)
    requires
        spans_within(a, lo, hi),
        j < lo || j >= hi,
    ensures
        !covered(a, j),
{
}

/// The spans that `scan` emits from index `i` on, with the buffer opened at
/// `start`, are ordered inside `[start or i, len]` and cover exactly the
/// characters there that are not whitespace.
proof fn lemma_scan_shape(s: Seq<char>, white: Seq<bool>, alnum: Seq<bool>, i: int, start: Option<int>)
    requires
        white.len() == s.len(),
        alnum.len() == s.len(),
        0 <= i <= s.len(),
        start is Some ==> 0 <= start->0 < i,
        start is Some ==> forall|j: int| start->0 <= j < i ==> !#[trigger] white[j],
    ensures
        spans_within(scan(s, white, alnum, i, start), if start is Some { start->0 } else { i }, s.len() as int),
        classes_by_char(s, white) ==> forall|j: int|
            (if start is Some { start->0 } else { i }) <= j < s.len() ==> (covered(
                scan(s, white, alnum, i, start),
                j,
            ) <==> !#[trigger] white[j]),
    decreases s.len() - i,
{
    let lo = if start is Some { start->0 } else { i };
    let n = s.len() as int;
    let out = scan(s, white, alnum, i, start);
    if i >= n {
        if classes_by_char(s, white) {
            assert forall|j: int| lo <= j < n implies (covered(out, j) <==> !#[trigger] white[j]) by {
                assert(out[0].0 <= j < out[0].1);
            }
        }
    } else {
        let c = s[i];
        let opened = if start is Some { start } else { Some(i) };
        let prev_alnum = start is Some && alnum[i - 1];
        let next_alnum = i + 1 < s.len() && alnum[i + 1];
        let head = flushed(start, i);
        assert(spans_within(head, lo, i));
        assert forall|j: int| lo <= j < i implies covered(head, j) by {
            assert(head[0].0 <= j < head[0].1);
        }
        if white[i] {
            let rest = scan(s, white, alnum, i + 1, None);
            lemma_scan_shape(s, white, alnum, i + 1, None);
            lemma_within_widen(rest, i, i + 1, n);
            lemma_within_concat(head, rest, lo, i, n);
            if classes_by_char(s, white) {
                assert forall|j: int| lo <= j < n implies (covered(out, j) <==> !#[trigger] white[j]) by {
                    lemma_covered_concat(head, rest, j);
                    if j >= i {
                        lemma_covered_outside(head, lo, i, j);
                    }
                    if j < i + 1 {
                        lemma_covered_outside(rest, i + 1, n, j);
                    }
                }
            }
        } else if !is_punctuation(c) || is_inner_punctuation(c, prev_alnum, next_char(s, i), next_alnum) {
            lemma_scan_shape(s, white, alnum, i + 1, opened);
        } else {
            let j1 = if is_terminator(c) { i + 1 + run_len(s, i + 1, c) } else { i + 1 };
            lemma_run_len_bound(s, i + 1, c);
            let mid = seq![(i, j1)];
            let rest = scan(s, white, alnum, j1, None);
            assert(out == head + mid + rest);
            lemma_scan_shape(s, white, alnum, j1, None);
            lemma_within_concat(head, mid, lo, i, j1);
            lemma_within_concat(head + mid, rest, lo, j1, n);
            if classes_by_char(s, white) {
                assert forall|j: int| lo <= j < n implies (covered(out, j) <==> !#[trigger] white[j]) by {
                    lemma_covered_concat(head + mid, rest, j);
                    lemma_covered_concat(head, mid, j);
                    if j >= i {
                        lemma_covered_outside(head, lo, i, j);
                    }
                    if j < j1 {
                        lemma_covered_outside(rest, j1, n, j);
                    }
                    if i <= j < j1 {
                        assert(mid[0].0 <= j < mid[0].1);
                        assert(s[j] == s[i]);
                    }
                }
            }
        }
    }
}

proof fn lemma_reassemble(s: Seq<char>, spans: Seq<(int, int)>, from: int)
    requires
        0 <= from <= s.len(),
        spans_within(spans, from, s.len() as int),
    ensures
        reassemble(s, spans, from) == s.subrange(from, s.len() as int),
    decreases spans.len(),
{
    if spans.len() > 0 {
        let n = s.len() as int;
        let (a, b) = spans[0];
        let rest = spans.drop_first();
        assert forall|k: int| 0 <= k < rest.len() implies b <= #[trigger] rest[k].0 < rest[k].1 <= n by {
            assert(rest[k] == spans[k + 1]);
            assert(spans[0].1 <= spans[k + 1].0);
        }
        assert forall|k: int, l: int| 0 <= k < l < rest.len() implies #[trigger] rest[k].1 <= #[trigger] rest[l].0 by {
            assert(rest[k] == spans[k + 1] && rest[l] == spans[l + 1]);
        }
        lemma_reassemble(s, rest, b);
        assert(s.subrange(from, a) + s.subrange(a, b) + s.subrange(b, n) =~= s.subrange(from, n));
    }
}

/// Token spans are non-empty, lie inside the input and follow one another
/// without overlap, in character indices and in byte offsets alike.
pub proof fn spans_are_ordered(s: Seq<char>, white: Seq<bool>, alnum: Seq<bool>)
    requires
        white.len() == s.len(),
        alnum.len() == s.len(),
    ensures
        spans_within(classified_spans(s, white, alnum), 0, s.len() as int),
        forall|k: int|
            0 <= k < classified_spans(s, white, alnum).len() ==> byte_offset(
                s,
                #[trigger] classified_spans(s, white, alnum)[k].0,
            ) < byte_offset(s, classified_spans(s, white, alnum)[k].1) <= byte_offset(
                s,
                s.len() as int,
            ),
        forall|k: int, l: int|
            0 <= k < l < classified_spans(s, white, alnum).len() ==> byte_offset(
                s,
                #[trigger] classified_spans(s, white, alnum)[k].1,
            ) <= byte_offset(s, #[trigger] classified_spans(s, white, alnum)[l].0),
{
    let spans = classified_spans(s, white, alnum);
    let n = s.len() as int;
    lemma_scan_shape(s, white, alnum, 0, None);
    assert forall|k: int| 0 <= k < spans.len() implies byte_offset(s, #[trigger] spans[k].0)
        < byte_offset(s, spans[k].1) <= byte_offset(s, n) by {
        lemma_byte_offset_monotone(s, spans[k].0, spans[k].1);
        lemma_byte_offset_monotone(s, spans[k].1, n);
    }
    assert forall|k: int, l: int| 0 <= k < l < spans.len() implies byte_offset(s, #[trigger] spans[k].1)
        <= byte_offset(s, #[trigger] spans[l].0) by {
        assert(0 <= spans[k].0 < spans[k].1 <= n);
        assert(0 <= spans[l].0 < spans[l].1 <= n);
        lemma_byte_offset_monotone(s, spans[k].1, spans[l].0);
    }
}

/// A character lies inside a token exactly when it is not classed as whitespace,
/// and the gaps and tokens, joined in order, give back the input.
pub proof fn spans_cover_input(s: Seq<char>, white: Seq<bool>, alnum: Seq<bool>)
    requires
        white.len() == s.len(),
        alnum.len() == s.len(),
        classes_by_char(s, white),
    ensures
        forall|j: int|
            0 <= j < s.len() ==> (covered(classified_spans(s, white, alnum), j) <==> !#[trigger] white[j]),
        reassemble(s, classified_spans(s, white, alnum), 0) == s,
{
    lemma_scan_shape(s, white, alnum, 0, None);
    lemma_reassemble(s, classified_spans(s, white, alnum), 0);
    assert(s.subrange(0, s.len() as int) =~= s);
}

/// A character of the input lies inside a token exactly when it is not
/// Unicode whitespace, and the gaps and tokens, joined in order, give back the
/// input.
pub proof fn tokens_cover_input(s: Seq<char>)
    ensures
        forall|j: int|
            0 <= j < s.len() ==> (covered(token_spans(s), j) <==> !is_white_space(#[trigger] s[j])),
        reassemble(s, token_spans(s), 0) == s,
{
    assert(classes_by_char(s, white_of(s)));
    spans_cover_input(s, white_of(s), alnum_of(s));
    assert forall|j: int| 0 <= j < s.len() implies (covered(token_spans(s), j) <==> !is_white_space(#[trigger] s[j])) by {
        assert(white_of(s)[j] == is_white_space(s[j]));
    }
}

/// The bytes of the input between the offsets of a token are the encoding of
/// the characters of that token.
pub proof fn span_bytes_match(s: Seq<char>, white: Seq<bool>, alnum: Seq<bool>, k: int)
    requires
        white.len() == s.len(),
        alnum.len() == s.len(),
        0 <= k < classified_spans(s, white, alnum).len(),
    ensures
        encode_utf8(s).subrange(
            byte_offset(s, classified_spans(s, white, alnum)[k].0),
            byte_offset(s, classified_spans(s, white, alnum)[k].1),
        ) == encode_utf8(
            s.subrange(classified_spans(s, white, alnum)[k].0, classified_spans(s, white, alnum)[k].1),
        ),
{
    let spans = classified_spans(s, white, alnum);
    lemma_scan_shape(s, white, alnum, 0, None);
    assert(0 <= spans[k].0 < spans[k].1 <= s.len());
    lemma_encode_slice(s, spans[k].0, spans[k].1);
}

} // verus!
