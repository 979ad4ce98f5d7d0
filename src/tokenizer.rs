//! The scanner: one pass over the characters of the input.
use vstd::prelude::*;
use vstd::std_specs::iter::IteratorSpec;
use vstd::utf8::{encode_utf8, encode_utf8_decode_utf8};
use crate::classify::{ascii_digit, char_is_alphanumeric, char_is_whitespace, char_width, punctuation};
use crate::encoding::{
    lemma_byte_offset_end, lemma_byte_offset_monotone, lemma_byte_offset_step, lemma_char_boundary,
    lemma_encode_slice,
};
use crate::laws::{span_bytes_match, spans_are_ordered};
use crate::model::{
    alnum_of, byte_offset, classified_spans, flushed, is_inner_punctuation, lemma_run_len_bound,
    run_len, scan, token_spans, white_of,
};

verus! {

broadcast use vstd::string::group_string_axioms;

/// A token: its text and the byte span `[start, end)` that it covers in the
/// input.
#[derive(Debug)]
pub struct Token {
    /// The text of the token.
    pub text: String,
    /// Byte offset of the first byte of the token.
    pub start: usize,
    /// Byte offset just past the last byte of the token.
    pub end: usize,
}

impl Token {
    fn new(text: String, start: usize, end: usize) -> (r: Token)
        ensures
            r.text == text,
            r.start == start,
            r.end == end,
    {
        Token { text, start, end }
    }
}

/// `t` is the token of `s` over the character span `span`.
pub open spec fn token_matches(t: Token, s: Seq<char>, span: (int, int)) -> bool {
    &&& t.text@ == s.subrange(span.0, span.1)
    &&& t.start == byte_offset(s, span.0)
    &&& t.end == byte_offset(s, span.1)
}

/// The executable start offset agrees with the buffer of the model, which
/// began at character index `start` and is still open before index `i`.
pub open spec fn start_agrees(token_start: Option<usize>, start: Option<int>, s: Seq<char>, i: int) -> bool {
    &&& (token_start is Some <==> start is Some)
    &&& start is Some ==> 0 <= start->0 < i && token_start->0 == byte_offset(s, start->0)
}

/// The characters of `input`, decoded once.
fn collect_chars(input: &str) -> (r: Vec<char>)
    ensures
        r@ == input@,
{
    let mut it = input.chars();
    let mut r: Vec<char> = Vec::new();
    loop
        invariant
            r@ + it.remaining() == input@,
            it.decrease() is Some,
        ensures
            r@ == input@,
        decreases it.decrease()->0,
    {
        match it.next() {
            Some(c) => {
                r.push(c);
            },
            None => {
                assert(r@ + it.remaining() =~= r@);
                break ;
            },
        }
    }
    r
}

/// The text of `input` between character indices `a` and `b`, cut at their
/// byte offsets `start` and `end`.
fn slice_text(input: &str, start: usize, end: usize, Ghost(a): Ghost<int>, Ghost(b): Ghost<int>) -> (r: String)
    requires
        0 <= a <= b <= input@.len(),
        start == byte_offset(input@, a),
        end == byte_offset(input@, b),
    ensures
        r@ == input@.subrange(a, b),
{
    let ghost s = input@;
    let ghost n = s.len() as int;
    proof {
        lemma_char_boundary(s, a);
        lemma_encode_slice(s, a, n);
        lemma_encode_slice(s, a, b);
        lemma_byte_offset_end(s);
        lemma_byte_offset_monotone(s, a, b);
        lemma_byte_offset_monotone(s, b, n);
    }
    let (_, rest) = input.split_at(start);
    proof {
        encode_utf8_decode_utf8(rest@);
        encode_utf8_decode_utf8(s.subrange(a, n));
        assert(rest@ == s.subrange(a, n));
        assert(rest@.subrange(0, b - a) =~= s.subrange(a, b));
        lemma_char_boundary(rest@, b - a);
        assert(byte_offset(rest@, b - a) == end - start);
        lemma_encode_slice(rest@, 0, b - a);
        assert(rest@.subrange(0, 0) =~= Seq::<char>::empty());
    }
    let (piece, _) = rest.split_at(end - start);
    proof {
        assert(encode_utf8(piece@) == encode_utf8(s.subrange(a, b)));
        encode_utf8_decode_utf8(piece@);
        encode_utf8_decode_utf8(s.subrange(a, b));
    }
    piece.to_owned()
}

/// Closes the open token, if any, at byte offset `end_pos` (character index
/// `end`) and appends it to `tokens`.
fn flush_current_token(
    tokens: &mut Vec<Token>,
    input: &str,
    token_start: &mut Option<usize>,
    end_pos: usize,
    Ghost(start): Ghost<Option<int>>,
    Ghost(end): Ghost<int>,
)
    requires
        0 <= end <= input@.len(),
        end_pos == byte_offset(input@, end),
        start_agrees(*old(token_start), start, input@, end),
    ensures
        *final(token_start) is None,
        start is None ==> final(tokens)@ == old(tokens)@,
        start is Some ==> {
            &&& final(tokens)@.len() == old(tokens)@.len() + 1
            &&& final(tokens)@.drop_last() == old(tokens)@
            &&& token_matches(final(tokens)@.last(), input@, (start->0, end))
        },
{
    if let Some(st) = *token_start {
        let text = slice_text(input, st, end_pos, Ghost(start->0), Ghost(end));
        tokens.push(Token::new(text, st, end_pos));
        *token_start = None;
        proof {
            assert(tokens@.drop_last() =~= old(tokens)@);
        }
    }
}

/// Opens a token at byte offset `current_pos` unless one is already open.
fn initialize_token_start(token_start: &mut Option<usize>, current_pos: usize)
    ensures
        *old(token_start) is None ==> *final(token_start) == Some(current_pos),
        *old(token_start) is Some ==> *final(token_start) == *old(token_start),
{
    if token_start.is_none() {
        *token_start = Some(current_pos);
    }
}

/// Whether `punctuation` stays inside the current token, given whether the
/// last character of that token is alphanumeric, the character after it, and
/// whether that one is alphanumeric.
fn is_token_inner_punctuation(
    punctuation: char,
    prev_alnum: bool,
    next_char: Option<char>,
    next_alnum: bool,
) -> (r: bool)
    ensures
        r == is_inner_punctuation(punctuation, prev_alnum, next_char, next_alnum),
{
    let is_compound_element = (punctuation == '-' || punctuation == '.') && prev_alnum
        && next_char.is_some() && next_alnum;
    let is_numeric_separator = (punctuation == ':' || punctuation == ',') && match next_char {
        Some(c) => ascii_digit(c),
        None => false,
    };
    is_compound_element || is_numeric_separator
}

/// The token made of the character at index `start` and every identical
/// character right after it; also returns the index and byte offset just past
/// that run.
fn process_repeated_punctuation(
    chars: &Vec<char>,
    input: &str,
    punctuation_char: char,
    start: usize,
    start_pos: usize,
) -> (r: (Token, usize, usize))
    requires
        chars@ == input@,
        start < chars.len(),
        chars[start as int] == punctuation_char,
        start_pos == byte_offset(input@, start as int),
        encode_utf8(input@).len() <= usize::MAX,
    ensures
        r.1 == start + 1 + run_len(input@, start + 1, punctuation_char),
        r.2 == byte_offset(input@, r.1 as int),
        token_matches(r.0, input@, (start as int, r.1 as int)),
{
    let ghost s = input@;
    let n = chars.len();
    proof {
        lemma_byte_offset_step(s, start as int);
        lemma_byte_offset_monotone(s, start + 1, n as int);
        lemma_byte_offset_end(s);
    }
    let mut end_pos: usize = start_pos + char_width(punctuation_char);
    let mut j: usize = start + 1;
    while j < n && chars[j] == punctuation_char
        invariant
            chars@ == s,
            n == s.len(),
            start + 1 <= j <= n,
            end_pos == byte_offset(s, j as int),
            encode_utf8(s).len() <= usize::MAX,
            run_len(s, start + 1, punctuation_char) == (j - start - 1) + run_len(s, j as int, punctuation_char),
        decreases n - j,
    {
        proof {
            lemma_byte_offset_step(s, j as int);
            lemma_byte_offset_monotone(s, j + 1, n as int);
            lemma_byte_offset_end(s);
        }
        end_pos = end_pos + char_width(chars[j]);
        j = j + 1;
    }
    let text = slice_text(input, start_pos, end_pos, Ghost(start as int), Ghost(j as int));
    (Token::new(text, start_pos, end_pos), j, end_pos)
}

/// The tokens of `input` whose characters are `chars`, where `white[i]` and
/// `alnum[i]` say whether character `i` is whitespace and alphanumeric.
fn scan_tokens(input: &str, chars: &Vec<char>, white: &[bool], alnum: &[bool]) -> (tokens: Vec<Token>)
    requires
        chars@ == input@,
        white@.len() == input@.len(),
        alnum@.len() == input@.len(),
    ensures
        tokens.len() == classified_spans(input@, white@, alnum@).len(),
        forall|k: int|
            0 <= k < tokens.len() ==> #[trigger] token_matches(
                tokens[k],
                input@,
                classified_spans(input@, white@, alnum@)[k],
            ),
        forall|k: int|
            0 <= k < tokens.len() ==> encode_utf8(input@).subrange(
                tokens[k].start as int,
                tokens[k].end as int,
            ) == encode_utf8(#[trigger] tokens[k].text@),
        forall|k: int|
            0 <= k < tokens.len() ==> #[trigger] tokens[k].start < tokens[k].end <= encode_utf8(
                input@,
            ).len(),
        forall|k: int, l: int|
            0 <= k < l < tokens.len() ==> #[trigger] tokens[k].end <= #[trigger] tokens[l].start,
        input@.len() == 0 ==> tokens.len() == 0,
{
    let ghost s = input@;
    let ghost w = white@;
    let ghost an = alnum@;
    let total = input.as_bytes().len();
    let n = chars.len();
    let mut tokens: Vec<Token> = Vec::new();
    let mut token_start: Option<usize> = None;
    let ghost mut open: Option<int> = None;
    let ghost mut done: Seq<(int, int)> = seq![];
    let mut i: usize = 0;
    let mut pos: usize = 0;
    proof {
        lemma_byte_offset_end(s);
        assert(s.subrange(0, 0) =~= Seq::<char>::empty());
        assert(done + scan(s, w, an, 0, open) =~= classified_spans(s, w, an));
    }
    while i < n
        invariant
            s == input@,
            w == white@,
            an == alnum@,
            w.len() == s.len(),
            an.len() == s.len(),
            chars@ == s,
            n == s.len(),
            i <= n,
            total == encode_utf8(s).len(),
            pos == byte_offset(s, i as int),
            start_agrees(token_start, open, s, i as int),
            tokens.len() == done.len(),
            forall|k: int| 0 <= k < done.len() ==> #[trigger] token_matches(tokens[k], s, done[k]),
            done + scan(s, w, an, i as int, open) == classified_spans(s, w, an),
        decreases n - i,
    {
        let c = chars[i];
        let ghost tokens0 = tokens@;
        let ghost done0 = done;
        proof {
            lemma_byte_offset_step(s, i as int);
            lemma_byte_offset_monotone(s, i + 1, n as int);
            lemma_byte_offset_end(s);
        }
        let width = char_width(c);
        if white[i] {
            flush_current_token(&mut tokens, input, &mut token_start, pos, Ghost(open), Ghost(i as int));
            proof {
                done = done + flushed(open, i as int);
                assert(done0 + scan(s, w, an, i as int, open) =~= done + scan(s, w, an, i + 1, None));
                open = None;
            }
            i = i + 1;
            pos = pos + width;
        } else if !punctuation(c) || is_token_inner_punctuation(
            c,
            token_start.is_some() && alnum[i - 1],
            if i + 1 < n { Some(chars[i + 1]) } else { None },
            i + 1 < n && alnum[i + 1],
        ) {
            initialize_token_start(&mut token_start, pos);
            proof {
                if open is None {
                    open = Some(i as int);
                }
            }
            i = i + 1;
            pos = pos + width;
        } else if c == '.' || c == '!' {
            flush_current_token(&mut tokens, input, &mut token_start, pos, Ghost(open), Ghost(i as int));
            let (run, next, next_pos) = process_repeated_punctuation(&chars, input, c, i, pos);
            tokens.push(run);
            proof {
                lemma_run_len_bound(s, i + 1, c);
                done = done + flushed(open, i as int) + seq![(i as int, next as int)];
                assert(done0 + scan(s, w, an, i as int, open) =~= done + scan(s, w, an, next as int, None));
                open = None;
            }
            i = next;
            pos = next_pos;
        } else {
            flush_current_token(&mut tokens, input, &mut token_start, pos, Ghost(open), Ghost(i as int));
            let text = slice_text(input, pos, pos + width, Ghost(i as int), Ghost(i + 1));
            tokens.push(Token::new(text, pos, pos + width));
            proof {
                done = done + flushed(open, i as int) + seq![(i as int, i + 1)];
                assert(done0 + scan(s, w, an, i as int, open) =~= done + scan(s, w, an, i + 1, None));
                open = None;
            }
            i = i + 1;
            pos = pos + width;
        }
        proof {
            assert forall|k: int| 0 <= k < done.len() implies #[trigger] token_matches(tokens[k], s, done[k]) by {
                if k < done0.len() {
                    assert(tokens[k] == tokens0[k]);
                    assert(done[k] == done0[k]);
                }
            }
        }
    }
    proof {
        lemma_byte_offset_end(s);
    }
    let ghost tokens0 = tokens@;
    flush_current_token(&mut tokens, input, &mut token_start, total, Ghost(open), Ghost(n as int));
    proof {
        let spans = done + flushed(open, n as int);
        assert(spans =~= classified_spans(s, w, an));
        assert forall|k: int| 0 <= k < spans.len() implies #[trigger] token_matches(tokens[k], s, spans[k]) by {
            if k < done.len() {
                assert(tokens[k] == tokens0[k]);
            }
        }
        spans_are_ordered(s, w, an);
        lemma_byte_offset_end(s);
        let spans = classified_spans(s, w, an);
        assert forall|k: int| 0 <= k < tokens.len() implies encode_utf8(s).subrange(
            tokens[k].start as int,
            tokens[k].end as int,
        ) == encode_utf8(#[trigger] tokens[k].text@) by {
            assert(token_matches(tokens[k], s, spans[k]));
            span_bytes_match(s, w, an, k);
        }
        assert forall|k: int| 0 <= k < tokens.len() implies #[trigger] tokens[k].start < tokens[k].end
            <= encode_utf8(s).len() by {
            assert(token_matches(tokens[k], s, spans[k]));
        }
        assert forall|k: int, l: int| 0 <= k < l < tokens.len() implies #[trigger] tokens[k].end
            <= #[trigger] tokens[l].start by {
            assert(token_matches(tokens[k], s, spans[k]));
            assert(token_matches(tokens[l], s, spans[l]));
        }
    }
    tokens
}

/// Splits `input` into tokens under the given character classes: `white[i]`
/// and `alnum[i]` say whether character `i` of `input` is whitespace and
/// whether it is alphanumeric. Whitespace ends a token and is dropped; `-` and
/// `.` between two alphanumerics and `:` or `,` before an ASCII digit stay
/// inside a token; a run of identical `.` or `!` becomes one token; any other
/// punctuation character is a token of its own. Each token carries its byte
/// span in `input`.
pub fn tokenize_classified(input: &str, white: &[bool], alnum: &[bool]) -> (tokens: Vec<Token>)
    requires
        white@.len() == input@.len(),
        alnum@.len() == input@.len(),
    ensures
        tokens.len() == classified_spans(input@, white@, alnum@).len(),
        forall|k: int|
            0 <= k < tokens.len() ==> #[trigger] token_matches(
                tokens[k],
                input@,
                classified_spans(input@, white@, alnum@)[k],
            ),
        forall|k: int|
            0 <= k < tokens.len() ==> encode_utf8(input@).subrange(
                tokens[k].start as int,
                tokens[k].end as int,
            ) == encode_utf8(#[trigger] tokens[k].text@),
        forall|k: int|
            0 <= k < tokens.len() ==> #[trigger] tokens[k].start < tokens[k].end <= encode_utf8(
                input@,
            ).len(),
        forall|k: int, l: int|
            0 <= k < l < tokens.len() ==> #[trigger] tokens[k].end <= #[trigger] tokens[l].start,
        input@.len() == 0 ==> tokens.len() == 0,
{
    let chars = collect_chars(input);
    scan_tokens(input, &chars, white, alnum)
}

/// Splits `input` into tokens on Unicode whitespace, with punctuation rules:
/// `-` and `.` between two Unicode alphanumerics and `:` or `,` before an
/// ASCII digit stay inside a token; a run of identical `.` or `!` becomes one
/// token; any other punctuation character is a token of its own. Each token
/// carries its byte span in `input`.
pub fn whitespace_tokenize(input: &str) -> (tokens: Vec<Token>)
    ensures
        tokens.len() == token_spans(input@).len(),
        forall|k: int|
            0 <= k < tokens.len() ==> #[trigger] token_matches(
                tokens[k],
                input@,
                token_spans(input@)[k],
            ),
        forall|k: int|
            0 <= k < tokens.len() ==> encode_utf8(input@).subrange(
                tokens[k].start as int,
                tokens[k].end as int,
            ) == encode_utf8(#[trigger] tokens[k].text@),
        forall|k: int|
            0 <= k < tokens.len() ==> #[trigger] tokens[k].start < tokens[k].end <= encode_utf8(
                input@,
            ).len(),
        forall|k: int, l: int|
            0 <= k < l < tokens.len() ==> #[trigger] tokens[k].end <= #[trigger] tokens[l].start,
        input@.len() == 0 ==> tokens.len() == 0,
{
    let chars = collect_chars(input);
    let n = chars.len();
    let mut white: Vec<bool> = Vec::new();
    let mut alnum: Vec<bool> = Vec::new();
    let mut i: usize = 0;
    while i < n
        invariant
            chars@ == input@,
            n == chars.len(),
            i <= n,
            white@ == white_of(input@).take(i as int),
            alnum@ == alnum_of(input@).take(i as int),
        decreases n - i,
    {
        white.push(char_is_whitespace(chars[i]));
        alnum.push(char_is_alphanumeric(chars[i]));
        i = i + 1;
        proof {
            assert(white@ =~= white_of(input@).take(i as int));
            assert(alnum@ =~= alnum_of(input@).take(i as int));
        }
    }
    proof {
        assert(white@ =~= white_of(input@));
        assert(alnum@ =~= alnum_of(input@));
    }
    scan_tokens(input, &chars, white.as_slice(), alnum.as_slice())
}

} // verus!
