//! Matching a pattern against a text. The matching is done by the `regex`
//! crate; what this module proves is what is made of the matches it reports.

use vstd::prelude::*;
use vstd::string::StringSliceAdditionalSpecFns;
use vstd::utf8::{
    decode_utf8, decode_utf8_split, encode_utf8, encode_utf8_decode_utf8, encode_utf8_valid_utf8,
    is_char_boundary, is_char_boundary_iff_not_is_continuation_byte,
    is_char_boundary_start_end_of_seq, valid_utf8, valid_utf8_split,
};
use crate::utils::sequences::{concatenated, lemma_concatenated_add, lemma_concatenated_one};
use regex::Regex;
use crate::tokenization::token::Token;

verus! {

/// A match: the byte offsets at which it starts and ends in the text.
pub type Span = (usize, usize);

/// The matches of `pattern` in `text` as `regex` reports them, in the order
/// in which it reports them; `None` when `regex` refuses the pattern.
pub uninterp spec fn pattern_spans(pattern: Seq<char>, text: Seq<char>) -> Option<Seq<Span>>;

/// Whether a span lies within `bytes` and starts and ends between characters.
pub open spec fn span_fits(bytes: Seq<u8>, span: Span) -> bool {
    &&& span.0 <= span.1 <= bytes.len()
    &&& is_char_boundary(bytes, span.0 as int)
    &&& is_char_boundary(bytes, span.1 as int)
}

/// Whether `spans` are matches that can be cut out of `text`: each fits,
/// and each ends before the next one starts.
pub open spec fn spans_fit(text: Seq<char>, spans: Seq<Span>) -> bool {
    &&& forall|i: int| 0 <= i < spans.len() ==> span_fits(encode_utf8(text), #[trigger] spans[i])
    &&& forall|i: int, j: int| 0 <= i < j < spans.len() ==> spans[i].1 <= spans[j].0
}

/// Compiles `pattern` with `regex::Regex::new` and collects the start and end
/// of every match that `Regex::find_iter` yields on `text`. The contract
/// names the result, and claims of it what the crate documents of a match:
/// its start is not behind its end, both fall on character boundaries of the
/// text, and successive matches do not overlap.
#[verifier::external_body]
pub(crate) fn find_spans(pattern: &str, text: &str) -> (found: Option<Vec<Span>>)
    ensures
        found is None ==> pattern_spans(pattern@, text@) is None,
        found matches Some(spans) ==> pattern_spans(pattern@, text@) == Some(spans@) && spans_fit(
            text@,
            spans@,
        ),
{
    match Regex::new(pattern) {
        Ok(re) => Some(re.find_iter(text).map(|m| (m.start(), m.end())).collect()),
        Err(_) => None,
    }
}

/// The characters of `text` between two byte offsets.
pub open spec fn text_between(text: Seq<char>, from: int, to: int) -> Seq<char> {
    decode_utf8(encode_utf8(text).subrange(from, to))
}

/// A part of a text that is cut between characters is itself a text, and a
/// place between characters of the text that lies in the part lies between
/// characters of the part.
proof fn lemma_boundary_in_part(bytes: Seq<u8>, from: int, at: int, to: int)
    requires
        valid_utf8(bytes),
        0 <= from <= at <= to <= bytes.len(),
        is_char_boundary(bytes, from),
        is_char_boundary(bytes, at),
        is_char_boundary(bytes, to),
    ensures
        valid_utf8(bytes.subrange(from, to)),
        is_char_boundary(bytes.subrange(from, to), at - from),
{
    let front = bytes.subrange(0, to);
    valid_utf8_split(bytes, to);
    if from < to {
        is_char_boundary_iff_not_is_continuation_byte(bytes, from);
        is_char_boundary_iff_not_is_continuation_byte(front, from);
    } else {
        is_char_boundary_start_end_of_seq(front);
    }
    valid_utf8_split(front, from);
    let part = bytes.subrange(from, to);
    assert(front.subrange(from, front.len() as int) =~= part);
    if at < to {
        is_char_boundary_iff_not_is_continuation_byte(bytes, at);
        is_char_boundary_iff_not_is_continuation_byte(part, at - from);
    } else {
        is_char_boundary_start_end_of_seq(part);
    }
}

/// Between a place and itself there is no text.
proof fn lemma_text_between_nothing(text: Seq<char>, at: int)
    requires
        0 <= at <= encode_utf8(text).len(),
    ensures
        text_between(text, at, at) == Seq::<char>::empty(),
{
    let none = encode_utf8(text).subrange(at, at);
    assert(none.len() == 0);
    assert(valid_utf8(none));
    assert(decode_utf8(none) =~= Seq::<char>::empty());
}

/// Two parts of a text that meet between characters make up the part that
/// spans both.
pub proof fn lemma_text_between_joins(text: Seq<char>, from: int, at: int, to: int)
    requires
        0 <= from <= at <= to <= encode_utf8(text).len(),
        is_char_boundary(encode_utf8(text), from),
        is_char_boundary(encode_utf8(text), at),
        is_char_boundary(encode_utf8(text), to),
    ensures
        text_between(text, from, at) + text_between(text, at, to) == text_between(text, from, to),
{
    let bytes = encode_utf8(text);
    encode_utf8_valid_utf8(text);
    lemma_boundary_in_part(bytes, from, at, to);
    let part = bytes.subrange(from, to);
    decode_utf8_split(part, at - from);
    assert(part.subrange(0, at - from) =~= bytes.subrange(from, at));
    assert(part.subrange(at - from, part.len() as int) =~= bytes.subrange(at, to));
}

/// The part of `text` between two byte offsets that lie between characters.
pub fn slice_between<'a>(text: &'a str, from: usize, to: usize) -> (piece: &'a str)
    requires
        from <= to <= encode_utf8(text@).len(),
        is_char_boundary(encode_utf8(text@), from as int),
        is_char_boundary(encode_utf8(text@), to as int),
    ensures
        piece@ == text_between(text@, from as int, to as int),
{
    let ghost bytes = encode_utf8(text@);
    proof {
        encode_utf8_valid_utf8(text@);
    }
    let (head, _) = text.split_at(to);
    proof {
        is_char_boundary_start_end_of_seq(bytes);
        lemma_boundary_in_part(bytes, 0, from as int, to as int);
    }
    let (_, piece) = head.split_at(from);
    proof {
        assert(piece.spec_bytes() =~= bytes.subrange(from as int, to as int));
        encode_utf8_decode_utf8(piece@);
    }
    piece
}

/// Where the text after the first `n` spans starts.
pub open spec fn cursor_after(spans: Seq<Span>, n: int) -> int {
    if n <= 0 {
        0
    } else {
        spans[n - 1].1 as int
    }
}

/// The pieces that the first `n` spans cut out of `text`: before each span
/// the text since the span before it, unless it is empty, and then, where
/// separators are kept, the span itself.
pub open spec fn pieces_before(text: Seq<char>, spans: Seq<Span>, keep_sep: bool, n: int) -> Seq<
    Seq<char>,
>
    decreases n,
{
    if n <= 0 {
        Seq::empty()
    } else {
        let cursor = cursor_after(spans, n - 1);
        let span = spans[n - 1];
        let gap = if cursor != span.0 {
            seq![text_between(text, cursor, span.0 as int)]
        } else {
            Seq::empty()
        };
        let separator = if keep_sep {
            seq![text_between(text, span.0 as int, span.1 as int)]
        } else {
            Seq::empty()
        };
        pieces_before(text, spans, keep_sep, n - 1) + gap + separator
    }
}

/// `text` split at `spans`: the pieces that the spans cut out, and then the
/// text behind the last span, unless it is empty.
pub open spec fn split_pieces(text: Seq<char>, spans: Seq<Span>, keep_sep: bool) -> Seq<Seq<char>> {
    let cursor = cursor_after(spans, spans.len() as int);
    let end = encode_utf8(text).len() as int;
    let rest = if cursor < end {
        seq![text_between(text, cursor, end)]
    } else {
        Seq::empty()
    };
    pieces_before(text, spans, keep_sep, spans.len() as int) + rest
}

/// With the separators kept, the pieces before the first `n` spans spell the
/// text up to the end of the last of them.
proof fn lemma_pieces_before_spell(text: Seq<char>, spans: Seq<Span>, n: int)
    requires
        spans_fit(text, spans),
        0 <= n <= spans.len(),
    ensures
        concatenated(pieces_before(text, spans, true, n)) == text_between(
            text,
            0,
            cursor_after(spans, n),
        ),
        0 <= cursor_after(spans, n) <= encode_utf8(text).len(),
        is_char_boundary(encode_utf8(text), cursor_after(spans, n)),
    decreases n,
{
    let bytes = encode_utf8(text);
    encode_utf8_valid_utf8(text);
    is_char_boundary_start_end_of_seq(bytes);
    if n == 0 {
        lemma_text_between_nothing(text, 0);
    } else {
        lemma_pieces_before_spell(text, spans, n - 1);
        let cursor = cursor_after(spans, n - 1);
        let span = spans[n - 1];
        assert(span_fits(bytes, span));
        if n > 1 {
            assert(spans[n - 2].1 <= spans[n - 1].0);
        }
        let earlier = pieces_before(text, spans, true, n - 1);
        let gap = if cursor != span.0 {
            seq![text_between(text, cursor, span.0 as int)]
        } else {
            Seq::empty()
        };
        let separator = seq![text_between(text, span.0 as int, span.1 as int)];
        lemma_concatenated_add(earlier + gap, separator);
        lemma_concatenated_add(earlier, gap);
        lemma_concatenated_one(text_between(text, span.0 as int, span.1 as int));
        assert(concatenated(gap) == text_between(text, cursor, span.0 as int)) by {
            if cursor != span.0 {
                lemma_concatenated_one(text_between(text, cursor, span.0 as int));
            } else {
                lemma_text_between_nothing(text, cursor);
            }
        }
        lemma_text_between_joins(text, 0, cursor, span.0 as int);
        lemma_text_between_joins(text, 0, span.0 as int, span.1 as int);
    }
}

/// Splitting with the separators kept loses nothing: the pieces, one after
/// the other, spell the text.
pub proof fn lemma_split_pieces_spell_the_text(text: Seq<char>, spans: Seq<Span>)
    requires
        spans_fit(text, spans),
    ensures
        concatenated(split_pieces(text, spans, true)) == text,
{
    let bytes = encode_utf8(text);
    let n = spans.len() as int;
    let end = bytes.len() as int;
    let cursor = cursor_after(spans, n);
    encode_utf8_valid_utf8(text);
    is_char_boundary_start_end_of_seq(bytes);
    lemma_pieces_before_spell(text, spans, n);
    let rest = if cursor < end {
        seq![text_between(text, cursor, end)]
    } else {
        Seq::empty()
    };
    lemma_concatenated_add(pieces_before(text, spans, true, n), rest);
    assert(concatenated(rest) == text_between(text, cursor, end)) by {
        if cursor < end {
            lemma_concatenated_one(text_between(text, cursor, end));
        } else {
            lemma_text_between_nothing(text, cursor);
        }
    }
    lemma_text_between_joins(text, 0, cursor, end);
    assert(bytes.subrange(0, end) =~= bytes);
    encode_utf8_decode_utf8(text);
}

/// Splits `word` at `spans`. The text between two spans becomes a token unless
/// it is empty; a span itself becomes a token where `keep_sep` is set.
pub fn split_at_spans(word: &str, spans: &Vec<Span>, keep_sep: bool) -> (tokens: Vec<Token>)
    requires
        spans_fit(word@, spans@),
    ensures
        tokens.deep_view() == split_pieces(word@, spans@, keep_sep),
{
    let ghost bytes = encode_utf8(word@);
    let mut tokens: Vec<Token> = Vec::new();
    let mut cursor: usize = 0;
    let mut i: usize = 0;
    proof {
        encode_utf8_valid_utf8(word@);
        is_char_boundary_start_end_of_seq(bytes);
        assert(tokens.deep_view() =~= pieces_before(word@, spans@, keep_sep, 0));
    }
    while i < spans.len()
        invariant
            i <= spans.len(),
            bytes == encode_utf8(word@),
            spans_fit(word@, spans@),
            cursor == cursor_after(spans@, i as int),
            cursor <= bytes.len(),
            is_char_boundary(bytes, cursor as int),
            is_char_boundary(bytes, bytes.len() as int),
            tokens.deep_view() == pieces_before(word@, spans@, keep_sep, i as int),
        decreases spans.len() - i,
    {
        let (start, end) = spans[i];
        let ghost before = tokens.deep_view();
        proof {
            assert(span_fits(bytes, spans[i as int]));
            if i > 0 {
                assert(spans[i - 1].1 <= spans[i as int].0);
            }
        }
        if cursor != start {
            tokens.push(Token::new(slice_between(word, cursor, start)));
        }
        let ghost gapped = tokens.deep_view();
        if keep_sep {
            tokens.push(Token::new(slice_between(word, start, end)));
        }
        proof {
            let gap = if cursor != start {
                seq![text_between(word@, cursor as int, start as int)]
            } else {
                Seq::empty()
            };
            let separator = if keep_sep {
                seq![text_between(word@, start as int, end as int)]
            } else {
                Seq::empty()
            };
            assert(gapped =~= before + gap);
            assert(tokens.deep_view() =~= gapped + separator);
        }
        cursor = end;
        i += 1;
    }
    let ghost before = tokens.deep_view();
    let end = word.as_bytes().len();
    if cursor < end {
        tokens.push(Token::new(slice_between(word, cursor, end)));
        assert(tokens.deep_view() =~= before + seq![
            text_between(word@, cursor as int, bytes.len() as int),
        ]);
    } else {
        assert(tokens.deep_view() =~= before + Seq::<Seq<char>>::empty());
    }
    tokens
}

} // verus!
