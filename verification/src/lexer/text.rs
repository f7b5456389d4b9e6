//! What a text token can hold: proofs over the grammar.

use crate::lexer::grammar::{
    after_marker, block_end, block_tokens, continues_quote, hard_break, inline_from,
    inline_tokens, is_empty_span, lemma_block_end, lemma_line_end, lemma_skip_spaces, lex,
    lex_range, line_content, line_end, line_type, mark_at, next_line, paragraph_end,
    paragraph_tokens, quote_content_start, quote_tokens, skip_spaces, space_width,
    terminator_len, text_run, trim_end, Emphasis, LineType,
};
use crate::token::TokenView;
use crate::tokenizer::utils::{is_line_break, BACKTICK, SPACE};
use vstd::prelude::*;

verus! {

/// The bytes of a text token: at least one, none of them a line terminator
/// and none a backtick.
pub open spec fn is_plain(text: Seq<u8>) -> bool {
    text.len() > 0 && forall|i: int|
        0 <= i < text.len() ==> !is_line_break(#[trigger] text[i]) && text[i] != BACKTICK
}

/// A token other than text, or a text token with plain bytes.
pub open spec fn is_plain_token(token: TokenView) -> bool {
    match token {
        TokenView::Text(text) => is_plain(text),
        _ => true,
    }
}

/// Every text token of `tokens` holds plain bytes.
pub open spec fn texts_plain(tokens: Seq<TokenView>) -> bool {
    forall|i: int| 0 <= i < tokens.len() ==> is_plain_token(#[trigger] tokens[i])
}

/// `[from, to)` holds no line terminator.
pub open spec fn within_line(s: Seq<u8>, from: int, to: int) -> bool {
    forall|i: int| from <= i < to ==> !is_line_break(#[trigger] s[i])
}

/// `[from, to)` holds no backtick.
pub open spec fn no_backtick(s: Seq<u8>, from: int, to: int) -> bool {
    forall|i: int| from <= i < to ==> #[trigger] s[i] != BACKTICK
}

/// The text tokens of two runs, one after the other, are those of the two.
pub proof fn lemma_texts_concat(first: Seq<TokenView>, second: Seq<TokenView>)
    requires
        texts_plain(first),
        texts_plain(second),
    ensures
        texts_plain(first + second),
{
    assert forall|i: int| 0 <= i < (first + second).len() implies is_plain_token(
        #[trigger] (first + second)[i],
    ) by {
        if i < first.len() {
            assert((first + second)[i] == first[i]);
        } else {
            assert((first + second)[i] == second[i - first.len()]);
        }
    }
}

/// The pending text of a scan is plain.
proof fn lemma_text_run_plain(s: Seq<u8>, from: int, to: int)
    requires
        0 <= from,
        to <= s.len(),
        within_line(s, from, to),
        no_backtick(s, from, to),
    ensures
        texts_plain(text_run(s, from, to)),
{
    if from < to {
        let text = s.subrange(from, to);
        assert forall|i: int| 0 <= i < text.len() implies !is_line_break(#[trigger] text[i])
            && text[i] != BACKTICK by {
            assert(text[i] == s[from + i]);
        }
    }
}

/// The text tokens of a scan within one line are plain, the pending text
/// holding no backtick.
proof fn lemma_inline_from_plain(s: Seq<u8>, run: int, i: int, end: int, state: Emphasis)
    requires
        0 <= run <= i,
        end <= s.len(),
        within_line(s, run, end),
        no_backtick(s, run, i),
    ensures
        texts_plain(inline_from(s, run, i, end, state)),
    decreases end - i,
{
    if i >= end {
        if run < end {
            lemma_text_run_plain(s, run, end);
        }
    } else {
        match mark_at(s, i, end, state.code) {
            None => {
                lemma_inline_from_plain(s, run, i + 1, end, state);
            },
            Some(m) => {
                let text = text_run(s, run, i);
                lemma_text_run_plain(s, run, i);
                if is_empty_span(s, i, end, state, m) {
                    let next = i + 2 * m.width();
                    lemma_inline_from_plain(s, next, next, end, state);
                    lemma_texts_concat(text, inline_from(s, next, next, end, state));
                } else {
                    let next = i + m.width();
                    let token = seq![m.token(state.is_open(m))];
                    let rest = inline_from(s, next, next, end, state.toggled(m));
                    lemma_inline_from_plain(s, next, next, end, state.toggled(m));
                    lemma_texts_concat(text, token);
                    lemma_texts_concat(text + token, rest);
                }
            },
        }
    }
}

/// The text tokens of a region within one line are plain.
pub proof fn lemma_inline_plain(s: Seq<u8>, from: int, to: int)
    requires
        0 <= from,
        to <= s.len(),
        within_line(s, from, to),
    ensures
        texts_plain(inline_tokens(s, from, to)),
{
    lemma_inline_from_plain(s, from, from, to, Emphasis::closed());
}

/// Cutting whitespace off the end of a range leaves its start and does not
/// reach beyond its end.
proof fn lemma_trim_end(s: Seq<u8>, p: int, e: int)
    requires
        p <= e,
    ensures
        p <= trim_end(s, p, e) <= e,
    decreases e - p,
{
    let w = space_width(s, p, e);
    if w > 0 {
        lemma_trim_end(s, p, e - w);
    }
}

/// The text tokens of what is left of a line are plain.
proof fn lemma_line_content_plain(s: Seq<u8>, q: int, end: int)
    requires
        0 <= q <= end <= s.len(),
    ensures
        texts_plain(line_content(s, q, end)),
{
    let a = skip_spaces(s, q, end);
    lemma_skip_spaces(s, q, end);
    lemma_line_end(s, a, end);
    lemma_inline_plain(s, a, line_end(s, a, end));
}

/// The text tokens of the lines of a paragraph are plain.
proof fn lemma_paragraph_plain(s: Seq<u8>, p: int, end: int)
    requires
        0 <= p <= end <= s.len(),
    ensures
        texts_plain(paragraph_tokens(s, p, end)),
    decreases end - p,
{
    let e = line_end(s, p, end);
    let text = inline_tokens(s, p, trim_end(s, p, e));
    lemma_line_end(s, p, end);
    lemma_trim_end(s, p, e);
    lemma_inline_plain(s, p, trim_end(s, p, e));
    lemma_skip_spaces(s, e + terminator_len(s, e, end), end);
    let joint = if hard_break(s, p, e) {
        seq![TokenView::LineBreak]
    } else {
        seq![TokenView::Text(seq![SPACE])]
    };
    assert(texts_plain(joint));
    lemma_texts_concat(text, joint);
    if e < end {
        let n = next_line(s, e, end);
        lemma_paragraph_plain(s, n, end);
        lemma_texts_concat(text + joint, paragraph_tokens(s, n, end));
    }
}

/// No text token of a region is empty, and none holds a line terminator or
/// a backtick: a terminator ends the line that a text belongs to, and a
/// backtick is a delimiter wherever it stands.
pub proof fn lemma_lex_range_plain(s: Seq<u8>, p: int, end: int)
    requires
        0 <= p,
        end <= s.len(),
    ensures
        texts_plain(lex_range(s, p, end)),
    decreases end - p, 2int,
{
    let q = skip_spaces(s, p, end);
    lemma_skip_spaces(s, p, end);
    if q < end {
        lemma_block_end(s, q, end);
        lemma_block_plain(s, q, end);
        lemma_lex_range_plain(s, block_end(s, q, end), end);
        lemma_texts_concat(block_tokens(s, q, end), lex_range(s, block_end(s, q, end), end));
    }
}

/// A run of plain text tokens between two tokens that are no text is one.
proof fn lemma_wrap_plain(open: Seq<TokenView>, inner: Seq<TokenView>, close: Seq<TokenView>)
    requires
        texts_plain(open),
        texts_plain(inner),
        texts_plain(close),
    ensures
        texts_plain(open + inner + close),
{
    lemma_texts_concat(open, inner);
    lemma_texts_concat(open + inner, close);
}

/// The text tokens of a block are plain.
proof fn lemma_block_plain(s: Seq<u8>, p: int, end: int)
    requires
        0 <= p < end <= s.len(),
    ensures
        texts_plain(block_tokens(s, p, end)),
    decreases end - p, 1int,
{
    let q = after_marker(s, p, end);
    crate::lexer::grammar::lemma_after_marker(s, p, end);
    match line_type(s, p, end) {
        LineType::UnRecognized => {},
        LineType::HorizontalRule => {},
        LineType::Header(level) => {
            lemma_line_content_plain(s, q, end);
            lemma_wrap_plain(
                seq![TokenView::Header(level)],
                line_content(s, q, end),
                seq![TokenView::ClosedHeader(level)],
            );
        },
        LineType::UnorderedList => {
            lemma_line_content_plain(s, q, end);
            lemma_wrap_plain(
                seq![TokenView::UnorderedList, TokenView::Li],
                line_content(s, q, end),
                seq![TokenView::ClosedLi, TokenView::ClosedUnorderedList],
            );
        },
        LineType::OrderedList(start) => {
            lemma_line_content_plain(s, q, end);
            lemma_wrap_plain(
                seq![TokenView::OrderedList(start), TokenView::Li],
                line_content(s, q, end),
                seq![TokenView::ClosedLi, TokenView::ClosedOrderedList],
            );
        },
        LineType::Paragraph => {
            crate::lexer::grammar::lemma_paragraph_end(s, p, end);
            lemma_line_end(s, p, end);
            lemma_paragraph_plain(s, p, paragraph_end(s, p, end));
            lemma_wrap_plain(
                seq![TokenView::Paragraph],
                paragraph_tokens(s, p, paragraph_end(s, p, end)),
                seq![TokenView::ClosedParagraph],
            );
        },
        LineType::Blockquote => {
            lemma_quote_plain(s, p + 1, end);
            lemma_wrap_plain(
                seq![TokenView::Blockquote],
                quote_tokens(s, p + 1, end),
                seq![TokenView::ClosedBlockquote],
            );
        },
    }
}

/// The text tokens inside a blockquote are plain.
proof fn lemma_quote_plain(s: Seq<u8>, q: int, end: int)
    requires
        0 <= q <= end <= s.len(),
    ensures
        texts_plain(quote_tokens(s, q, end)),
    decreases end - q, 3int,
{
    let a = quote_content_start(s, q, end);
    let e = line_end(s, a, end);
    lemma_line_end(s, a, end);
    lemma_skip_spaces(s, e + terminator_len(s, e, end), end);
    lemma_lex_range_plain(s, a, e);
    if continues_quote(s, e, end) {
        let n = next_line(s, e, end) + 1;
        lemma_quote_plain(s, n, end);
        lemma_texts_concat(lex_range(s, a, e), quote_tokens(s, n, end));
    }
}

/// The text tokens of a whole buffer are plain, as
/// [`lemma_lex_range_plain`] says of every region.
pub proof fn lemma_lex_texts_plain(s: Seq<u8>)
    ensures
        texts_plain(lex(s)),
{
    lemma_lex_range_plain(s, 0, s.len() as int);
}

} // verus!
