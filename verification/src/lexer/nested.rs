//! The token stream is well nested: proofs over the grammar.

use crate::lexer::grammar::{
    after_marker, block_end, block_tokens, continues_quote, hard_break, inline_from,
    inline_tokens, is_empty_span, lemma_block_end, lemma_line_end, lemma_skip_spaces, lex,
    lex_range, line_content, line_end, line_type, mark_at, next_line, paragraph_end,
    paragraph_tokens, quote_content_start, quote_tokens, skip_spaces, terminator_len, text_run,
    trim_end, Emphasis, LineType,
};
use crate::nesting::{
    balanced, closers_matched, depth, lemma_concat, lemma_low_bounds, lemma_matched, lemma_single,
    low, Tag,
};
use crate::token::TokenView;
use crate::tokenizer::utils::SPACE;
use vstd::prelude::*;

verus! {

impl Emphasis {
    /// The number of spans of kind `tag` that are open: 1 or 0, and 0 for
    /// every block kind.
    pub open spec fn open_count(self, tag: Tag) -> int {
        match tag {
            Tag::Bold => if self.bold {
                1
            } else {
                0
            },
            Tag::Italic => if self.italic {
                1
            } else {
                0
            },
            Tag::Code => if self.code {
                1
            } else {
                0
            },
            _ => 0,
        }
    }
}

/// The spans that are open when a scan that stands at `i` with the spans of
/// `state` open has reached `end`.
pub open spec fn scan_state(s: Seq<u8>, i: int, end: int, state: Emphasis) -> Emphasis
    decreases end - i,
{
    if i >= end {
        state
    } else {
        match mark_at(s, i, end, state.code) {
            None => scan_state(s, i + 1, end, state),
            Some(m) => {
                if is_empty_span(s, i, end, state, m) {
                    scan_state(s, i + 2 * m.width(), end, state)
                } else {
                    scan_state(s, i + m.width(), end, state.toggled(m))
                }
            },
        }
    }
}

/// The spans that a scan of the region `[from, to)` leaves open.
pub open spec fn open_after(s: Seq<u8>, from: int, to: int) -> Emphasis {
    scan_state(s, from, to, Emphasis::closed())
}

/// How many spans of kind `tag` the lines of a paragraph that covers
/// `[p, end)` leave open: one for each line whose scan ends with that span
/// open.
pub open spec fn paragraph_left_open(s: Seq<u8>, p: int, end: int, tag: Tag) -> int
    decreases end - p,
    via paragraph_left_open_decreases
{
    let e = line_end(s, p, end);
    let here = open_after(s, p, trim_end(s, p, e)).open_count(tag);
    if e < end {
        here + paragraph_left_open(s, next_line(s, e, end), end, tag)
    } else {
        here
    }
}

#[via_fn]
proof fn paragraph_left_open_decreases(s: Seq<u8>, p: int, end: int, tag: Tag) {
    lemma_line_end(s, p, end);
    lemma_skip_spaces(s, line_end(s, p, end) + terminator_len(s, line_end(s, p, end), end), end);
}

/// How many spans of kind `tag` the rest of the line at `q` leaves open.
pub open spec fn line_left_open(s: Seq<u8>, q: int, end: int, tag: Tag) -> int {
    let a = skip_spaces(s, q, end);
    open_after(s, a, line_end(s, a, end)).open_count(tag)
}

/// How many spans of kind `tag` the region `[p, end)` leaves open: the sum
/// over the regions that its blocks scan for inline tokens.
pub open spec fn left_open_in(s: Seq<u8>, p: int, end: int, tag: Tag) -> int
    decreases end - p, 2int,
    via left_open_in_decreases
{
    let q = skip_spaces(s, p, end);
    if q < end {
        block_left_open(s, q, end, tag) + left_open_in(s, block_end(s, q, end), end, tag)
    } else {
        0
    }
}

/// How many spans of kind `tag` the block at `p` leaves open.
pub open spec fn block_left_open(s: Seq<u8>, p: int, end: int, tag: Tag) -> int
    decreases end - p, 1int,
    when p < end
{
    let q = after_marker(s, p, end);
    match line_type(s, p, end) {
        LineType::UnRecognized => 0,
        LineType::HorizontalRule => 0,
        LineType::Header(_) => line_left_open(s, q, end, tag),
        LineType::UnorderedList => line_left_open(s, q, end, tag),
        LineType::OrderedList(_) => line_left_open(s, q, end, tag),
        LineType::Paragraph => paragraph_left_open(s, p, paragraph_end(s, p, end), tag),
        LineType::Blockquote => quote_left_open(s, p + 1, end, tag),
    }
}

/// How many spans of kind `tag` the lines of a blockquote leave open, the
/// first of them having its `>` just before `q`.
pub open spec fn quote_left_open(s: Seq<u8>, q: int, end: int, tag: Tag) -> int
    decreases end - q, 3int,
    when q <= end
    via quote_left_open_decreases
{
    let a = quote_content_start(s, q, end);
    let e = line_end(s, a, end);
    if continues_quote(s, e, end) {
        left_open_in(s, a, e, tag) + quote_left_open(s, next_line(s, e, end) + 1, end, tag)
    } else {
        left_open_in(s, a, e, tag)
    }
}

#[via_fn]
proof fn left_open_in_decreases(s: Seq<u8>, p: int, end: int, tag: Tag) {
    lemma_skip_spaces(s, p, end);
    if skip_spaces(s, p, end) < end {
        lemma_block_end(s, skip_spaces(s, p, end), end);
    }
}

#[via_fn]
proof fn quote_left_open_decreases(s: Seq<u8>, q: int, end: int, tag: Tag) {
    let a = quote_content_start(s, q, end);
    lemma_line_end(s, a, end);
    lemma_skip_spaces(s, line_end(s, a, end) + terminator_len(s, line_end(s, a, end), end), end);
}

/// How many spans of kind `tag` the whole buffer leaves open.
pub open spec fn left_open(s: Seq<u8>, tag: Tag) -> int {
    left_open_in(s, 0, s.len() as int, tag)
}

/// `tokens` close nothing of kind `tag` that they did not open, and leave
/// `open` elements of that kind open.
pub open spec fn settled(tokens: Seq<TokenView>, tag: Tag, open: int) -> bool {
    low(tokens, tag) == 0 && depth(tokens, tag) == open && open >= 0
}

/// Two settled runs, one after the other, are settled, and leave open
/// what each of them does.
pub proof fn lemma_settled_concat(
    first: Seq<TokenView>,
    second: Seq<TokenView>,
    tag: Tag,
    m: int,
    n: int,
)
    requires
        settled(first, tag, m),
        settled(second, tag, n),
    ensures
        settled(first + second, tag, m + n),
{
    lemma_concat(first, second, tag);
}

/// A token that neither opens nor closes is settled by itself.
pub proof fn lemma_settled_plain(token: TokenView, tag: Tag)
    requires
        token.opens() is None,
        token.closes() is None,
    ensures
        settled(seq![token], tag, 0),
{
    lemma_single(token, tag);
}

/// A settled run between the opening and the closing token of one block
/// kind is settled, and leaves open what it did before.
pub proof fn lemma_settled_wrap(
    open: TokenView,
    inner: Seq<TokenView>,
    close: TokenView,
    tag: Tag,
    n: int,
)
    requires
        settled(inner, tag, n),
        open.opens() is Some,
        !open.opens()->0.is_inline(),
        close.closes() == open.opens(),
    ensures
        settled(seq![open] + inner + seq![close], tag, n),
{
    lemma_single(open, tag);
    lemma_single(close, tag);
    lemma_concat(seq![open], inner, tag);
    lemma_concat(seq![open] + inner, seq![close], tag);
}

/// The text of a region is settled.
pub proof fn lemma_settled_text(s: Seq<u8>, from: int, to: int, tag: Tag)
    ensures
        settled(text_run(s, from, to), tag, 0),
{
    if from < to {
        lemma_single(TokenView::Text(s.subrange(from, to)), tag);
    }
}

/// The tokens of a scan close at most the span that was open when it
/// started, and leave open what [`scan_state`] says.
pub proof fn lemma_inline_from(s: Seq<u8>, run: int, i: int, end: int, state: Emphasis, tag: Tag)
    ensures
        low(inline_from(s, run, i, end, state), tag) >= -state.open_count(tag),
        depth(inline_from(s, run, i, end, state), tag) + state.open_count(tag) == scan_state(
            s,
            i,
            end,
            state,
        ).open_count(tag),
    decreases end - i,
{
    if i >= end {
        lemma_settled_text(s, run, end, tag);
    } else {
        match mark_at(s, i, end, state.code) {
            None => {
                lemma_inline_from(s, run, i + 1, end, state, tag);
            },
            Some(m) => {
                let text = text_run(s, run, i);
                lemma_settled_text(s, run, i, tag);
                if is_empty_span(s, i, end, state, m) {
                    let next = i + 2 * m.width();
                    let rest = inline_from(s, next, next, end, state);
                    lemma_inline_from(s, next, next, end, state, tag);
                    lemma_concat(text, rest, tag);
                } else {
                    let next = i + m.width();
                    let token = m.token(state.is_open(m));
                    let rest = inline_from(s, next, next, end, state.toggled(m));
                    lemma_inline_from(s, next, next, end, state.toggled(m), tag);
                    lemma_single(token, tag);
                    lemma_concat(text, seq![token], tag);
                    lemma_concat(text + seq![token], rest, tag);
                    assert(token.step(tag) == state.toggled(m).open_count(tag) - state.open_count(
                        tag,
                    ));
                }
            },
        }
    }
}

/// The inline tokens of a region are settled, and leave open the spans
/// that the scan ends with.
pub proof fn lemma_inline_settled(s: Seq<u8>, from: int, to: int, tag: Tag)
    ensures
        settled(inline_tokens(s, from, to), tag, open_after(s, from, to).open_count(tag)),
{
    lemma_inline_from(s, from, from, to, Emphasis::closed(), tag);
    lemma_low_bounds(inline_tokens(s, from, to), tag);
}

/// The tokens of the lines of a paragraph are settled.
pub proof fn lemma_paragraph_settled(s: Seq<u8>, p: int, end: int, tag: Tag)
    ensures
        settled(paragraph_tokens(s, p, end), tag, paragraph_left_open(s, p, end, tag)),
    decreases end - p,
{
    let e = line_end(s, p, end);
    let text = inline_tokens(s, p, trim_end(s, p, e));
    let here = open_after(s, p, trim_end(s, p, e)).open_count(tag);
    lemma_inline_settled(s, p, trim_end(s, p, e), tag);
    lemma_line_end(s, p, end);
    lemma_skip_spaces(s, e + terminator_len(s, e, end), end);
    let joint = if hard_break(s, p, e) {
        TokenView::LineBreak
    } else {
        TokenView::Text(seq![SPACE])
    };
    lemma_settled_plain(joint, tag);
    if e < end {
        let n = next_line(s, e, end);
        lemma_paragraph_settled(s, n, end, tag);
        lemma_settled_concat(text, seq![joint], tag, here, 0);
        lemma_settled_concat(
            text + seq![joint],
            paragraph_tokens(s, n, end),
            tag,
            here,
            paragraph_left_open(s, n, end, tag),
        );
    } else if hard_break(s, p, e) {
        lemma_settled_concat(text, seq![joint], tag, here, 0);
    }
}

/// The tokens of a region are settled.
pub proof fn lemma_lex_range_settled(s: Seq<u8>, p: int, end: int, tag: Tag)
    ensures
        settled(lex_range(s, p, end), tag, left_open_in(s, p, end, tag)),
    decreases end - p, 2int,
{
    let q = skip_spaces(s, p, end);
    lemma_skip_spaces(s, p, end);
    if q < end {
        let r = block_end(s, q, end);
        lemma_block_end(s, q, end);
        lemma_block_settled(s, q, end, tag);
        lemma_lex_range_settled(s, r, end, tag);
        lemma_settled_concat(
            block_tokens(s, q, end),
            lex_range(s, r, end),
            tag,
            block_left_open(s, q, end, tag),
            left_open_in(s, r, end, tag),
        );
    } else {
        lemma_low_bounds(Seq::<TokenView>::empty(), tag);
    }
}

/// The inline tokens of the rest of a line, between the tokens that open
/// and close a block, are settled.
proof fn lemma_line_block_settled(
    open: TokenView,
    s: Seq<u8>,
    q: int,
    end: int,
    close: TokenView,
    tag: Tag,
)
    requires
        open.opens() is Some,
        !open.opens()->0.is_inline(),
        close.closes() == open.opens(),
    ensures
        settled(
            seq![open] + line_content(s, q, end) + seq![close],
            tag,
            line_left_open(s, q, end, tag),
        ),
{
    let a = skip_spaces(s, q, end);
    lemma_inline_settled(s, a, line_end(s, a, end), tag);
    lemma_settled_wrap(open, line_content(s, q, end), close, tag, line_left_open(s, q, end, tag));
}

/// The tokens of a block are settled.
pub proof fn lemma_block_settled(s: Seq<u8>, p: int, end: int, tag: Tag)
    requires
        p < end,
    ensures
        settled(block_tokens(s, p, end), tag, block_left_open(s, p, end, tag)),
    decreases end - p, 1int,
{
    let q = after_marker(s, p, end);
    let n = block_left_open(s, p, end, tag);
    match line_type(s, p, end) {
        LineType::UnRecognized => {
            lemma_low_bounds(Seq::<TokenView>::empty(), tag);
        },
        LineType::HorizontalRule => {
            lemma_settled_plain(TokenView::LineSeparator, tag);
        },
        LineType::Header(level) => {
            lemma_line_block_settled(
                TokenView::Header(level),
                s,
                q,
                end,
                TokenView::ClosedHeader(level),
                tag,
            );
        },
        LineType::UnorderedList => {
            let inner = seq![TokenView::Li] + line_content(s, q, end) + seq![TokenView::ClosedLi];
            lemma_line_block_settled(TokenView::Li, s, q, end, TokenView::ClosedLi, tag);
            lemma_settled_wrap(
                TokenView::UnorderedList,
                inner,
                TokenView::ClosedUnorderedList,
                tag,
                n,
            );
            assert(block_tokens(s, p, end) =~= seq![TokenView::UnorderedList] + inner
                + seq![TokenView::ClosedUnorderedList]);
        },
        LineType::OrderedList(start) => {
            let inner = seq![TokenView::Li] + line_content(s, q, end) + seq![TokenView::ClosedLi];
            lemma_line_block_settled(TokenView::Li, s, q, end, TokenView::ClosedLi, tag);
            lemma_settled_wrap(
                TokenView::OrderedList(start),
                inner,
                TokenView::ClosedOrderedList,
                tag,
                n,
            );
            assert(block_tokens(s, p, end) =~= seq![TokenView::OrderedList(start)] + inner
                + seq![TokenView::ClosedOrderedList]);
        },
        LineType::Paragraph => {
            lemma_paragraph_settled(s, p, paragraph_end(s, p, end), tag);
            lemma_settled_wrap(
                TokenView::Paragraph,
                paragraph_tokens(s, p, paragraph_end(s, p, end)),
                TokenView::ClosedParagraph,
                tag,
                n,
            );
        },
        LineType::Blockquote => {
            lemma_quote_settled(s, p + 1, end, tag);
            lemma_settled_wrap(
                TokenView::Blockquote,
                quote_tokens(s, p + 1, end),
                TokenView::ClosedBlockquote,
                tag,
                n,
            );
        },
    }
}

/// The tokens inside a blockquote are settled.
pub proof fn lemma_quote_settled(s: Seq<u8>, q: int, end: int, tag: Tag)
    requires
        q <= end,
    ensures
        settled(quote_tokens(s, q, end), tag, quote_left_open(s, q, end, tag)),
    decreases end - q, 3int,
{
    let a = quote_content_start(s, q, end);
    let e = line_end(s, a, end);
    lemma_line_end(s, a, end);
    lemma_skip_spaces(s, e + terminator_len(s, e, end), end);
    lemma_lex_range_settled(s, a, e, tag);
    if continues_quote(s, e, end) {
        let n = next_line(s, e, end) + 1;
        lemma_quote_settled(s, n, end, tag);
        lemma_settled_concat(
            lex_range(s, a, e),
            quote_tokens(s, n, end),
            tag,
            left_open_in(s, a, e, tag),
            quote_left_open(s, n, end, tag),
        );
    }
}

/// No scan leaves a block open: for a block kind the count of spans left
/// open is 0 in every region.
pub proof fn lemma_blocks_left_closed(s: Seq<u8>, p: int, end: int, tag: Tag)
    requires
        !tag.is_inline(),
    ensures
        left_open_in(s, p, end, tag) == 0,
    decreases end - p, 2int,
{
    let q = skip_spaces(s, p, end);
    lemma_skip_spaces(s, p, end);
    if q < end {
        lemma_block_end(s, q, end);
        lemma_block_left_closed(s, q, end, tag);
        lemma_blocks_left_closed(s, block_end(s, q, end), end, tag);
    }
}

/// The lines of a paragraph leave no block open.
proof fn lemma_paragraph_left_closed(s: Seq<u8>, p: int, end: int, tag: Tag)
    requires
        !tag.is_inline(),
    ensures
        paragraph_left_open(s, p, end, tag) == 0,
    decreases end - p,
{
    let e = line_end(s, p, end);
    lemma_line_end(s, p, end);
    lemma_skip_spaces(s, e + terminator_len(s, e, end), end);
    if e < end {
        lemma_paragraph_left_closed(s, next_line(s, e, end), end, tag);
    }
}

/// A block leaves no block open.
proof fn lemma_block_left_closed(s: Seq<u8>, p: int, end: int, tag: Tag)
    requires
        !tag.is_inline(),
        p < end,
    ensures
        block_left_open(s, p, end, tag) == 0,
    decreases end - p, 1int,
{
    match line_type(s, p, end) {
        LineType::Paragraph => {
            lemma_paragraph_left_closed(s, p, paragraph_end(s, p, end), tag);
        },
        LineType::Blockquote => {
            lemma_quote_left_closed(s, p + 1, end, tag);
        },
        _ => {},
    }
}

/// The lines of a blockquote leave no block open.
proof fn lemma_quote_left_closed(s: Seq<u8>, q: int, end: int, tag: Tag)
    requires
        !tag.is_inline(),
        q <= end,
    ensures
        quote_left_open(s, q, end, tag) == 0,
    decreases end - q, 3int,
{
    let a = quote_content_start(s, q, end);
    let e = line_end(s, a, end);
    lemma_line_end(s, a, end);
    lemma_skip_spaces(s, e + terminator_len(s, e, end), end);
    lemma_blocks_left_closed(s, a, e, tag);
    if continues_quote(s, e, end) {
        lemma_quote_left_closed(s, next_line(s, e, end) + 1, end, tag);
    }
}

/// The tokens of a region are well nested.
///
/// Every closing token has an opening token of its kind before it that no
/// other token closes. The number of elements that stay open is the number
/// of scans in the region that end with a span of that kind open. For a
/// block kind there is none, so its tokens pair up like brackets. For bold,
/// italic and code there is one for each line whose last delimiter of that
/// kind opens a span: the stream then holds the opening token and no
/// closing one, and a reader of the stream has to put up with that.
pub proof fn lemma_lex_range_well_nested(s: Seq<u8>, p: int, end: int, tag: Tag)
    ensures
        closers_matched(lex_range(s, p, end), tag),
        depth(lex_range(s, p, end), tag) == left_open_in(s, p, end, tag),
        balanced(lex_range(s, p, end), tag) <==> left_open_in(s, p, end, tag) == 0,
        !tag.is_inline() ==> balanced(lex_range(s, p, end), tag),
{
    lemma_lex_range_settled(s, p, end, tag);
    lemma_matched(lex_range(s, p, end), tag);
    if !tag.is_inline() {
        lemma_blocks_left_closed(s, p, end, tag);
    }
}

/// The tokens of a whole buffer are well nested, as
/// [`lemma_lex_range_well_nested`] says of every region.
pub proof fn lemma_lex_well_nested(s: Seq<u8>, tag: Tag)
    ensures
        closers_matched(lex(s), tag),
        depth(lex(s), tag) == left_open(s, tag),
        balanced(lex(s), tag) <==> left_open(s, tag) == 0,
        !tag.is_inline() ==> balanced(lex(s), tag),
{
    lemma_lex_range_well_nested(s, 0, s.len() as int, tag);
}

/// In the inline tokens of one region every closing token has its opening
/// token before it, and a kind stays open, once, exactly where the scan
/// ends with that span open. The text `**a` is such a region: its tokens
/// open a bold span and never close it.
pub proof fn lemma_inline_nesting(s: Seq<u8>, from: int, to: int, tag: Tag)
    ensures
        closers_matched(inline_tokens(s, from, to), tag),
        depth(inline_tokens(s, from, to), tag) == open_after(s, from, to).open_count(tag),
        balanced(inline_tokens(s, from, to), tag) <==> open_after(s, from, to).open_count(tag)
            == 0,
{
    lemma_inline_settled(s, from, to, tag);
    lemma_matched(inline_tokens(s, from, to), tag);
}

} // verus!
