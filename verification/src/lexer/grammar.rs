//! What the lexer computes, written as functions from bytes to tokens.
//!
//! Every function here looks at a buffer `s` through a window: positions run
//! from some `p` up to an exclusive `end`. The executable code in this crate
//! is proved against these definitions.

use crate::token::TokenView;
use crate::tokenizer::utils::{
    is_digit, is_line_break, BACKTICK, CR, DASH, DOT, HASH, LF, QUOTE, SPACE, STAR, UNDERSCORE,
};
use vstd::prelude::*;
use vstd::utf8::is_continuation_byte;

verus! {

/// How the line that starts at some position is read.
#[derive(Debug, Clone, Copy, PartialEq, Eq)]
pub enum LineType {
    /// One to six `#` and a space; holds the count.
    Header(usize),
    /// Plain text: the fallback for everything that is nothing else.
    Paragraph,
    /// A line that starts with `>`.
    Blockquote,
    /// Digits and a `.`; holds the number.
    OrderedList(u32),
    /// `-` and a space.
    UnorderedList,
    /// A line made of rule characters alone.
    HorizontalRule,
    /// A line terminator: the line is blank.
    UnRecognized,
}

/* Lines */

/// A carriage return at `p` with its line feed right after it.
pub open spec fn is_crlf(s: Seq<u8>, p: int, end: int) -> bool {
    p + 1 < end && s[p] == CR && s[p + 1] == LF
}

/// The byte the cursor reports at `p`: a carriage return and line feed pair
/// reads as one line feed, every other byte as itself.
pub open spec fn logical_byte(s: Seq<u8>, p: int, end: int) -> u8 {
    if is_crlf(s, p, end) {
        LF
    } else {
        s[p]
    }
}

/// How many raw bytes the byte reported at `p` takes up.
pub open spec fn logical_width(s: Seq<u8>, p: int, end: int) -> int {
    if is_crlf(s, p, end) {
        2
    } else {
        1
    }
}

/// The first position from `p` on that holds a line terminator, or `end`.
pub open spec fn line_end(s: Seq<u8>, p: int, end: int) -> int
    decreases end - p,
{
    if p < end && !is_line_break(s[p]) {
        line_end(s, p + 1, end)
    } else {
        p
    }
}

/// The width of the line terminator at `p`: 2 for a carriage return and line
/// feed, 1 for either of them alone, 0 where no line ends.
pub open spec fn terminator_len(s: Seq<u8>, p: int, end: int) -> int {
    if p < end && is_line_break(s[p]) {
        logical_width(s, p, end)
    } else {
        0
    }
}

/// The first position from `p` on that holds no space, or `end`.
pub open spec fn skip_spaces(s: Seq<u8>, p: int, end: int) -> int
    decreases end - p,
{
    if p < end && s[p] == SPACE {
        skip_spaces(s, p + 1, end)
    } else {
        p
    }
}

/// Where the text of the following line starts: after the terminator at `e`
/// and the spaces that indent the line.
pub open spec fn next_line(s: Seq<u8>, e: int, end: int) -> int {
    skip_spaces(s, e + terminator_len(s, e, end), end)
}

/* Line classification */

/// How many times `b` repeats from `p` on.
pub open spec fn run_len(s: Seq<u8>, p: int, end: int, b: u8) -> int
    decreases end - p,
{
    if p < end && s[p] == b {
        1 + run_len(s, p + 1, end, b)
    } else {
        0
    }
}

/// `[p, e)` holds two or more bytes, all of them `b`.
pub open spec fn is_run_of(s: Seq<u8>, p: int, e: int, b: u8) -> bool {
    e - p >= 2 && forall|i: int| p <= i < e ==> s[i] == b
}

/// `*`, `-` or `_`.
pub open spec fn is_rule_byte(b: u8) -> bool {
    b == STAR || b == DASH || b == UNDERSCORE
}

/// The line at `p` is a horizontal rule: it starts with a rule character, and
/// what is left of it is a run of two or more of one rule character.
pub open spec fn is_rule(s: Seq<u8>, p: int, end: int) -> bool {
    let e = line_end(s, p, end);
    is_rule_byte(s[p]) && (is_run_of(s, p + 1, e, STAR) || is_run_of(s, p + 1, e, DASH)
        || is_run_of(s, p + 1, e, UNDERSCORE))
}

/// How many decimal digits stand at `p`.
pub open spec fn digit_run(s: Seq<u8>, p: int, end: int) -> int
    decreases end - p,
{
    if p < end && is_digit(s[p]) {
        1 + digit_run(s, p + 1, end)
    } else {
        0
    }
}

/// The number that the digits in `[p, q)` write.
pub open spec fn decimal(s: Seq<u8>, p: int, q: int) -> nat
    decreases q - p,
{
    if p < q {
        decimal(s, p, q - 1) * 10 + (s[q - 1] - 0x30) as nat
    } else {
        0
    }
}

/// The line at `p` starts an ordered list item: digits, then `.`, and the
/// number fits the token.
pub open spec fn is_ordered_item(s: Seq<u8>, p: int, end: int) -> bool {
    let d = digit_run(s, p, end);
    d >= 1 && p + d < end && s[p + d] == DOT && decimal(s, p, p + d) <= u32::MAX
}

/// The first position from `p` on that holds no continuation byte of a
/// multi-byte character, or `end`.
pub open spec fn skip_continuation(s: Seq<u8>, p: int, end: int) -> int
    decreases end - p,
{
    if p < end && is_continuation_byte(s[p]) {
        skip_continuation(s, p + 1, end)
    } else {
        p
    }
}

/// Where an ordered item's text may start, given the position `p` after the
/// `.`: one character further, unless the line ends at `p`.
pub open spec fn after_item_marker(s: Seq<u8>, p: int, end: int) -> int {
    if p < end && !is_line_break(s[p]) {
        skip_continuation(s, p + 1, end)
    } else {
        p
    }
}

/// The header level of the line at `p`, if it is a header: the count of `#`,
/// when that is at most six and a space follows.
pub open spec fn header_level(s: Seq<u8>, p: int, end: int) -> Option<int> {
    let n = run_len(s, p, end, HASH);
    if 1 <= n <= 6 && p + n < end && s[p + n] == SPACE {
        Some(n)
    } else {
        None
    }
}

/// The classification of the line whose first byte is at `p`.
pub open spec fn line_type(s: Seq<u8>, p: int, end: int) -> LineType
    recommends
        0 <= p < end <= s.len(),
{
    if is_line_break(s[p]) {
        LineType::UnRecognized
    } else if s[p] == HASH {
        match header_level(s, p, end) {
            Some(n) => LineType::Header(n as usize),
            None => LineType::Paragraph,
        }
    } else if s[p] == QUOTE {
        LineType::Blockquote
    } else if s[p] == DASH && p + 1 < end && s[p + 1] == SPACE {
        LineType::UnorderedList
    } else if is_ordered_item(s, p, end) {
        LineType::OrderedList(decimal(s, p, p + digit_run(s, p, end)) as u32)
    } else if is_rule(s, p, end) {
        LineType::HorizontalRule
    } else {
        LineType::Paragraph
    }
}

/// Where the cursor rests once the line at `p` is classified: after what the
/// classification consumed, and at `p` itself for a paragraph.
pub open spec fn after_marker(s: Seq<u8>, p: int, end: int) -> int
    recommends
        0 <= p < end <= s.len(),
{
    match line_type(s, p, end) {
        LineType::UnRecognized => p + terminator_len(s, p, end),
        LineType::Header(_) => p + run_len(s, p, end, HASH),
        LineType::Blockquote => p + 1,
        LineType::UnorderedList => p + 1,
        LineType::OrderedList(_) => after_item_marker(s, p + digit_run(s, p, end) + 1, end),
        LineType::HorizontalRule => line_end(s, p, end),
        LineType::Paragraph => p,
    }
}

/* Inline content */

/// The three kinds of inline span.
#[derive(Debug, Clone, Copy, PartialEq, Eq)]
pub enum Mark {
    Bold,
    Italic,
    Code,
}

/// Which inline spans are open at some point of a scan.
#[derive(Debug, Clone, Copy, PartialEq, Eq)]
pub struct Emphasis {
    pub bold: bool,
    pub italic: bool,
    pub code: bool,
}

impl Mark {
    /// The number of bytes of the delimiter: two for bold, one otherwise.
    pub open spec fn width(self) -> int {
        match self {
            Mark::Bold => 2,
            Mark::Italic => 1,
            Mark::Code => 1,
        }
    }

    /// The token a delimiter of this kind emits: the closing one where the
    /// span is open, the opening one where it is not.
    pub open spec fn token(self, open: bool) -> TokenView {
        match self {
            Mark::Bold => if open {
                TokenView::ClosedBold
            } else {
                TokenView::Bold
            },
            Mark::Italic => if open {
                TokenView::ClosedItalic
            } else {
                TokenView::Italic
            },
            Mark::Code => if open {
                TokenView::ClosedCode
            } else {
                TokenView::Code
            },
        }
    }
}

impl Emphasis {
    /// No span is open.
    pub open spec fn closed() -> Emphasis {
        Emphasis { bold: false, italic: false, code: false }
    }

    /// Whether the span of kind `m` is open.
    pub open spec fn is_open(self, m: Mark) -> bool {
        match m {
            Mark::Bold => self.bold,
            Mark::Italic => self.italic,
            Mark::Code => self.code,
        }
    }

    /// The state after a delimiter of kind `m`.
    pub open spec fn toggled(self, m: Mark) -> Emphasis {
        match m {
            Mark::Bold => Emphasis { bold: !self.bold, ..self },
            Mark::Italic => Emphasis { italic: !self.italic, ..self },
            Mark::Code => Emphasis { code: !self.code, ..self },
        }
    }
}

/// The delimiter that starts at `i`, if one does. A backtick always counts.
/// Inside a code span nothing else does; outside, `**` is bold, which is
/// looked for first, and a single `*` or `_` is italic.
pub open spec fn mark_at(s: Seq<u8>, i: int, end: int, in_code: bool) -> Option<Mark> {
    if i >= end {
        None
    } else if s[i] == BACKTICK {
        Some(Mark::Code)
    } else if in_code {
        None
    } else if s[i] == STAR && i + 1 < end && s[i + 1] == STAR {
        Some(Mark::Bold)
    } else if s[i] == STAR || s[i] == UNDERSCORE {
        Some(Mark::Italic)
    } else {
        None
    }
}

/// The delimiter of kind `m` at `i` would open a span that the very next
/// delimiter closes again. Such a pair is dropped.
pub open spec fn is_empty_span(s: Seq<u8>, i: int, end: int, state: Emphasis, m: Mark) -> bool {
    !state.is_open(m) && mark_at(s, i + m.width(), end, state.toggled(m).code) == Some(m)
}

/// The text token for the bytes in `[from, to)`; nothing for an empty range.
pub open spec fn text_run(s: Seq<u8>, from: int, to: int) -> Seq<TokenView> {
    if from < to {
        seq![TokenView::Text(s.subrange(from, to))]
    } else {
        seq![]
    }
}

/// The tokens of a scan that stands at `i` with the text since `run` pending
/// and the spans of `state` open.
pub open spec fn inline_from(s: Seq<u8>, run: int, i: int, end: int, state: Emphasis) -> Seq<
    TokenView,
>
    decreases end - i,
{
    if i >= end {
        text_run(s, run, end)
    } else {
        match mark_at(s, i, end, state.code) {
            None => inline_from(s, run, i + 1, end, state),
            Some(m) => {
                if is_empty_span(s, i, end, state, m) {
                    let next = i + 2 * m.width();
                    text_run(s, run, i) + inline_from(s, next, next, end, state)
                } else {
                    let next = i + m.width();
                    text_run(s, run, i) + seq![m.token(state.is_open(m))] + inline_from(
                        s,
                        next,
                        next,
                        end,
                        state.toggled(m),
                    )
                }
            },
        }
    }
}

/// The inline tokens of the region `[from, to)`: its text, cut at the
/// emphasis and code delimiters, with a token for each delimiter.
pub open spec fn inline_tokens(s: Seq<u8>, from: int, to: int) -> Seq<TokenView> {
    inline_from(s, from, from, to, Emphasis::closed())
}

/// The inline tokens of what is left of the line at `q`, spaces in front of
/// it skipped.
pub open spec fn line_content(s: Seq<u8>, q: int, end: int) -> Seq<TokenView> {
    let a = skip_spaces(s, q, end);
    inline_tokens(s, a, line_end(s, a, end))
}

/// The end of the line whose content [`line_content`] reads.
pub open spec fn content_end(s: Seq<u8>, q: int, end: int) -> int {
    line_end(s, skip_spaces(s, q, end), end)
}

/* Paragraphs */

/// The three bytes encode one of the whitespace characters that take three
/// bytes: U+1680, U+2000 to U+200A, U+2028, U+2029, U+202F, U+205F, U+3000.
pub open spec fn is_wide_space(a: u8, b: u8, c: u8) -> bool {
    ||| (a == 0xe1 && b == 0x9a && c == 0x80)
    ||| (a == 0xe2 && b == 0x80 && (0x80 <= c <= 0x8a || c == 0xa8 || c == 0xa9 || c == 0xaf))
    ||| (a == 0xe2 && b == 0x81 && c == 0x9f)
    ||| (a == 0xe3 && b == 0x80 && c == 0x80)
}

/// The width in bytes of the whitespace character that ends `[p, e)`, or 0
/// where the range does not end in whitespace. Whitespace is U+0009 to
/// U+000D, the space, U+0085, U+00A0 and the characters of [`is_wide_space`].
pub open spec fn space_width(s: Seq<u8>, p: int, e: int) -> int {
    if e - p >= 1 && (s[e - 1] == SPACE || 0x09 <= s[e - 1] <= 0x0d) {
        1
    } else if e - p >= 2 && s[e - 2] == 0xc2 && (s[e - 1] == 0x85 || s[e - 1] == 0xa0) {
        2
    } else if e - p >= 3 && is_wide_space(s[e - 3], s[e - 2], s[e - 1]) {
        3
    } else {
        0
    }
}

/// Where `[p, e)` ends once the whitespace at its end is cut off.
pub open spec fn trim_end(s: Seq<u8>, p: int, e: int) -> int
    decreases e - p,
{
    let w = space_width(s, p, e);
    if w > 0 {
        trim_end(s, p, e - w)
    } else {
        e
    }
}

/// The line `[p, e)` ends in two spaces: a hard line break.
pub open spec fn hard_break(s: Seq<u8>, p: int, e: int) -> bool {
    e - p >= 2 && s[e - 1] == SPACE && s[e - 2] == SPACE
}

/// The line after the terminator at `e` goes on with the paragraph: there
/// is such a line, it is not blank, and it is classified as a paragraph.
pub open spec fn continues_paragraph(s: Seq<u8>, e: int, end: int) -> bool {
    let n = next_line(s, e, end);
    e < end && n < end && line_type(s, n, end) == LineType::Paragraph
}

/// The end of the paragraph whose first line has its text at `p`: the end of
/// the last of the consecutive paragraph lines.
pub open spec fn paragraph_end(s: Seq<u8>, p: int, end: int) -> int
    decreases end - p,
    via paragraph_end_decreases
{
    let e = line_end(s, p, end);
    if continues_paragraph(s, e, end) {
        paragraph_end(s, next_line(s, e, end), end)
    } else {
        e
    }
}

#[via_fn]
proof fn paragraph_end_decreases(s: Seq<u8>, p: int, end: int) {
    lemma_line_end(s, p, end);
    lemma_skip_spaces(s, line_end(s, p, end) + terminator_len(s, line_end(s, p, end), end), end);
}

/// The tokens of the lines of a paragraph that covers `[p, end)`, `p` being
/// where the text of a line starts. Each line gives the inline tokens of its
/// text without the whitespace at its end. A line that ends in two spaces is
/// followed by a line break; any other line but the last by one space.
pub open spec fn paragraph_tokens(s: Seq<u8>, p: int, end: int) -> Seq<TokenView>
    decreases end - p,
    via paragraph_tokens_decreases
{
    let e = line_end(s, p, end);
    let text = inline_tokens(s, p, trim_end(s, p, e));
    if hard_break(s, p, e) {
        if e < end {
            text + seq![TokenView::LineBreak] + paragraph_tokens(s, next_line(s, e, end), end)
        } else {
            text + seq![TokenView::LineBreak]
        }
    } else {
        if e < end {
            text + seq![TokenView::Text(seq![SPACE])] + paragraph_tokens(
                s,
                next_line(s, e, end),
                end,
            )
        } else {
            text
        }
    }
}

#[via_fn]
proof fn paragraph_tokens_decreases(s: Seq<u8>, p: int, end: int) {
    lemma_line_end(s, p, end);
    lemma_skip_spaces(s, line_end(s, p, end) + terminator_len(s, line_end(s, p, end), end), end);
}

/// The tokens of the paragraph whose first line has its text at `p`: those
/// of its lines, wrapped.
pub open spec fn paragraph_block(s: Seq<u8>, p: int, end: int) -> Seq<TokenView> {
    seq![TokenView::Paragraph] + paragraph_tokens(s, p, paragraph_end(s, p, end))
        + seq![TokenView::ClosedParagraph]
}

/* Blockquotes */

/// Where the content of a quoted line starts, given the position `q` after
/// its `>`: after one space, if there is one.
pub open spec fn quote_content_start(s: Seq<u8>, q: int, end: int) -> int {
    if q < end && s[q] == SPACE {
        q + 1
    } else {
        q
    }
}

/// The line after the terminator at `e` goes on with the blockquote: it
/// starts with `>`.
pub open spec fn continues_quote(s: Seq<u8>, e: int, end: int) -> bool {
    let n = next_line(s, e, end);
    e < end && n < end && s[n] == QUOTE
}

/// The end of the blockquote whose first line has its `>` just before `q`:
/// the end of the last of the consecutive quoted lines.
pub open spec fn quote_end(s: Seq<u8>, q: int, end: int) -> int
    decreases end - q,
    via quote_end_decreases
{
    let e = line_end(s, quote_content_start(s, q, end), end);
    if continues_quote(s, e, end) {
        quote_end(s, next_line(s, e, end) + 1, end)
    } else {
        e
    }
}

#[via_fn]
proof fn quote_end_decreases(s: Seq<u8>, q: int, end: int) {
    let a = quote_content_start(s, q, end);
    lemma_line_end(s, a, end);
    lemma_skip_spaces(s, line_end(s, a, end) + terminator_len(s, line_end(s, a, end), end), end);
}

/* Blocks and the whole stream */

/// Where the cursor rests after the block whose first byte is at `p`.
pub open spec fn block_end(s: Seq<u8>, p: int, end: int) -> int
    recommends
        0 <= p < end <= s.len(),
{
    let q = after_marker(s, p, end);
    match line_type(s, p, end) {
        LineType::UnRecognized => q,
        LineType::HorizontalRule => q,
        LineType::Header(_) => content_end(s, q, end),
        LineType::UnorderedList => content_end(s, q, end),
        LineType::OrderedList(_) => content_end(s, q, end),
        LineType::Paragraph => paragraph_end(s, q, end),
        LineType::Blockquote => quote_end(s, q, end),
    }
}

/// The tokens of the region `[p, end)`: those of its blocks, one after the
/// other. Spaces in front of a block are skipped.
pub open spec fn lex_range(s: Seq<u8>, p: int, end: int) -> Seq<TokenView>
    decreases end - p, 2int,
    via lex_range_decreases
{
    let q = skip_spaces(s, p, end);
    if q < end {
        block_tokens(s, q, end) + lex_range(s, block_end(s, q, end), end)
    } else {
        seq![]
    }
}

/// The tokens of the block whose first byte is at `p`.
///
/// A blank line gives none and a rule gives the separator. A header and a
/// list item wrap the inline tokens of the rest of their line. A paragraph
/// wraps the tokens of its lines. A blockquote wraps what its lines hold.
pub open spec fn block_tokens(s: Seq<u8>, p: int, end: int) -> Seq<TokenView>
    recommends
        0 <= p < end <= s.len(),
    decreases end - p, 1int,
    when p < end
{
    let q = after_marker(s, p, end);
    match line_type(s, p, end) {
        LineType::UnRecognized => seq![],
        LineType::HorizontalRule => seq![TokenView::LineSeparator],
        LineType::Header(level) => seq![TokenView::Header(level)] + line_content(s, q, end)
            + seq![TokenView::ClosedHeader(level)],
        LineType::UnorderedList => seq![TokenView::UnorderedList, TokenView::Li] + line_content(
            s,
            q,
            end,
        ) + seq![TokenView::ClosedLi, TokenView::ClosedUnorderedList],
        LineType::OrderedList(start) => seq![TokenView::OrderedList(start), TokenView::Li]
            + line_content(s, q, end) + seq![TokenView::ClosedLi, TokenView::ClosedOrderedList],
        LineType::Paragraph => paragraph_block(s, p, end),
        LineType::Blockquote => seq![TokenView::Blockquote] + quote_tokens(s, p + 1, end)
            + seq![TokenView::ClosedBlockquote],
    }
}

/// The tokens inside a blockquote whose first line has its `>` just before
/// `q`. The content of each quoted line is lexed as a region of its own.
pub open spec fn quote_tokens(s: Seq<u8>, q: int, end: int) -> Seq<TokenView>
    decreases end - q, 3int,
    when q <= end
    via quote_tokens_decreases
{
    let a = quote_content_start(s, q, end);
    let e = line_end(s, a, end);
    if continues_quote(s, e, end) {
        lex_range(s, a, e) + quote_tokens(s, next_line(s, e, end) + 1, end)
    } else {
        lex_range(s, a, e)
    }
}

#[via_fn]
proof fn lex_range_decreases(s: Seq<u8>, p: int, end: int) {
    lemma_skip_spaces(s, p, end);
    if skip_spaces(s, p, end) < end {
        lemma_block_end(s, skip_spaces(s, p, end), end);
    }
}

#[via_fn]
proof fn quote_tokens_decreases(s: Seq<u8>, q: int, end: int) {
    let a = quote_content_start(s, q, end);
    lemma_line_end(s, a, end);
    lemma_skip_spaces(s, line_end(s, a, end) + terminator_len(s, line_end(s, a, end), end), end);
}

/// The tokens of a whole buffer.
pub open spec fn lex(s: Seq<u8>) -> Seq<TokenView> {
    lex_range(s, 0, s.len() as int)
}

/* Facts about positions */

/// A line ends at or after its start and within the window, no byte before
/// its end is a terminator, and one stands at its end unless that is `end`.
pub proof fn lemma_line_end(s: Seq<u8>, p: int, end: int)
    ensures
        p <= line_end(s, p, end),
        p <= end ==> line_end(s, p, end) <= end,
        forall|i: int| p <= i < line_end(s, p, end) ==> !is_line_break(#[trigger] s[i]),
        line_end(s, p, end) < end ==> is_line_break(s[line_end(s, p, end)]),
    decreases end - p,
{
    if p < end && !is_line_break(s[p]) {
        lemma_line_end(s, p + 1, end);
    }
}

/// Skipping spaces stays within the window, passes over spaces only, and
/// stops at a byte that is none.
pub proof fn lemma_skip_spaces(s: Seq<u8>, p: int, end: int)
    ensures
        p <= skip_spaces(s, p, end),
        p <= end ==> skip_spaces(s, p, end) <= end,
        forall|i: int| p <= i < skip_spaces(s, p, end) ==> #[trigger] s[i] == SPACE,
        skip_spaces(s, p, end) < end ==> s[skip_spaces(s, p, end)] != SPACE,
    decreases end - p,
{
    if p < end && s[p] == SPACE {
        lemma_skip_spaces(s, p + 1, end);
    }
}

/// The position `e` is where the line at `p` ends, if no byte in `[p, e)`
/// is a terminator and one stands at `e`, or `e` is `end`.
pub proof fn lemma_line_end_is(s: Seq<u8>, p: int, e: int, end: int)
    requires
        p <= e <= end,
        forall|i: int| p <= i < e ==> !is_line_break(#[trigger] s[i]),
        e < end ==> is_line_break(s[e]),
    ensures
        line_end(s, p, end) == e,
    decreases e - p,
{
    if p < e {
        lemma_line_end_is(s, p + 1, e, end);
    }
}

/// The position `e` is where the spaces at `p` end, if every byte in
/// `[p, e)` is a space and the byte at `e` is none, or `e` is `end`.
pub proof fn lemma_skip_spaces_is(s: Seq<u8>, p: int, e: int, end: int)
    requires
        p <= e <= end,
        forall|i: int| p <= i < e ==> #[trigger] s[i] == SPACE,
        e < end ==> s[e] != SPACE,
    ensures
        skip_spaces(s, p, end) == e,
    decreases e - p,
{
    if p < e {
        lemma_skip_spaces_is(s, p + 1, e, end);
    }
}

/// Skipping continuation bytes stays within the window and stops at a byte
/// that is none.
pub proof fn lemma_skip_continuation(s: Seq<u8>, p: int, end: int)
    ensures
        p <= skip_continuation(s, p, end),
        p <= end ==> skip_continuation(s, p, end) <= end,
        forall|i: int|
            p <= i < skip_continuation(s, p, end) ==> is_continuation_byte(#[trigger] s[i]),
        skip_continuation(s, p, end) < end ==> !is_continuation_byte(
            s[skip_continuation(s, p, end)],
        ),
    decreases end - p,
{
    if p < end && is_continuation_byte(s[p]) {
        lemma_skip_continuation(s, p + 1, end);
    }
}

/// A run is no longer than the window, and the byte after it differs.
pub proof fn lemma_run_len(s: Seq<u8>, p: int, end: int, b: u8)
    ensures
        0 <= run_len(s, p, end, b),
        p <= end ==> run_len(s, p, end, b) <= end - p,
        forall|i: int| p <= i < p + run_len(s, p, end, b) ==> #[trigger] s[i] == b,
        p + run_len(s, p, end, b) < end ==> s[p + run_len(s, p, end, b)] != b,
    decreases end - p,
{
    if p < end && s[p] == b {
        lemma_run_len(s, p + 1, end, b);
    }
}

/// A run of digits is no longer than the window, and the byte after it is
/// no digit.
pub proof fn lemma_digit_run(s: Seq<u8>, p: int, end: int)
    ensures
        0 <= digit_run(s, p, end),
        p <= end ==> digit_run(s, p, end) <= end - p,
        forall|i: int| p <= i < p + digit_run(s, p, end) ==> is_digit(#[trigger] s[i]),
        p + digit_run(s, p, end) < end ==> !is_digit(s[p + digit_run(s, p, end)]),
    decreases end - p,
{
    if p < end && is_digit(s[p]) {
        lemma_digit_run(s, p + 1, end);
    }
}

/// The cursor rests within the window once a line is classified, and after
/// the first byte of the line unless that line is a paragraph.
pub proof fn lemma_after_marker(s: Seq<u8>, p: int, end: int)
    requires
        p < end,
    ensures
        p <= after_marker(s, p, end) <= end,
        line_type(s, p, end) != LineType::Paragraph ==> p < after_marker(s, p, end),
        line_type(s, p, end) == LineType::Paragraph ==> !is_line_break(s[p]),
{
    lemma_run_len(s, p, end, HASH);
    lemma_digit_run(s, p, end);
    lemma_line_end(s, p, end);
    let d = digit_run(s, p, end);
    if is_ordered_item(s, p, end) {
        lemma_skip_continuation(s, p + d + 2, end);
    }
}

/// A paragraph ends where one of its lines ends: at or after the end of
/// its first line, and within the window.
pub proof fn lemma_paragraph_end(s: Seq<u8>, p: int, end: int)
    ensures
        line_end(s, p, end) <= paragraph_end(s, p, end),
        p <= end ==> paragraph_end(s, p, end) <= end,
        paragraph_end(s, p, end) < end ==> is_line_break(s[paragraph_end(s, p, end)]),
    decreases end - p,
{
    let e = line_end(s, p, end);
    lemma_line_end(s, p, end);
    if continues_paragraph(s, e, end) {
        let n = next_line(s, e, end);
        lemma_skip_spaces(s, e + terminator_len(s, e, end), end);
        lemma_paragraph_end(s, n, end);
        lemma_line_end(s, n, end);
    }
}

/// A blockquote ends where one of its lines ends, within the window.
pub proof fn lemma_quote_end(s: Seq<u8>, q: int, end: int)
    ensures
        q <= quote_end(s, q, end),
        q <= end ==> quote_end(s, q, end) <= end,
        quote_end(s, q, end) < end ==> is_line_break(s[quote_end(s, q, end)]),
    decreases end - q,
{
    let a = quote_content_start(s, q, end);
    let e = line_end(s, a, end);
    lemma_line_end(s, a, end);
    if continues_quote(s, e, end) {
        lemma_skip_spaces(s, e + terminator_len(s, e, end), end);
        lemma_quote_end(s, next_line(s, e, end) + 1, end);
    }
}

/// Every block is longer than nothing and ends within the window.
pub proof fn lemma_block_end(s: Seq<u8>, p: int, end: int)
    requires
        p < end,
    ensures
        p < block_end(s, p, end) <= end,
{
    let q = after_marker(s, p, end);
    lemma_after_marker(s, p, end);
    lemma_skip_spaces(s, q, end);
    lemma_line_end(s, skip_spaces(s, q, end), end);
    lemma_line_end(s, p, end);
    lemma_paragraph_end(s, q, end);
    lemma_quote_end(s, q, end);
}

/* Blank input */

/// `[p, end)` holds nothing but spaces and line terminators.
pub open spec fn is_blank(s: Seq<u8>, p: int, end: int) -> bool {
    forall|i: int| p <= i < end ==> (#[trigger] s[i] == SPACE || is_line_break(s[i]))
}

/// A region that holds nothing but spaces and line terminators has no
/// tokens.
pub proof fn lemma_lex_range_blank(s: Seq<u8>, p: int, end: int)
    requires
        is_blank(s, p, end),
    ensures
        lex_range(s, p, end) == Seq::<TokenView>::empty(),
    decreases end - p,
{
    let q = skip_spaces(s, p, end);
    lemma_skip_spaces(s, p, end);
    if q < end {
        assert(is_line_break(s[q]));
        lemma_block_end(s, q, end);
        lemma_lex_range_blank(s, block_end(s, q, end), end);
        assert(block_tokens(s, q, end) + lex_range(s, block_end(s, q, end), end)
            =~= Seq::<TokenView>::empty());
    }
}

/// A buffer that holds nothing but spaces and line terminators has no
/// tokens. The empty buffer is one.
pub proof fn lemma_lex_blank(s: Seq<u8>)
    requires
        is_blank(s, 0, s.len() as int),
    ensures
        lex(s) == Seq::<TokenView>::empty(),
{
    lemma_lex_range_blank(s, 0, s.len() as int);
}

} // verus!
