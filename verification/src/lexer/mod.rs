//! The lexer: line classification, the block tokenizers and the loop that
//! puts their tokens together.

pub mod boundary;
pub mod cursor;
pub mod grammar;
pub mod inline;
pub mod nested;
pub mod text;

use crate::lexer::boundary::{aligned, lemma_aligned_after_ascii, lemma_aligned_ends};
use crate::lexer::cursor::Cursor;
use crate::lexer::grammar::{
    after_item_marker, after_marker, block_end, block_tokens, content_end, continues_paragraph,
    continues_quote, decimal, digit_run, hard_break, is_ordered_item, is_run_of, is_wide_space,
    lemma_after_marker, lemma_block_end, lemma_digit_run, lemma_line_end, lemma_line_end_is,
    lemma_run_len, lemma_skip_continuation, lemma_skip_spaces, lemma_skip_spaces_is, lex_range,
    line_content, line_end, line_type, next_line, paragraph_block, paragraph_end, paragraph_tokens,
    quote_end, quote_tokens, run_len, skip_continuation, skip_spaces, space_width, terminator_len,
    trim_end, LineType,
};
use crate::lexer::inline::scan_inline;
use crate::lexer::nested::lemma_lex_range_well_nested;
use crate::lexer::text::{lemma_lex_range_plain, texts_plain};
use crate::nesting::{balanced, closers_matched, Tag};
use crate::token::{lemma_views_concat, lemma_views_push, space_token, token_views, TokenView};
pub use crate::token::Token;
use crate::tokenizer::utils::{
    is_digit, is_digit_byte, is_line_break, is_new_line, is_space, not_new_line, DASH, DOT, HASH,
    QUOTE, SPACE, STAR, UNDERSCORE,
};
use vstd::prelude::*;
use vstd::string::StringSliceAdditionalSpecFns;
use vstd::utf8::{encode_utf8_valid_utf8, is_continuation_byte};

verus! {

/// A lexer over one text buffer.
///
/// It owns a cursor into the buffer and hands out tokens whose text borrows
/// from the buffer.
#[derive(Debug)]
pub struct Lexer<'a> {
    content: &'a str,
    cursor: Cursor<'a>,
}

impl<'a> Lexer<'a> {
    /// The bytes of the buffer.
    pub closed spec fn source(&self) -> Seq<u8> {
        self.content.spec_bytes()
    }

    /// The offset of the next byte to read.
    pub closed spec fn position(&self) -> int {
        self.cursor@.position
    }

    /// The offset at which the lexer stops: the length of the buffer, for a
    /// lexer that [`Lexer::new`] made.
    pub closed spec fn limit(&self) -> int {
        self.cursor@.limit
    }

    /// The cursor reads the bytes of the buffer, within a window that ends
    /// between two characters.
    spec fn inv(&self) -> bool {
        &&& self.cursor@.bytes == self.content.spec_bytes()
        &&& self.cursor@.wf()
        &&& aligned(self.cursor@.bytes, self.cursor@.limit)
    }

    /// The lexer is sound and stands between two characters.
    pub closed spec fn wf(&self) -> bool {
        self.inv() && aligned(self.cursor@.bytes, self.cursor@.position)
    }

    /// `self` is `before` with the cursor at `position`.
    spec fn moved_to(&self, before: &Self, position: int) -> bool {
        self.content == before.content && self.cursor@ == before.cursor@.at(position)
    }

    /// A lexer at the start of `content`.
    pub fn new(content: &'a str) -> (lexer: Self)
        ensures
            lexer.wf(),
            lexer.source() == content.spec_bytes(),
            lexer.position() == 0,
            lexer.limit() == content.spec_bytes().len(),
    {
        proof {
            encode_utf8_valid_utf8(content@);
            lemma_aligned_ends(content.spec_bytes());
        }
        Lexer { content, cursor: Cursor::new(content.as_bytes()) }
    }

    /// Whether the lexer has used up its window.
    fn end_of_content(&self) -> (at_end: bool)
        ensures
            at_end == (self.position() >= self.limit()),
    {
        self.cursor.end_of_content()
    }

    /// Moves over the bytes that `condition` accepts and returns where that
    /// started and where it stopped: at the first byte that `condition`
    /// turns down, or at the end of the window.
    fn consume_while<F>(&mut self, condition: F) -> (range: (usize, usize)) where
        F: Fn(u8) -> bool,

        requires
            old(self).inv(),
            forall|b: u8| call_requires(condition, (b,)),
        ensures
            final(self).inv(),
            final(self).moved_to(old(self), range.1 as int),
            range.0 == old(self).position(),
            range.0 <= range.1 <= old(self).limit(),
            forall|i: int|
                range.0 <= i < range.1 ==> call_ensures(
                    condition,
                    (#[trigger] old(self).source()[i],),
                    true,
                ),
            range.1 < old(self).limit() ==> call_ensures(
                condition,
                (old(self).source()[range.1 as int],),
                false,
            ),
    {
        let start = self.cursor.position();
        let ghost s = self.source();
        let mut going = true;
        while going && !self.cursor.end_of_content()
            invariant
                self.inv(),
                self.moved_to(old(self), self.position()),
                s == old(self).source(),
                start == old(self).position(),
                start <= self.position() <= self.limit(),
                forall|b: u8| call_requires(condition, (b,)),
                forall|i: int|
                    start <= i < self.position() ==> call_ensures(
                        condition,
                        (#[trigger] s[i],),
                        true,
                    ),
                !going ==> self.position() < self.limit() && call_ensures(
                    condition,
                    (s[self.position()],),
                    false,
                ),
            decreases self.limit() - self.position() + if going { 1int } else { 0int },
        {
            let at = self.cursor.position();
            let byte = self.cursor.byte_at(at);
            assert(byte == s[at as int]);
            if condition(byte) {
                self.cursor.go_forward(1);
            } else {
                going = false;
            }
        }
        (start, self.cursor.position())
    }

    /// Moves over the spaces at the cursor.
    fn consume_whitespace(&mut self)
        requires
            old(self).inv(),
        ensures
            final(self).inv(),
            final(self).moved_to(
                old(self),
                skip_spaces(old(self).source(), old(self).position(), old(self).limit()),
            ),
            old(self).wf() ==> final(self).wf(),
    {
        let range = self.consume_while(is_space);
        proof {
            lemma_skip_spaces_is(
                old(self).source(),
                old(self).position(),
                range.1 as int,
                old(self).limit(),
            );
            if range.0 < range.1 {
                encode_utf8_valid_utf8(self.content@);
                assert(old(self).source()[range.1 - 1] == SPACE);
                lemma_aligned_after_ascii(self.source(), range.1 as int);
            }
        }
    }

    /// Moves to the end of the line and returns where that started and the
    /// end of the line.
    fn consume_line(&mut self) -> (range: (usize, usize))
        requires
            old(self).inv(),
        ensures
            final(self).inv(),
            final(self).moved_to(old(self), range.1 as int),
            range.0 == old(self).position(),
            range.0 <= range.1 <= old(self).limit(),
            range.1 == line_end(old(self).source(), old(self).position(), old(self).limit()),
            final(self).wf(),
    {
        let range = self.consume_while(not_new_line);
        proof {
            lemma_line_end_is(
                old(self).source(),
                old(self).position(),
                range.1 as int,
                old(self).limit(),
            );
        }
        range
    }

    /// Whether every byte in `[from, to)` is `byte`.
    fn all_bytes_are(&self, from: usize, to: usize, byte: u8) -> (all: bool)
        requires
            self.inv(),
            from <= to <= self.limit(),
        ensures
            all == (forall|i: int| from <= i < to ==> self.source()[i] == byte),
    {
        let mut i = from;
        while i < to
            invariant
                self.inv(),
                from <= i <= to <= self.limit(),
                forall|j: int| from <= j < i ==> self.source()[j] == byte,
            decreases to - i,
        {
            if self.cursor.byte_at(i) != byte {
                assert(self.source()[i as int] != byte);
                return false;
            }
            i += 1;
        }
        true
    }

    /// Tries to read what is left of the line as a run of two or more
    /// `ident`. Where it is one, the cursor moves to the end of the line;
    /// where it is none, the cursor stays.
    fn check_if_all_next_char_matching(&mut self, ident: u8) -> (matched: bool)
        requires
            old(self).inv(),
        ensures
            final(self).inv(),
            matched == is_run_of(
                old(self).source(),
                old(self).position(),
                line_end(old(self).source(), old(self).position(), old(self).limit()),
                ident,
            ),
            final(self).moved_to(
                old(self),
                if matched {
                    line_end(old(self).source(), old(self).position(), old(self).limit())
                } else {
                    old(self).position()
                },
            ),
    {
        let (from, to) = self.consume_line();
        assert(self.source() == old(self).source());
        let matched = if to - from >= 2 {
            self.all_bytes_are(from, to, ident)
        } else {
            false
        };
        if !matched {
            self.cursor.go_back(to - from);
        }
        matched
    }

    /// Whether the next byte is a decimal digit.
    fn at_digit(&self) -> (found: bool)
        requires
            self.inv(),
        ensures
            found == (self.position() < self.limit() && is_digit(self.source()[self.position()])),
    {
        !self.cursor.end_of_content() && is_digit_byte(self.cursor.byte_at(self.cursor.position()))
    }

    /// Whether the next byte continues a character that started before it.
    fn at_continuation(&self) -> (found: bool)
        requires
            self.inv(),
        ensures
            found == (self.position() < self.limit() && is_continuation_byte(
                self.source()[self.position()],
            )),
    {
        if self.cursor.end_of_content() {
            false
        } else {
            let byte = self.cursor.byte_at(self.cursor.position());
            0x80 <= byte && byte <= 0xbf
        }
    }

    /// Moves over the digits at the cursor and returns the number they
    /// write, or nothing where that number is too large for the token.
    fn consume_number(&mut self) -> (number: Option<u32>)
        requires
            old(self).inv(),
        ensures
            final(self).inv(),
            final(self).moved_to(
                old(self),
                old(self).position() + digit_run(
                    old(self).source(),
                    old(self).position(),
                    old(self).limit(),
                ),
            ),
            final(self).position() <= old(self).limit(),
            number == ({
                let value = decimal(
                    old(self).source(),
                    old(self).position(),
                    final(self).position(),
                );
                if value <= u32::MAX {
                    Some(value as u32)
                } else {
                    None
                }
            }),
    {
        let start = self.cursor.position();
        let ghost s = self.source();
        let ghost end = self.limit();
        let mut value: u64 = 0;
        while self.at_digit()
            invariant
                self.inv(),
                self.moved_to(old(self), self.position()),
                s == old(self).source(),
                end == old(self).limit(),
                start == old(self).position(),
                start <= self.position() <= end,
                digit_run(s, start as int, end) == self.position() - start + digit_run(
                    s,
                    self.position(),
                    end,
                ),
                value <= u32::MAX ==> value == decimal(s, start as int, self.position()),
                value > u32::MAX ==> decimal(s, start as int, self.position()) > u32::MAX,
                value <= 42949672959,
            decreases end - self.position(),
        {
            let digit = self.cursor.byte_at(self.cursor.position()) - 0x30;
            if value <= 0xffff_ffff {
                value = value * 10 + digit as u64;
            }
            self.cursor.go_forward(1);
        }
        if value <= 0xffff_ffff {
            Some(value as u32)
        } else {
            None
        }
    }

    /// Moves over one character, unless the line or the window ends here.
    fn skip_character(&mut self)
        requires
            old(self).inv(),
        ensures
            final(self).inv(),
            final(self).moved_to(
                old(self),
                after_item_marker(old(self).source(), old(self).position(), old(self).limit()),
            ),
    {
        if !self.cursor.end_of_content() && not_new_line(
            self.cursor.byte_at(self.cursor.position()),
        ) {
            self.cursor.go_forward(1);
            let ghost s = self.source();
            let ghost end = self.limit();
            let ghost from = self.position();
            while self.at_continuation()
                invariant
                    self.inv(),
                    self.moved_to(old(self), self.position()),
                    s == old(self).source(),
                    end == old(self).limit(),
                    from <= self.position() <= end,
                    skip_continuation(s, from, end) == skip_continuation(s, self.position(), end),
                decreases end - self.position(),
            {
                self.cursor.go_forward(1);
            }
        }
    }

    /// Classifies the line at the cursor and moves past what tells its
    /// kind: the terminator of a blank line, the `#` of a header, the `>` of
    /// a blockquote, the `-` of a list item, the number of an ordered item
    /// with its `.` and one character more, the whole of a rule. For a
    /// paragraph the cursor stays where it was.
    fn identify_byte(&mut self) -> (kind: LineType)
        requires
            old(self).inv(),
            old(self).position() < old(self).limit(),
        ensures
            final(self).inv(),
            kind == line_type(old(self).source(), old(self).position(), old(self).limit()),
            final(self).moved_to(
                old(self),
                after_marker(old(self).source(), old(self).position(), old(self).limit()),
            ),
    {
        let ghost s = self.source();
        let ghost p = self.position();
        let ghost end = self.limit();
        let start = self.cursor.position();
        let limit = self.cursor.limit();
        let curr_byte = self.cursor.next_byte().unwrap();

        if is_new_line(curr_byte) {
            return LineType::UnRecognized;
        }
        assert(curr_byte == s[p] && self.position() == p + 1);

        if curr_byte == HASH {
            let mut size: usize = 1;
            while self.cursor.at_byte(HASH)
                invariant
                    self.inv(),
                    self.moved_to(old(self), p + size),
                    s == old(self).source(),
                    p == old(self).position(),
                    end == old(self).limit(),
                    1 <= size,
                    0 <= p,
                    p + size <= end == limit,
                    run_len(s, p, end, HASH) == size + run_len(s, p + size, end, HASH),
                decreases end - size,
            {
                self.cursor.go_forward(1);
                size += 1;
            }
            if size > 6 || !self.cursor.at_byte(SPACE) {
                self.cursor.go_back(size);
                LineType::Paragraph
            } else {
                LineType::Header(size)
            }
        } else if curr_byte == QUOTE {
            LineType::Blockquote
        } else if curr_byte == DASH && self.cursor.at_byte(SPACE) {
            LineType::UnorderedList
        } else if is_digit_byte(curr_byte) {
            self.cursor.go_back(1);
            let number = self.consume_number();
            let dotted = self.cursor.at_byte(DOT);
            proof {
                lemma_digit_run(s, p + 1, end);
            }
            assert(digit_run(s, p, end) >= 1);
            assert(dotted == (p + digit_run(s, p, end) < end && s[p + digit_run(s, p, end)]
                == DOT));
            match number {
                Some(value) => {
                    if dotted {
                        assert(is_ordered_item(s, p, end));
                        self.cursor.go_forward(1);
                        self.skip_character();
                        LineType::OrderedList(value)
                    } else {
                        self.cursor.reset(start);
                        LineType::Paragraph
                    }
                },
                None => {
                    self.cursor.reset(start);
                    LineType::Paragraph
                },
            }
        } else if curr_byte == STAR || curr_byte == DASH || curr_byte == UNDERSCORE {
            proof {
                lemma_line_end(s, p, end);
            }
            if self.check_if_all_next_char_matching(STAR) {
                LineType::HorizontalRule
            } else if self.check_if_all_next_char_matching(DASH) {
                LineType::HorizontalRule
            } else if self.check_if_all_next_char_matching(UNDERSCORE) {
                LineType::HorizontalRule
            } else {
                self.cursor.go_back(1);
                LineType::Paragraph
            }
        } else {
            self.cursor.go_back(1);
            LineType::Paragraph
        }
    }

    /// Classifies the line at the cursor and leaves the cursor where it was.
    fn identify_byte_without_inc(&mut self) -> (kind: LineType)
        requires
            old(self).inv(),
            old(self).position() < old(self).limit(),
        ensures
            final(self).inv(),
            kind == line_type(old(self).source(), old(self).position(), old(self).limit()),
            final(self).moved_to(old(self), old(self).position()),
    {
        let last_pos = self.cursor.position();
        let kind = self.identify_byte();
        self.cursor.reset(last_pos);
        kind
    }

    /// Looks at the same bytes as [`Lexer::consume_while`] and returns the
    /// same range, but leaves the cursor where it was.
    fn consume_while_without_inc<F>(&mut self, condition: F) -> (range: (usize, usize)) where
        F: Fn(u8) -> bool,

        requires
            old(self).inv(),
            forall|b: u8| call_requires(condition, (b,)),
        ensures
            final(self).inv(),
            final(self).moved_to(old(self), old(self).position()),
            range.0 == old(self).position(),
            range.0 <= range.1 <= old(self).limit(),
            forall|i: int|
                range.0 <= i < range.1 ==> call_ensures(
                    condition,
                    (#[trigger] old(self).source()[i],),
                    true,
                ),
            range.1 < old(self).limit() ==> call_ensures(
                condition,
                (old(self).source()[range.1 as int],),
                false,
            ),
    {
        let range = self.consume_while(condition);
        self.cursor.reset(range.0);
        range
    }

    /// Skips the spaces at the cursor, scans what is left of the line and
    /// appends its inline tokens to `result`.
    fn tokenize_line(&mut self, result: &mut Vec<Token<'a>>)
        requires
            old(self).wf(),
        ensures
            final(self).wf(),
            final(self).moved_to(
                old(self),
                content_end(old(self).source(), old(self).position(), old(self).limit()),
            ),
            token_views(final(result)@) == token_views(old(result)@) + line_content(
                old(self).source(),
                old(self).position(),
                old(self).limit(),
            ),
    {
        self.consume_whitespace();
        let (from, to) = self.consume_line();
        let mut tokens = scan_inline(self.content, from, to);
        proof {
            lemma_views_concat(result@, tokens@);
        }
        result.append(&mut tokens);
    }

    /// The tokens of a header of level `size`, the cursor standing after
    /// its `#`. Where no header can start here after all, the cursor goes
    /// back over the `#` and the line is read as a paragraph.
    fn tokenize_header(&mut self, size: usize) -> (tokens: Vec<Token<'a>>)
        requires
            old(self).inv(),
            1 <= size <= old(self).position(),
            forall|i: int|
                old(self).position() - size <= i < old(self).position() ==> old(self).source()[i]
                    == HASH,
        ensures
            final(self).wf(),
            ({
                let s = old(self).source();
                let p = old(self).position();
                let end = old(self).limit();
                if size <= 6 && p < end && s[p] == SPACE {
                    &&& token_views(tokens@) == seq![TokenView::Header(size)] + line_content(
                        s,
                        p,
                        end,
                    ) + seq![TokenView::ClosedHeader(size)]
                    &&& final(self).moved_to(old(self), content_end(s, p, end))
                } else {
                    &&& token_views(tokens@) == paragraph_block(s, p - size, end)
                    &&& final(self).moved_to(old(self), paragraph_end(s, p - size, end))
                }
            }),
    {
        if size >= 7 || !self.cursor.at_byte(SPACE) {
            assert(self.source()[self.position() - size] == HASH);
            self.cursor.go_back(size);
            self.tokenize_paragraph()
        } else {
            let mut result = vec![Token::Header(size)];
            assert(token_views(result@) =~= seq![TokenView::Header(size)]);
            self.tokenize_line(&mut result);
            proof {
                lemma_views_push(result@, Token::ClosedHeader(size));
            }
            result.push(Token::ClosedHeader(size));
            result
        }
    }

    /// The tokens of an unordered list with its one item, the cursor
    /// standing after the `-`.
    fn tokenize_unordered_list(&mut self) -> (tokens: Vec<Token<'a>>)
        requires
            old(self).wf(),
        ensures
            final(self).wf(),
            final(self).moved_to(
                old(self),
                content_end(old(self).source(), old(self).position(), old(self).limit()),
            ),
            token_views(tokens@) == seq![TokenView::UnorderedList, TokenView::Li] + line_content(
                old(self).source(),
                old(self).position(),
                old(self).limit(),
            ) + seq![TokenView::ClosedLi, TokenView::ClosedUnorderedList],
    {
        let mut result = vec![Token::UnorderedList, Token::Li];
        assert(token_views(result@) =~= seq![TokenView::UnorderedList, TokenView::Li]);
        self.tokenize_line(&mut result);
        let ghost inner = token_views(result@);
        proof {
            lemma_views_push(result@, Token::ClosedLi);
            lemma_views_push(result@.push(Token::ClosedLi), Token::ClosedUnorderedList);
        }
        result.push(Token::ClosedLi);
        result.push(Token::ClosedUnorderedList);
        assert(token_views(result@) =~= inner + seq![
            TokenView::ClosedLi,
            TokenView::ClosedUnorderedList,
        ]);
        result
    }

    /// The tokens of an ordered list that starts at `start`, with its one
    /// item, the cursor standing where the text of the item may start.
    fn tokenize_ordered_list(&mut self, start: u32) -> (tokens: Vec<Token<'a>>)
        requires
            old(self).wf(),
        ensures
            final(self).wf(),
            final(self).moved_to(
                old(self),
                content_end(old(self).source(), old(self).position(), old(self).limit()),
            ),
            token_views(tokens@) == seq![TokenView::OrderedList(start), TokenView::Li]
                + line_content(old(self).source(), old(self).position(), old(self).limit())
                + seq![TokenView::ClosedLi, TokenView::ClosedOrderedList],
    {
        let mut result = vec![Token::OrderedList(start), Token::Li];
        assert(token_views(result@) =~= seq![TokenView::OrderedList(start), TokenView::Li]);
        self.tokenize_line(&mut result);
        let ghost inner = token_views(result@);
        proof {
            lemma_views_push(result@, Token::ClosedLi);
            lemma_views_push(result@.push(Token::ClosedLi), Token::ClosedOrderedList);
        }
        result.push(Token::ClosedLi);
        result.push(Token::ClosedOrderedList);
        assert(token_views(result@) =~= inner + seq![
            TokenView::ClosedLi,
            TokenView::ClosedOrderedList,
        ]);
        result
    }

    /// At the end of a line: moves to the text of the next line where that
    /// line goes on with the paragraph, and stays where it does not.
    fn continue_paragraph(&mut self) -> (goes_on: bool)
        requires
            old(self).inv(),
            old(self).position() < old(self).limit() ==> is_line_break(
                old(self).source()[old(self).position()],
            ),
        ensures
            final(self).inv(),
            goes_on == continues_paragraph(
                old(self).source(),
                old(self).position(),
                old(self).limit(),
            ),
            final(self).moved_to(
                old(self),
                if goes_on {
                    next_line(old(self).source(), old(self).position(), old(self).limit())
                } else {
                    old(self).position()
                },
            ),
    {
        let mark = self.cursor.position();
        if self.cursor.next_byte().is_none() {
            return false;
        }
        self.consume_whitespace();
        if self.cursor.end_of_content() {
            self.cursor.reset(mark);
            return false;
        }
        match self.identify_byte_without_inc() {
            LineType::Paragraph => true,
            _ => {
                self.cursor.reset(mark);
                false
            },
        }
    }

    /// Moves over the lines of the paragraph that starts at the cursor and
    /// returns the range they cover, the terminator of the last line left
    /// out.
    fn consume_paragraph(&mut self) -> (range: (usize, usize))
        requires
            old(self).inv(),
        ensures
            final(self).wf(),
            final(self).moved_to(old(self), range.1 as int),
            range.0 == old(self).position(),
            range.0 <= range.1 <= old(self).limit(),
            range.1 == paragraph_end(old(self).source(), old(self).position(), old(self).limit()),
    {
        let start = self.cursor.position();
        let ghost s = self.source();
        let ghost end = self.limit();
        let mut done = false;
        while !done
            invariant
                self.inv(),
                self.moved_to(old(self), self.position()),
                s == old(self).source(),
                end == old(self).limit(),
                start == old(self).position(),
                start <= self.position() <= end,
                !done ==> paragraph_end(s, start as int, end) == paragraph_end(
                    s,
                    self.position(),
                    end,
                ),
                done ==> self.position() == paragraph_end(s, start as int, end) && self.wf(),
            decreases end - self.position() + if done { 0int } else { 1int },
        {
            let ghost here = self.position();
            self.consume_line();
            proof {
                lemma_line_end(s, here, end);
                lemma_skip_spaces(
                    s,
                    line_end(s, here, end) + terminator_len(s, line_end(s, here, end), end),
                    end,
                );
            }
            if !self.continue_paragraph() {
                done = true;
            }
        }
        (start, self.cursor.position())
    }

    /// The width of the whitespace character that ends `[from, to)`, or 0.
    fn space_width_at(&self, from: usize, to: usize) -> (width: usize)
        requires
            self.inv(),
            from <= to <= self.limit(),
        ensures
            width == space_width(self.source(), from as int, to as int),
    {
        let len = to - from;
        if len >= 1 && (self.cursor.byte_at(to - 1) == SPACE || (0x09 <= self.cursor.byte_at(to - 1)
            && self.cursor.byte_at(to - 1) <= 0x0d)) {
            1
        } else if len >= 2 && self.cursor.byte_at(to - 2) == 0xc2 && (self.cursor.byte_at(to - 1)
            == 0x85 || self.cursor.byte_at(to - 1) == 0xa0) {
            2
        } else if len >= 3 && wide_space(
            self.cursor.byte_at(to - 3),
            self.cursor.byte_at(to - 2),
            self.cursor.byte_at(to - 1),
        ) {
            3
        } else {
            0
        }
    }

    /// Where `[from, to)` ends once the whitespace at its end is cut off.
    fn trimmed_end(&self, from: usize, to: usize) -> (end: usize)
        requires
            self.inv(),
            from <= to <= self.limit(),
        ensures
            end == trim_end(self.source(), from as int, to as int),
            from <= end <= to,
            aligned(self.source(), to as int) ==> aligned(self.source(), end as int),
    {
        let mut end = to;
        let mut width = self.space_width_at(from, end);
        while width > 0
            invariant
                self.inv(),
                from <= end <= to <= self.limit(),
                width == space_width(self.source(), from as int, end as int),
                trim_end(self.source(), from as int, to as int) == trim_end(
                    self.source(),
                    from as int,
                    end as int,
                ),
                aligned(self.source(), to as int) ==> aligned(self.source(), end as int),
            decreases end,
        {
            end = end - width;
            width = self.space_width_at(from, end);
        }
        end
    }

    /// The tokens of the lines of a paragraph, which the window of this
    /// lexer covers, appended to `result`.
    fn tokenize_lines(&mut self, result: &mut Vec<Token<'a>>)
        requires
            old(self).wf(),
        ensures
            final(self).inv(),
            token_views(final(result)@) == token_views(old(result)@) + paragraph_tokens(
                old(self).source(),
                old(self).position(),
                old(self).limit(),
            ),
    {
        let ghost s = self.source();
        let ghost end = self.limit();
        let ghost start = self.position();
        let ghost before = token_views(result@);
        let mut done = false;
        while !done
            invariant
                self.inv(),
                s == self.source(),
                end == self.limit(),
                start <= self.position() <= end,
                !done ==> self.wf() && token_views(result@) + paragraph_tokens(
                    s,
                    self.position(),
                    end,
                ) == before + paragraph_tokens(s, start, end),
                done ==> token_views(result@) == before + paragraph_tokens(s, start, end),
            decreases end - self.position() + if done { 0int } else { 1int },
        {
            let ghost here = self.position();
            let ghost emitted = token_views(result@);
            let (from, to) = self.consume_line();
            let text_end = self.trimmed_end(from, to);
            let line_break = to - from >= 2 && self.cursor.byte_at(to - 1) == SPACE
                && self.cursor.byte_at(to - 2) == SPACE;
            assert(line_break == hard_break(s, here, to as int));
            let mut text = scan_inline(self.content, from, text_end);
            proof {
                lemma_views_concat(result@, text@);
                lemma_line_end(s, here, end);
                lemma_skip_spaces(s, to + terminator_len(s, to as int, end), end);
            }
            result.append(&mut text);
            if line_break {
                proof {
                    lemma_views_push(result@, Token::LineBreak);
                }
                result.push(Token::LineBreak);
            }
            if self.cursor.end_of_content() {
                done = true;
                assert(token_views(result@) + Seq::<TokenView>::empty() =~= emitted
                    + paragraph_tokens(s, here, end));
            } else {
                if !line_break {
                    let joint = space_token();
                    proof {
                        lemma_views_push(result@, joint);
                    }
                    result.push(joint);
                }
                self.cursor.next_byte();
                self.consume_whitespace();
                proof {
                    encode_utf8_valid_utf8(self.content@);
                    if self.position() == to + terminator_len(s, to as int, end) {
                        lemma_aligned_after_ascii(s, self.position());
                    }
                    assert(token_views(result@) + paragraph_tokens(s, self.position(), end)
                        =~= emitted + paragraph_tokens(s, here, end));
                }
            }
        }
    }

    /// The tokens of the paragraph that starts at the cursor.
    fn tokenize_paragraph(&mut self) -> (tokens: Vec<Token<'a>>)
        requires
            old(self).wf(),
        ensures
            final(self).wf(),
            final(self).moved_to(
                old(self),
                paragraph_end(old(self).source(), old(self).position(), old(self).limit()),
            ),
            token_views(tokens@) == paragraph_block(
                old(self).source(),
                old(self).position(),
                old(self).limit(),
            ),
    {
        let mut result = vec![Token::Paragraph];
        assert(token_views(result@) =~= seq![TokenView::Paragraph]);
        let (from, to) = self.consume_paragraph();
        let mut lines = Lexer { content: self.content, cursor: self.cursor.narrowed(from, to) };
        lines.tokenize_lines(&mut result);
        proof {
            lemma_views_push(result@, Token::ClosedParagraph);
        }
        result.push(Token::ClosedParagraph);
        result
    }

    /// Lexes `[position, to)` as a region of its own, appends its tokens to
    /// `result` and moves to `to`.
    fn recursively_next_tokens(&mut self, result: &mut Vec<Token<'a>>, to: usize)
        requires
            old(self).wf(),
            old(self).position() <= to <= old(self).limit(),
            aligned(old(self).source(), to as int),
        ensures
            final(self).wf(),
            final(self).moved_to(old(self), to as int),
            token_views(final(result)@) == token_views(old(result)@) + lex_range(
                old(self).source(),
                old(self).position(),
                to as int,
            ),
        decreases to - old(self).position(), 4int,
    {
        let mut inner = Lexer {
            content: self.content,
            cursor: self.cursor.narrowed(self.cursor.position(), to),
        };
        let mut tokens = inner.run();
        proof {
            lemma_views_concat(result@, tokens@);
        }
        result.append(&mut tokens);
        self.cursor.reset(to);
    }

    /// At the end of a quoted line: moves past the `>` of the next line
    /// where that line goes on with the blockquote, and stays where it does
    /// not.
    fn continue_quote(&mut self) -> (goes_on: bool)
        requires
            old(self).inv(),
            old(self).position() < old(self).limit() ==> is_line_break(
                old(self).source()[old(self).position()],
            ),
        ensures
            final(self).inv(),
            goes_on == continues_quote(old(self).source(), old(self).position(), old(self).limit()),
            final(self).moved_to(
                old(self),
                if goes_on {
                    next_line(old(self).source(), old(self).position(), old(self).limit()) + 1
                } else {
                    old(self).position()
                },
            ),
    {
        let mark = self.cursor.position();
        if self.cursor.next_byte().is_none() {
            return false;
        }
        self.consume_whitespace();
        if self.cursor.at_byte(QUOTE) {
            self.cursor.go_forward(1);
            true
        } else {
            self.cursor.reset(mark);
            false
        }
    }

    /// The tokens of the blockquote, the cursor standing after its first
    /// `>`. The content of each of its lines is lexed as a region of its
    /// own; the lines that follow and start with `>` belong to it.
    fn tokenize_blockquote(&mut self) -> (tokens: Vec<Token<'a>>)
        requires
            old(self).wf(),
        ensures
            final(self).wf(),
            final(self).moved_to(
                old(self),
                quote_end(old(self).source(), old(self).position(), old(self).limit()),
            ),
            token_views(tokens@) == seq![TokenView::Blockquote] + quote_tokens(
                old(self).source(),
                old(self).position(),
                old(self).limit(),
            ) + seq![TokenView::ClosedBlockquote],
        decreases old(self).limit() - old(self).position(), 5int,
    {
        let ghost s = self.source();
        let ghost end = self.limit();
        let ghost start = self.position();
        let mut result = vec![Token::Blockquote];
        assert(token_views(result@) =~= seq![TokenView::Blockquote]);
        let mut done = false;
        while !done
            invariant
                self.wf(),
                self.moved_to(old(self), self.position()),
                s == old(self).source(),
                end == old(self).limit(),
                start == old(self).position(),
                start <= self.position() <= end,
                !done ==> quote_end(s, self.position(), end) == quote_end(s, start, end)
                    && token_views(result@) + quote_tokens(s, self.position(), end)
                    == seq![TokenView::Blockquote] + quote_tokens(s, start, end),
                done ==> self.position() == quote_end(s, start, end) && token_views(result@)
                    == seq![TokenView::Blockquote] + quote_tokens(s, start, end),
            decreases end - self.position() + if done { 0int } else { 1int },
        {
            let ghost here = self.position();
            let ghost emitted = token_views(result@);
            proof {
                encode_utf8_valid_utf8(self.content@);
            }
            if self.cursor.at_byte(SPACE) {
                self.cursor.go_forward(1);
                proof {
                    lemma_aligned_after_ascii(s, self.position());
                }
            }
            assert(self.source() == s);
            let ghost from = self.position();
            let (_, to) = self.consume_while_without_inc(not_new_line);
            proof {
                lemma_line_end_is(s, from, to as int, end);
                lemma_skip_spaces(s, to + terminator_len(s, to as int, end), end);
            }
            self.recursively_next_tokens(&mut result, to);
            if self.continue_quote() {
                proof {
                    lemma_aligned_after_ascii(s, self.position());
                    assert(token_views(result@) + quote_tokens(s, self.position(), end) =~= emitted
                        + quote_tokens(s, here, end));
                }
            } else {
                done = true;
                assert(token_views(result@) =~= emitted + quote_tokens(s, here, end));
            }
        }
        proof {
            lemma_views_push(result@, Token::ClosedBlockquote);
        }
        result.push(Token::ClosedBlockquote);
        result
    }

    /// The tokens of the block that starts at the cursor.
    fn tokenize(&mut self) -> (tokens: Vec<Token<'a>>)
        requires
            old(self).wf(),
            old(self).position() < old(self).limit(),
        ensures
            final(self).wf(),
            final(self).moved_to(
                old(self),
                block_end(old(self).source(), old(self).position(), old(self).limit()),
            ),
            token_views(tokens@) == block_tokens(
                old(self).source(),
                old(self).position(),
                old(self).limit(),
            ),
        decreases old(self).limit() - old(self).position(), 2int,
    {
        let ghost s = self.source();
        let ghost p = self.position();
        let ghost end = self.limit();
        proof {
            encode_utf8_valid_utf8(self.content@);
            lemma_after_marker(s, p, end);
            lemma_run_len(s, p, end, HASH);
            lemma_line_end(s, p, end);
            lemma_digit_run(s, p, end);
            lemma_skip_continuation(s, p + digit_run(s, p, end) + 2, end);
        }
        match self.identify_byte() {
            LineType::Header(size) => self.tokenize_header(size),
            LineType::Paragraph => self.tokenize_paragraph(),
            LineType::Blockquote => {
                proof {
                    lemma_aligned_after_ascii(s, p + 1);
                }
                self.tokenize_blockquote()
            },
            LineType::UnorderedList => {
                proof {
                    lemma_aligned_after_ascii(s, p + 1);
                }
                self.tokenize_unordered_list()
            },
            LineType::OrderedList(start) => {
                proof {
                    lemma_aligned_after_ascii(s, p + digit_run(s, p, end) + 1);
                }
                self.tokenize_ordered_list(start)
            },
            LineType::HorizontalRule => {
                let result = vec![Token::LineSeparator];
                assert(token_views(result@) =~= seq![TokenView::LineSeparator]);
                result
            },
            LineType::UnRecognized => {
                proof {
                    lemma_aligned_after_ascii(s, self.position());
                }
                let result = Vec::new();
                assert(token_views(result@) =~= Seq::<TokenView>::empty());
                result
            },
        }
    }

    /// Lexes what is left of the window and returns its tokens, in order.
    /// The cursor ends at the end of the window: a second call returns no
    /// token.
    ///
    /// The tokens are well nested. Every closing token has its opening token
    /// before it, and the tokens of each block kind pair up like brackets.
    /// An inline span that its line does not close stays open. No text
    /// token is empty, and none holds a line terminator or a backtick.
    pub fn run(&mut self) -> (tokens: Vec<Token<'a>>)
        requires
            old(self).wf(),
        ensures
            final(self).wf(),
            final(self).source() == old(self).source(),
            final(self).limit() == old(self).limit(),
            final(self).position() == old(self).limit(),
            token_views(tokens@) == lex_range(
                old(self).source(),
                old(self).position(),
                old(self).limit(),
            ),
            forall|tag: Tag| closers_matched(token_views(tokens@), tag),
            forall|tag: Tag| !tag.is_inline() ==> balanced(token_views(tokens@), tag),
            texts_plain(token_views(tokens@)),
        decreases old(self).limit() - old(self).position(), 3int,
    {
        let ghost s = self.source();
        let ghost end = self.limit();
        let ghost start = self.position();
        let mut result: Vec<Token<'a>> = Vec::new();
        assert(token_views(result@) =~= Seq::<TokenView>::empty());
        while !self.end_of_content()
            invariant
                self.wf(),
                self.moved_to(old(self), self.position()),
                s == old(self).source(),
                end == old(self).limit(),
                start == old(self).position(),
                start <= self.position() <= end,
                token_views(result@) + lex_range(s, self.position(), end) == lex_range(
                    s,
                    start,
                    end,
                ),
            decreases end - self.position(),
        {
            let ghost here = self.position();
            let ghost emitted = token_views(result@);
            self.consume_whitespace();
            proof {
                lemma_skip_spaces(s, here, end);
            }
            if !self.end_of_content() {
                proof {
                    lemma_block_end(s, self.position(), end);
                }
                let mut tokens = self.tokenize();
                proof {
                    lemma_views_concat(result@, tokens@);
                }
                result.append(&mut tokens);
                assert(token_views(result@) + lex_range(s, self.position(), end) =~= emitted
                    + lex_range(s, here, end));
            } else {
                assert(lex_range(s, self.position(), end) =~= lex_range(s, here, end));
            }
        }
        assert(token_views(result@) =~= lex_range(s, start, end));
        proof {
            lemma_lex_range_plain(s, start, end);
            assert forall|tag: Tag| closers_matched(token_views(result@), tag) by {
                lemma_lex_range_well_nested(s, start, end, tag);
            }
            assert forall|tag: Tag| !tag.is_inline() implies balanced(
                token_views(result@),
                tag,
            ) by {
                lemma_lex_range_well_nested(s, start, end, tag);
            }
        }
        result
    }
}

/// Whether the three bytes encode one of the whitespace characters that
/// take three bytes.
fn wide_space(a: u8, b: u8, c: u8) -> (wide: bool)
    ensures
        wide == is_wide_space(a, b, c),
{
    (a == 0xe1 && b == 0x9a && c == 0x80) || (a == 0xe2 && b == 0x80 && ((0x80 <= c && c <= 0x8a)
        || c == 0xa8 || c == 0xa9 || c == 0xaf)) || (a == 0xe2 && b == 0x81 && c == 0x9f) || (a
        == 0xe3 && b == 0x80 && c == 0x80)
}

} // verus!
