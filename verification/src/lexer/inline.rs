//! The inline scanner: text, cut at emphasis and code delimiters.

use crate::lexer::boundary::{aligned, lemma_aligned_after_ascii, lemma_aligned_range};
use crate::lexer::grammar::{inline_from, inline_tokens, is_empty_span, mark_at, Emphasis, Mark};
use crate::token::{lemma_views_push, token_views, Token};
use crate::tokenizer::utils::{BACKTICK, STAR, UNDERSCORE};
use vstd::prelude::*;
use vstd::string::StringSliceAdditionalSpecFns;
use vstd::utf8::encode_utf8_valid_utf8;

verus! {

/// The part of `content` that holds the bytes `[from, to)`. Both ends have
/// to lie between characters.
pub fn slice<'a>(content: &'a str, from: usize, to: usize) -> (text: &'a str)
    requires
        from <= to,
        aligned(content.spec_bytes(), from as int),
        aligned(content.spec_bytes(), to as int),
    ensures
        text.spec_bytes() == content.spec_bytes().subrange(from as int, to as int),
{
    proof {
        encode_utf8_valid_utf8(content@);
        lemma_aligned_range(content.spec_bytes(), from as int, to as int);
    }
    let (head, _) = content.split_at(to);
    let (_, text) = head.split_at(from);
    assert(content.spec_bytes().subrange(0, to as int).subrange(from as int, to as int)
        =~= content.spec_bytes().subrange(from as int, to as int));
    text
}

impl Mark {
    /// The number of bytes of the delimiter.
    pub fn len(self) -> (n: usize)
        ensures
            n == self.width(),
    {
        match self {
            Mark::Bold => 2,
            Mark::Italic => 1,
            Mark::Code => 1,
        }
    }

    /// The token that a delimiter of this kind emits, given whether its span
    /// is open.
    pub fn emit<'a>(self, open: bool) -> (token: Token<'a>)
        ensures
            token@ == self.token(open),
    {
        match self {
            Mark::Bold => if open {
                Token::ClosedBold
            } else {
                Token::Bold
            },
            Mark::Italic => if open {
                Token::ClosedItalic
            } else {
                Token::Italic
            },
            Mark::Code => if open {
                Token::ClosedCode
            } else {
                Token::Code
            },
        }
    }

    /// Whether `self` and `other` are the same kind.
    pub fn same(self, other: Mark) -> (same: bool)
        ensures
            same == (self == other),
    {
        match (self, other) {
            (Mark::Bold, Mark::Bold) => true,
            (Mark::Italic, Mark::Italic) => true,
            (Mark::Code, Mark::Code) => true,
            _ => false,
        }
    }
}

impl Emphasis {
    /// The state at the start of a region: no span is open.
    pub fn new() -> (state: Emphasis)
        ensures
            state == Emphasis::closed(),
    {
        Emphasis { bold: false, italic: false, code: false }
    }

    /// Whether the span of kind `m` is open.
    pub fn has_open(&self, m: Mark) -> (open: bool)
        ensures
            open == self.is_open(m),
    {
        match m {
            Mark::Bold => self.bold,
            Mark::Italic => self.italic,
            Mark::Code => self.code,
        }
    }

    /// The state after a delimiter of kind `m`.
    pub fn toggle(&self, m: Mark) -> (state: Emphasis)
        ensures
            state == self.toggled(m),
    {
        match m {
            Mark::Bold => Emphasis { bold: !self.bold, italic: self.italic, code: self.code },
            Mark::Italic => Emphasis { bold: self.bold, italic: !self.italic, code: self.code },
            Mark::Code => Emphasis { bold: self.bold, italic: self.italic, code: !self.code },
        }
    }
}

/// The delimiter that starts at `i` in the region that ends at `end`.
pub fn find_mark(bytes: &[u8], i: usize, end: usize, in_code: bool) -> (mark: Option<Mark>)
    requires
        end <= bytes@.len(),
    ensures
        mark == mark_at(bytes@, i as int, end as int, in_code),
{
    if i >= end {
        None
    } else if bytes[i] == BACKTICK {
        Some(Mark::Code)
    } else if in_code {
        None
    } else if bytes[i] == STAR && i + 1 < end && bytes[i + 1] == STAR {
        Some(Mark::Bold)
    } else if bytes[i] == STAR || bytes[i] == UNDERSCORE {
        Some(Mark::Italic)
    } else {
        None
    }
}

/// Whether the delimiter of kind `m` at `i` opens a span that the next
/// delimiter closes at once.
pub fn opens_empty_span(bytes: &[u8], i: usize, end: usize, state: &Emphasis, m: Mark) -> (empty:
    bool)
    requires
        end <= bytes@.len(),
        mark_at(bytes@, i as int, end as int, state.code) == Some(m),
    ensures
        empty == is_empty_span(bytes@, i as int, end as int, *state, m),
{
    if state.has_open(m) {
        false
    } else {
        match find_mark(bytes, i + m.len(), end, state.toggle(m).code) {
            Some(next) => next.same(m),
            None => false,
        }
    }
}

/// Scans the region `[from, to)` of `content`, which holds no line
/// terminator, and returns its text and delimiter tokens.
pub fn scan_inline<'a>(content: &'a str, from: usize, to: usize) -> (tokens: Vec<Token<'a>>)
    requires
        from <= to,
        aligned(content.spec_bytes(), from as int),
        aligned(content.spec_bytes(), to as int),
    ensures
        token_views(tokens@) == inline_tokens(content.spec_bytes(), from as int, to as int),
{
    let bytes = content.as_bytes();
    let mut tokens: Vec<Token<'a>> = Vec::new();
    let mut state = Emphasis::new();
    let mut run: usize = from;
    let mut i: usize = from;
    proof {
        encode_utf8_valid_utf8(content@);
    }
    assert(token_views(tokens@) =~= Seq::empty());
    while i < to
        invariant
            from <= run <= i <= to <= bytes@.len(),
            bytes@ == content.spec_bytes(),
            vstd::utf8::valid_utf8(bytes@),
            aligned(bytes@, run as int),
            aligned(bytes@, to as int),
            token_views(tokens@) + inline_from(bytes@, run as int, i as int, to as int, state)
                == inline_tokens(bytes@, from as int, to as int),
        decreases to - i,
    {
        match find_mark(bytes, i, to, state.code) {
            None => {
                i += 1;
            },
            Some(m) => {
                let ghost before = token_views(tokens@);
                let ghost rest = inline_from(bytes@, run as int, i as int, to as int, state);
                if run < i {
                    let text = slice(content, run, i);
                    proof {
                        lemma_views_push(tokens@, Token::Text(text));
                    }
                    tokens.push(Token::Text(text));
                }
                let width = m.len();
                if opens_empty_span(bytes, i, to, &state, m) {
                    i = i + 2 * width;
                } else {
                    let token = m.emit(state.has_open(m));
                    proof {
                        lemma_views_push(tokens@, token);
                    }
                    tokens.push(token);
                    state = state.toggle(m);
                    i = i + width;
                }
                run = i;
                proof {
                    lemma_aligned_after_ascii(bytes@, run as int);
                    assert(token_views(tokens@) + inline_from(
                        bytes@,
                        run as int,
                        i as int,
                        to as int,
                        state,
                    ) =~= before + rest);
                }
            },
        }
    }
    if run < to {
        let text = slice(content, run, to);
        proof {
            lemma_views_push(tokens@, Token::Text(text));
        }
        tokens.push(Token::Text(text));
    }
    assert(token_views(tokens@) =~= inline_tokens(bytes@, from as int, to as int));
    tokens
}

} // verus!
