//! The tokens of the stream, and what they look like to a contract.

use vstd::prelude::*;
use vstd::string::StringSliceAdditionalSpecFns;

verus! {

/// One element of the flat token stream.
///
/// Structure is written as pairs: a token that opens an element and, later in
/// the stream, the `Closed` token of the same kind. `Text` borrows its bytes
/// from the buffer that was lexed.
#[derive(Debug, Clone, Copy, PartialEq, Eq)]
pub enum Token<'a> {
    /// Opens a header; holds its level, 1 to 6.
    Header(usize),
    /// Closes the header of the same level.
    ClosedHeader(usize),
    /// A piece of text, without the delimiters around it.
    Text(&'a str),
    /// A hard line break inside a paragraph.
    LineBreak,
    /// A horizontal rule.
    LineSeparator,
    /// Opens a paragraph.
    Paragraph,
    /// Closes a paragraph.
    ClosedParagraph,
    /// Opens a blockquote.
    Blockquote,
    /// Closes a blockquote.
    ClosedBlockquote,
    /// Opens an ordered list; holds the number of its first item.
    OrderedList(u32),
    /// Closes an ordered list.
    ClosedOrderedList,
    /// Opens an unordered list.
    UnorderedList,
    /// Closes an unordered list.
    ClosedUnorderedList,
    /// Opens a list item.
    Li,
    /// Closes a list item.
    ClosedLi,
    /// Opens a bold span.
    Bold,
    /// Closes a bold span.
    ClosedBold,
    /// Opens an italic span.
    Italic,
    /// Closes an italic span.
    ClosedItalic,
    /// Opens a code span.
    Code,
    /// Closes a code span.
    ClosedCode,
}

/// A token as contracts see it: `Text` holds the bytes of its slice.
pub enum TokenView {
    Header(usize),
    ClosedHeader(usize),
    Text(Seq<u8>),
    LineBreak,
    LineSeparator,
    Paragraph,
    ClosedParagraph,
    Blockquote,
    ClosedBlockquote,
    OrderedList(u32),
    ClosedOrderedList,
    UnorderedList,
    ClosedUnorderedList,
    Li,
    ClosedLi,
    Bold,
    ClosedBold,
    Italic,
    ClosedItalic,
    Code,
    ClosedCode,
}

impl<'a> View for Token<'a> {
    type V = TokenView;

    open spec fn view(&self) -> TokenView {
        match *self {
            Token::Header(level) => TokenView::Header(level),
            Token::ClosedHeader(level) => TokenView::ClosedHeader(level),
            Token::Text(text) => TokenView::Text(text.spec_bytes()),
            Token::LineBreak => TokenView::LineBreak,
            Token::LineSeparator => TokenView::LineSeparator,
            Token::Paragraph => TokenView::Paragraph,
            Token::ClosedParagraph => TokenView::ClosedParagraph,
            Token::Blockquote => TokenView::Blockquote,
            Token::ClosedBlockquote => TokenView::ClosedBlockquote,
            Token::OrderedList(start) => TokenView::OrderedList(start),
            Token::ClosedOrderedList => TokenView::ClosedOrderedList,
            Token::UnorderedList => TokenView::UnorderedList,
            Token::ClosedUnorderedList => TokenView::ClosedUnorderedList,
            Token::Li => TokenView::Li,
            Token::ClosedLi => TokenView::ClosedLi,
            Token::Bold => TokenView::Bold,
            Token::ClosedBold => TokenView::ClosedBold,
            Token::Italic => TokenView::Italic,
            Token::ClosedItalic => TokenView::ClosedItalic,
            Token::Code => TokenView::Code,
            Token::ClosedCode => TokenView::ClosedCode,
        }
    }
}

/// The views of a run of tokens, in order.
pub open spec fn token_views(tokens: Seq<Token<'_>>) -> Seq<TokenView> {
    tokens.map_values(|t: Token<'_>| t@)
}

/// The text token that joins two lines of a paragraph: one space.
pub fn space_token() -> (token: Token<'static>)
    ensures
        token@ == TokenView::Text(seq![0x20u8]),
{
    let text = " ";
    proof {
        reveal_strlit(" ");
        vstd::utf8::is_ascii_chars_encode_utf8(text@);
        assert(text.spec_bytes() =~= seq![0x20u8]);
    }
    Token::Text(text)
}

/// The views of a run with one more token are the views of the run with
/// that token's view after them.
pub proof fn lemma_views_push(tokens: Seq<Token<'_>>, token: Token<'_>)
    ensures
        token_views(tokens.push(token)) == token_views(tokens).push(token@),
{
    assert(token_views(tokens.push(token)) =~= token_views(tokens).push(token@));
}

/// The views of two runs, one after the other, are their views one after
/// the other.
pub proof fn lemma_views_concat(first: Seq<Token<'_>>, second: Seq<Token<'_>>)
    ensures
        token_views(first + second) == token_views(first) + token_views(second),
{
    assert(token_views(first + second) =~= token_views(first) + token_views(second));
}

} // verus!
