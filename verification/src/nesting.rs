//! Nesting: how the opening and closing tokens of one kind pair up.

use crate::token::TokenView;
use vstd::prelude::*;

verus! {

/// The kinds of element that the stream opens and closes.
#[derive(Debug, Clone, Copy, PartialEq, Eq)]
pub enum Tag {
    Header,
    Paragraph,
    Blockquote,
    OrderedList,
    UnorderedList,
    Li,
    Bold,
    Italic,
    Code,
}

impl Tag {
    /// Bold, italic and code are inline kinds: a scan of one region opens
    /// and closes them. The other kinds are block kinds.
    pub open spec fn is_inline(self) -> bool {
        self == Tag::Bold || self == Tag::Italic || self == Tag::Code
    }
}

impl TokenView {
    /// The kind that this token opens, if it opens one.
    pub open spec fn opens(self) -> Option<Tag> {
        match self {
            TokenView::Header(_) => Some(Tag::Header),
            TokenView::Paragraph => Some(Tag::Paragraph),
            TokenView::Blockquote => Some(Tag::Blockquote),
            TokenView::OrderedList(_) => Some(Tag::OrderedList),
            TokenView::UnorderedList => Some(Tag::UnorderedList),
            TokenView::Li => Some(Tag::Li),
            TokenView::Bold => Some(Tag::Bold),
            TokenView::Italic => Some(Tag::Italic),
            TokenView::Code => Some(Tag::Code),
            _ => None,
        }
    }

    /// The kind that this token closes, if it closes one.
    pub open spec fn closes(self) -> Option<Tag> {
        match self {
            TokenView::ClosedHeader(_) => Some(Tag::Header),
            TokenView::ClosedParagraph => Some(Tag::Paragraph),
            TokenView::ClosedBlockquote => Some(Tag::Blockquote),
            TokenView::ClosedOrderedList => Some(Tag::OrderedList),
            TokenView::ClosedUnorderedList => Some(Tag::UnorderedList),
            TokenView::ClosedLi => Some(Tag::Li),
            TokenView::ClosedBold => Some(Tag::Bold),
            TokenView::ClosedItalic => Some(Tag::Italic),
            TokenView::ClosedCode => Some(Tag::Code),
            _ => None,
        }
    }

    /// What this token does to the number of open elements of kind `tag`.
    pub open spec fn step(self, tag: Tag) -> int {
        if self.opens() == Some(tag) {
            1
        } else if self.closes() == Some(tag) {
            -1
        } else {
            0
        }
    }
}

/// The number of elements of kind `tag` that `tokens` leaves open: its
/// opening tokens of that kind less its closing ones.
pub open spec fn depth(tokens: Seq<TokenView>, tag: Tag) -> int
    decreases tokens.len(),
{
    if tokens.len() == 0 {
        0
    } else {
        tokens[0].step(tag) + depth(tokens.drop_first(), tag)
    }
}

/// The least depth that `tokens` reaches on the way, which is at most 0,
/// the depth before the first token.
pub open spec fn low(tokens: Seq<TokenView>, tag: Tag) -> int
    decreases tokens.len(),
{
    if tokens.len() == 0 {
        0
    } else {
        let rest = tokens[0].step(tag) + low(tokens.drop_first(), tag);
        if rest < 0 {
            rest
        } else {
            0
        }
    }
}

/// Every closing token of kind `tag` has an opening token of its own before
/// it: no part of `tokens`, read from the start, closes more than it opens.
pub open spec fn closers_matched(tokens: Seq<TokenView>, tag: Tag) -> bool {
    forall|n: int| 0 <= n <= tokens.len() ==> depth(#[trigger] tokens.take(n), tag) >= 0
}

/// The tokens of kind `tag` pair up like brackets: every closing token has
/// its opening token, and none stays open.
pub open spec fn balanced(tokens: Seq<TokenView>, tag: Tag) -> bool {
    closers_matched(tokens, tag) && depth(tokens, tag) == 0
}

/// One token leaves open what it opens, and reaches below 0 where it
/// closes.
pub proof fn lemma_single(token: TokenView, tag: Tag)
    ensures
        depth(seq![token], tag) == token.step(tag),
        low(seq![token], tag) == if token.step(tag) < 0 {
            token.step(tag)
        } else {
            0
        },
{
    let tokens = seq![token];
    assert(tokens.drop_first() =~= Seq::<TokenView>::empty());
    assert(depth(tokens.drop_first(), tag) == 0);
    assert(low(tokens.drop_first(), tag) == 0);
}

/// Depths add up, and the second of two runs starts from the depth that
/// the first leaves.
pub proof fn lemma_concat(first: Seq<TokenView>, second: Seq<TokenView>, tag: Tag)
    ensures
        depth(first + second, tag) == depth(first, tag) + depth(second, tag),
        low(first + second, tag) == if low(first, tag) <= depth(first, tag) + low(second, tag) {
            low(first, tag)
        } else {
            depth(first, tag) + low(second, tag)
        },
        low(first, tag) <= 0,
        low(first, tag) <= depth(first, tag),
    decreases first.len(),
{
    if first.len() == 0 {
        assert(first + second =~= second);
        lemma_low_bounds(second, tag);
    } else {
        assert((first + second).drop_first() =~= first.drop_first() + second);
        lemma_concat(first.drop_first(), second, tag);
    }
}

/// The least depth is at most 0 and at most the depth at the end.
pub proof fn lemma_low_bounds(tokens: Seq<TokenView>, tag: Tag)
    ensures
        low(tokens, tag) <= 0,
        low(tokens, tag) <= depth(tokens, tag),
    decreases tokens.len(),
{
    if tokens.len() > 0 {
        lemma_low_bounds(tokens.drop_first(), tag);
    }
}

/// No part of `tokens`, read from the start, goes below the least depth.
pub proof fn lemma_low_is_least(tokens: Seq<TokenView>, tag: Tag, n: int)
    requires
        0 <= n <= tokens.len(),
    ensures
        low(tokens, tag) <= depth(tokens.take(n), tag),
    decreases n,
{
    lemma_low_bounds(tokens, tag);
    if n > 0 {
        assert(tokens.take(n).drop_first() =~= tokens.drop_first().take(n - 1));
        lemma_low_is_least(tokens.drop_first(), tag, n - 1);
    } else {
        assert(tokens.take(0) =~= Seq::<TokenView>::empty());
    }
}

/// Where the least depth is 0, every closing token is matched.
pub proof fn lemma_matched(tokens: Seq<TokenView>, tag: Tag)
    requires
        low(tokens, tag) == 0,
    ensures
        closers_matched(tokens, tag),
{
    assert forall|n: int| 0 <= n <= tokens.len() implies depth(#[trigger] tokens.take(n), tag)
        >= 0 by {
        lemma_low_is_least(tokens, tag, n);
    }
}

} // verus!
