//! The tokenizer: the lexer under the name of what it produces.

pub mod utils;

use crate::lexer::grammar::lex_range;
use crate::lexer::text::texts_plain;
use crate::lexer::Lexer;
use crate::nesting::{balanced, closers_matched, Tag};
use crate::token::token_views;
pub use crate::token::Token;
use vstd::prelude::*;
use vstd::string::StringSliceAdditionalSpecFns;

verus! {

/// A tokenizer over one text buffer. It reads the buffer as a [`Lexer`]
/// does, and its tokens borrow from the buffer in the same way.
#[derive(Debug)]
pub struct Tokenizer<'a> {
    lexer: Lexer<'a>,
}

impl<'a> Tokenizer<'a> {
    /// The bytes of the buffer.
    pub closed spec fn source(&self) -> Seq<u8> {
        self.lexer.source()
    }

    /// The offset of the next byte to read.
    pub closed spec fn position(&self) -> int {
        self.lexer.position()
    }

    /// The tokenizer is sound and stands between two characters.
    pub closed spec fn wf(&self) -> bool {
        self.lexer.wf() && self.lexer.limit() == self.lexer.source().len()
    }

    /// A tokenizer at the start of `content`.
    pub fn new(content: &'a str) -> (tokenizer: Self)
        ensures
            tokenizer.wf(),
            tokenizer.source() == content.spec_bytes(),
            tokenizer.position() == 0,
    {
        Tokenizer { lexer: Lexer::new(content) }
    }

    /// Tokenizes what is left of the buffer and returns its tokens, in
    /// order. The tokenizer ends at the end of the buffer: a second call
    /// returns no token.
    pub fn run(&mut self) -> (tokens: Vec<Token<'a>>)
        requires
            old(self).wf(),
        ensures
            final(self).wf(),
            final(self).source() == old(self).source(),
            final(self).position() == old(self).source().len(),
            token_views(tokens@) == lex_range(
                old(self).source(),
                old(self).position(),
                old(self).source().len() as int,
            ),
            forall|tag: Tag| closers_matched(token_views(tokens@), tag),
            forall|tag: Tag| !tag.is_inline() ==> balanced(token_views(tokens@), tag),
            texts_plain(token_views(tokens@)),
    {
        self.lexer.run()
    }
}

} // verus!
