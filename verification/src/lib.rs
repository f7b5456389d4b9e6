//! A lexer that turns Markdown-like text into a flat, well-nested stream of
//! structural and inline tokens.
//!
//! The text is read once, front to back, and no tree is built. Headers,
//! paragraphs, blockquotes, list items and rules give structural tokens;
//! emphasis and code spans give inline tokens; everything else is text that
//! borrows from the buffer. What the lexer returns is stated in
//! [`lexer::grammar`], and the code is proved to return just that.

pub mod lexer;
pub mod nesting;
pub mod token;
pub mod tokenizer;

pub use lexer::Lexer;
pub use token::Token;
pub use tokenizer::Tokenizer;
