//! Byte-level predicates shared by the scanning code.

use vstd::prelude::*;

verus! {

broadcast use vstd::string::axiom_spec_iter;

/// Line feed.
pub const LF: u8 = 0x0a;

/// Carriage return.
pub const CR: u8 = 0x0d;

/// The space that indents a line and follows a block marker.
pub const SPACE: u8 = 0x20;

/// `#`, the header marker.
pub const HASH: u8 = 0x23;

/// `*`, an emphasis delimiter and a rule character.
pub const STAR: u8 = 0x2a;

/// `-`, the unordered list marker and a rule character.
pub const DASH: u8 = 0x2d;

/// `.`, which ends the number of an ordered list item.
pub const DOT: u8 = 0x2e;

/// `>`, the blockquote marker.
pub const QUOTE: u8 = 0x3e;

/// `_`, an emphasis delimiter and a rule character.
pub const UNDERSCORE: u8 = 0x5f;

/// `` ` ``, the code span delimiter.
pub const BACKTICK: u8 = 0x60;

/// A byte that ends a line: a line feed or a carriage return.
pub open spec fn is_line_break(b: u8) -> bool {
    b == LF || b == CR
}

/// An ASCII decimal digit.
pub open spec fn is_digit(b: u8) -> bool {
    0x30 <= b <= 0x39
}

/// True for every byte that does not end a line.
pub fn not_new_line(b: u8) -> (r: bool)
    ensures
        r == !is_line_break(b),
{
    b != LF && b != CR
}

/// True for a line feed and for a carriage return.
pub fn is_new_line(b: u8) -> (r: bool)
    ensures
        r == is_line_break(b),
{
    b == LF || b == CR
}

/// True for an ASCII decimal digit.
pub fn is_digit_byte(b: u8) -> (r: bool)
    ensures
        r == is_digit(b),
{
    0x30 <= b && b <= 0x39
}

/// True for the space.
pub fn is_space(b: u8) -> (r: bool)
    ensures
        r == (b == SPACE),
{
    b == SPACE
}

/// Whether `char::is_numeric` holds of `c`: membership in one of Unicode's
/// general categories for numbers.
pub uninterp spec fn char_is_numeric(c: char) -> bool;

/// Calls `char::is_numeric`. The table that it reads is not restated here: the
/// contract only gives its answer the name [`char_is_numeric`].
#[verifier::external_body]
fn is_numeric(c: char) -> (r: bool)
    ensures
        r == char_is_numeric(c),
{
    c.is_numeric()
}

/// Every character of `s` is numeric.
pub open spec fn all_numeric(s: Seq<char>) -> bool {
    forall|i: int| 0 <= i < s.len() ==> char_is_numeric(#[trigger] s[i])
}

/// True when every character of `string` is numeric; the empty string is.
pub fn is_string_numeric(string: &str) -> (r: bool)
    ensures
        r == all_numeric(string@),
{
    let chars = string.chars();
    for c in it: chars
        invariant
            it.seq() == string@,
            forall|j: int| 0 <= j < it.index() ==> char_is_numeric(#[trigger] string@[j]),
    {
        if !is_numeric(c) {
            return false;
        }
    }
    true
}

} // verus!
