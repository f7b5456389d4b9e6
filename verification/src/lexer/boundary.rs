//! Character boundaries of UTF-8 text, told from single bytes.
//!
//! A text token borrows a slice of the buffer, and a slice of a `str` has to
//! start and end between characters. The scanning code stops at ASCII bytes,
//! so the facts here are about those.

use vstd::prelude::*;
use vstd::utf8::{
    is_char_boundary, is_char_boundary_iff_not_is_continuation_byte,
    is_char_boundary_start_end_of_seq, is_continuation_byte, pop_first_scalar, valid_utf8,
    valid_utf8_split,
};

verus! {

/// `p` lies between two characters of `s`, or at one of its ends: the byte
/// at `p`, if there is one, does not continue a character.
pub open spec fn aligned(s: Seq<u8>, p: int) -> bool {
    0 <= p <= s.len() && (p < s.len() ==> !is_continuation_byte(s[p]))
}

/// In valid UTF-8 an aligned position is a character boundary.
pub proof fn lemma_aligned_is_boundary(s: Seq<u8>, p: int)
    requires
        valid_utf8(s),
        aligned(s, p),
    ensures
        is_char_boundary(s, p),
{
    if p == s.len() {
        is_char_boundary_start_end_of_seq(s);
    } else {
        is_char_boundary_iff_not_is_continuation_byte(s, p);
    }
}

/// Both ends of valid UTF-8 are aligned.
pub proof fn lemma_aligned_ends(s: Seq<u8>)
    requires
        valid_utf8(s),
    ensures
        aligned(s, 0),
        aligned(s, s.len() as int),
{
    if s.len() > 0 {
        is_char_boundary_iff_not_is_continuation_byte(s, 0);
    }
}

/// In valid UTF-8 the position after an ASCII byte is aligned.
pub proof fn lemma_aligned_after_ascii(s: Seq<u8>, p: int)
    requires
        valid_utf8(s),
        0 < p <= s.len(),
        s[p - 1] < 0x80,
    ensures
        aligned(s, p),
{
    if p < s.len() {
        is_char_boundary_iff_not_is_continuation_byte(s, p - 1);
        valid_utf8_split(s, p - 1);
        let tail = s.subrange(p - 1, s.len() as int);
        assert(tail[0] == s[p - 1]);
        let rest = pop_first_scalar(tail);
        assert(valid_utf8(rest));
        assert(rest.len() > 0);
        assert(rest[0] == s[p]);
    }
}

/// Two aligned positions of valid UTF-8 bound a slice: the first is a
/// boundary of the text up to the second.
pub proof fn lemma_aligned_range(s: Seq<u8>, from: int, to: int)
    requires
        valid_utf8(s),
        from <= to,
        aligned(s, from),
        aligned(s, to),
    ensures
        is_char_boundary(s, to),
        is_char_boundary(s.subrange(0, to), from),
{
    let head = s.subrange(0, to);
    lemma_aligned_is_boundary(s, to);
    valid_utf8_split(s, to);
    if from == to {
        is_char_boundary_start_end_of_seq(head);
    } else {
        is_char_boundary_iff_not_is_continuation_byte(head, from);
    }
}

} // verus!
