//! The cursor: a position in a byte buffer that moves forward and back.

use crate::lexer::grammar::{logical_byte, logical_width};
use crate::tokenizer::utils::{CR, LF};
use vstd::prelude::*;

verus! {

/// A position in a buffer, together with the end of the part of the buffer
/// that is being read.
///
/// The cursor reads a carriage return and line feed pair as one line feed
/// and steps over both bytes at once. Every other byte is read as it is.
#[derive(Debug, Clone, Copy)]
pub struct Cursor<'a> {
    bytes: &'a [u8],
    position: usize,
    limit: usize,
}

/// A cursor as contracts see it.
pub struct CursorView {
    /// The whole buffer.
    pub bytes: Seq<u8>,
    /// The offset of the next byte to read.
    pub position: int,
    /// The offset at which reading stops.
    pub limit: int,
}

impl CursorView {
    /// The position lies within the window and the window within the buffer.
    pub open spec fn wf(self) -> bool {
        0 <= self.position <= self.limit <= self.bytes.len()
    }

    /// The window is used up.
    pub open spec fn at_end(self) -> bool {
        self.position >= self.limit
    }

    /// The byte that the cursor reports, if any is left.
    pub open spec fn peek(self) -> Option<u8> {
        if self.at_end() {
            None
        } else {
            Some(logical_byte(self.bytes, self.position, self.limit))
        }
    }

    /// The same cursor at another position.
    pub open spec fn at(self, position: int) -> CursorView {
        CursorView { position, ..self }
    }

    /// The cursor after the byte that it reports; itself at the end.
    pub open spec fn advanced(self) -> CursorView {
        if self.at_end() {
            self
        } else {
            self.at(self.position + logical_width(self.bytes, self.position, self.limit))
        }
    }
}

impl<'a> View for Cursor<'a> {
    type V = CursorView;

    closed spec fn view(&self) -> CursorView {
        CursorView {
            bytes: self.bytes@,
            position: self.position as int,
            limit: self.limit as int,
        }
    }
}

impl<'a> Cursor<'a> {
    /// A cursor at the start of `bytes`, reading to their end.
    pub fn new(bytes: &'a [u8]) -> (cursor: Self)
        ensures
            cursor@ == (CursorView { bytes: bytes@, position: 0, limit: bytes@.len() as int }),
            cursor@.wf(),
    {
        Cursor { bytes, position: 0, limit: bytes.len() }
    }

    /// A cursor on the same buffer that reads `[from, to)`.
    pub fn narrowed(&self, from: usize, to: usize) -> (cursor: Self)
        requires
            from <= to <= self@.bytes.len(),
        ensures
            cursor@ == (CursorView { bytes: self@.bytes, position: from as int, limit: to as int }),
            cursor@.wf(),
    {
        Cursor { bytes: self.bytes, position: from, limit: to }
    }

    /// The offset of the next byte to read.
    pub fn position(&self) -> (position: usize)
        ensures
            position == self@.position,
    {
        self.position
    }

    /// The offset at which reading stops.
    pub fn limit(&self) -> (limit: usize)
        ensures
            limit == self@.limit,
    {
        self.limit
    }

    /// The byte at offset `index` of the buffer, as it is.
    pub fn byte_at(&self, index: usize) -> (byte: u8)
        requires
            index < self@.bytes.len(),
        ensures
            byte == self@.bytes[index as int],
    {
        self.bytes[index]
    }

    /// Whether the window is used up.
    pub fn end_of_content(&self) -> (at_end: bool)
        ensures
            at_end == self@.at_end(),
    {
        self.position >= self.limit
    }

    /// The next byte, without moving.
    pub fn seek_next_byte(&self) -> (byte: Option<u8>)
        requires
            self@.wf(),
        ensures
            byte == self@.peek(),
    {
        if self.end_of_content() {
            None
        } else {
            let byte = self.bytes[self.position];
            if byte == CR && self.position + 1 < self.limit && self.bytes[self.position + 1] == LF {
                Some(LF)
            } else {
                Some(byte)
            }
        }
    }

    /// Whether the next byte is `byte`.
    pub fn at_byte(&self, byte: u8) -> (found: bool)
        requires
            self@.wf(),
        ensures
            found == (self@.peek() == Some(byte)),
    {
        match self.seek_next_byte() {
            Some(next) => next == byte,
            None => false,
        }
    }

    /// The next byte, moving past it. At the end nothing moves.
    pub fn next_byte(&mut self) -> (byte: Option<u8>)
        requires
            old(self)@.wf(),
        ensures
            byte == old(self)@.peek(),
            final(self)@ == old(self)@.advanced(),
            final(self)@.wf(),
    {
        if self.end_of_content() {
            None
        } else {
            let byte = self.bytes[self.position];
            if byte == CR && self.position + 1 < self.limit && self.bytes[self.position + 1] == LF {
                self.go_forward(2);
                Some(LF)
            } else {
                self.go_forward(1);
                Some(byte)
            }
        }
    }

    /// Moves back by `num` bytes. Moving back past the start of the buffer
    /// is a fault of the caller.
    pub fn go_back(&mut self, num: usize)
        requires
            old(self)@.wf(),
            num <= old(self)@.position,
        ensures
            final(self)@ == old(self)@.at(old(self)@.position - num),
            final(self)@.wf(),
    {
        self.position -= num;
    }

    /// Moves forward by `num` bytes, which have to be left in the window.
    pub fn go_forward(&mut self, num: usize)
        requires
            old(self)@.wf(),
            old(self)@.position + num <= old(self)@.limit,
        ensures
            final(self)@ == old(self)@.at(old(self)@.position + num),
            final(self)@.wf(),
    {
        self.position += num;
    }

    /// The byte just before the cursor, as it is.
    pub fn last_byte(&self) -> (byte: u8)
        requires
            self@.wf(),
            self@.position > 0,
        ensures
            byte == self@.bytes[self@.position - 1],
    {
        self.bytes[self.position - 1]
    }

    /// Puts the cursor at `position`, which a call of [`Cursor::position`]
    /// gave before.
    pub fn reset(&mut self, position: usize)
        requires
            old(self)@.wf(),
            position <= old(self)@.limit,
        ensures
            final(self)@ == old(self)@.at(position as int),
            final(self)@.wf(),
    {
        self.position = position;
    }
}

} // verus!
