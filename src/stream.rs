//! An in-memory byte stream read front to back.

use vstd::prelude::*;

verus! {

/// Why a record could not be decoded.
#[derive(Clone, Copy, Debug, PartialEq, Eq, Structural)]
pub enum StreamError {
    /// The stream ended in the middle of a value or a record.
    Truncated,
    /// A record did not start with the two magic header bytes.
    BadHeader,
}

/// A sequence of bytes with a read position.
///
/// Positions at or past the end of `data` mean that the stream is exhausted.
pub struct ByteStream {
    pub data: Vec<u8>,
    pub pos: usize,
}

impl ByteStream {
    /// A stream positioned at the first byte of `data`.
    pub fn new(data: Vec<u8>) -> (r: ByteStream)
        ensures
            r.data@ == data@,
            r.pos == 0,
    {
        ByteStream { data, pos: 0 }
    }

    /// Moves the read position back to the start.
    pub fn rewind(&mut self)
        ensures
            final(self).data@ == old(self).data@,
            final(self).pos == 0,
    {
        self.pos = 0;
    }

    /// Reads the next byte, or `None` when the stream is exhausted.
    pub fn read_byte(&mut self) -> (r: Option<u8>)
        ensures
            final(self).data@ == old(self).data@,
            old(self).pos < old(self).data@.len() ==> {
                &&& r == Some(old(self).data@[old(self).pos as int])
                &&& final(self).pos == old(self).pos + 1
            },
            old(self).pos >= old(self).data@.len() ==> {
                &&& r is None
                &&& final(self).pos == old(self).pos
            },
    {
        if self.pos < self.data.len() {
            let b = self.data[self.pos];
            self.pos = self.pos + 1;
            Some(b)
        } else {
            None
        }
    }
}

} // verus!
