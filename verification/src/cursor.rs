//! A minimal forward-only reader over an immutable byte buffer.
//!
//! Every read is bounds-checked: a read past the end of the buffer fails with
//! [`DecodeError::OutOfBounds`] and leaves the position where it was; the
//! cursor never returns short or zero-padded data.
use crate::errors::DecodeError;
use vstd::bytes::{spec_u64_from_le_bytes, u64_from_le_bytes};
use vstd::prelude::*;
use vstd::slice::{slice_subrange, slice_to_vec};

verus! {

/// What reading one byte at position `p` of `b` yields: the byte and the new
/// position, or an out-of-bounds failure.
pub open spec fn spec_read_u8(b: Seq<u8>, p: int) -> Result<(u8, int), DecodeError> {
    if p + 1 <= b.len() {
        Ok((b[p], p + 1))
    } else {
        Err(DecodeError::OutOfBounds { offset: p as usize, needed: 1 })
    }
}

/// What reading a little-endian `u64` at position `p` of `b` yields.
pub open spec fn spec_read_u64_le(b: Seq<u8>, p: int) -> Result<(u64, int), DecodeError> {
    if p + 8 <= b.len() {
        Ok((spec_u64_from_le_bytes(b.subrange(p, p + 8)), p + 8))
    } else {
        Err(DecodeError::OutOfBounds { offset: p as usize, needed: 8 })
    }
}

/// What reading exactly `n` bytes at position `p` of `b` yields.
pub open spec fn spec_read_exact(b: Seq<u8>, p: int, n: int) -> Result<(Seq<u8>, int), DecodeError> {
    if p + n <= b.len() {
        Ok((b.subrange(p, p + n), p + n))
    } else {
        Err(DecodeError::OutOfBounds { offset: p as usize, needed: n as u64 })
    }
}

/// A forward-only reader over an immutable byte buffer, tracking the position
/// of the next unread byte.
pub struct Cursor {
    bytes: Vec<u8>,
    pos: usize,
}

impl Cursor {
    /// The whole underlying buffer; it never changes while the cursor reads.
    pub closed spec fn data(self) -> Seq<u8> {
        self.bytes@
    }

    /// The position of the next unread byte.
    pub closed spec fn at(self) -> int {
        self.pos as int
    }

    /// The position never runs past the end of the buffer.
    pub open spec fn inv(self) -> bool {
        0 <= self.at() <= self.data().len()
    }

    /// Wrap a buffer, ready to read from its start.
    pub fn new(bytes: Vec<u8>) -> (c: Cursor)
        ensures
            c.data() == bytes@,
            c.at() == 0,
            c.inv(),
    {
        Cursor { bytes, pos: 0 }
    }

    /// The current read position.
    pub fn position(&self) -> (r: usize)
        ensures
            r == self.at(),
    {
        self.pos
    }

    /// Consume one byte.
    pub fn read_u8(&mut self) -> (r: Result<u8, DecodeError>)
        requires
            old(self).inv(),
        ensures
            final(self).inv(),
            final(self).data() == old(self).data(),
            (match spec_read_u8(old(self).data(), old(self).at()) {
                Ok((v, p)) => r == Ok::<u8, DecodeError>(v) && final(self).at() == p,
                Err(e) => r == Err::<u8, DecodeError>(e) && final(self).at() == old(self).at(),
            }),
    {
        if self.bytes.len() - self.pos >= 1 {
            let v = self.bytes[self.pos];
            self.pos = self.pos + 1;
            Ok(v)
        } else {
            Err(DecodeError::OutOfBounds { offset: self.pos, needed: 1 })
        }
    }

    /// Consume 8 bytes as a little-endian unsigned integer.
    pub fn read_u64_le(&mut self) -> (r: Result<u64, DecodeError>)
        requires
            old(self).inv(),
        ensures
            final(self).inv(),
            final(self).data() == old(self).data(),
            (match spec_read_u64_le(old(self).data(), old(self).at()) {
                Ok((v, p)) => r == Ok::<u64, DecodeError>(v) && final(self).at() == p,
                Err(e) => r == Err::<u64, DecodeError>(e) && final(self).at() == old(self).at(),
            }),
    {
        if self.bytes.len() - self.pos >= 8 {
            let s = slice_subrange(self.bytes.as_slice(), self.pos, self.pos + 8);
            let v = u64_from_le_bytes(s);
            self.pos = self.pos + 8;
            Ok(v)
        } else {
            Err(DecodeError::OutOfBounds { offset: self.pos, needed: 8 })
        }
    }

    /// Consume exactly `n` bytes into a freshly allocated buffer.
    pub fn read_exact(&mut self, n: u64) -> (r: Result<Vec<u8>, DecodeError>)
        requires
            old(self).inv(),
        ensures
            final(self).inv(),
            final(self).data() == old(self).data(),
            (match spec_read_exact(old(self).data(), old(self).at(), n as int) {
                Ok((bs, p)) => r matches Ok(v) && v@ == bs && final(self).at() == p,
                Err(e) => r == Err::<Vec<u8>, DecodeError>(e) && final(self).at() == old(self).at(),
            }),
    {
        let remaining = self.bytes.len() - self.pos;
        if n <= remaining as u64 {
            let n_small = n as usize;
            let s = slice_subrange(self.bytes.as_slice(), self.pos, self.pos + n_small);
            let v = slice_to_vec(s);
            self.pos = self.pos + n_small;
            Ok(v)
        } else {
            Err(DecodeError::OutOfBounds { offset: self.pos, needed: n })
        }
    }
}

} // verus!
