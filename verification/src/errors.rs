//! The typed failures a decode can end in. Every failure is terminal for the
//! decode call: no partial tree is ever returned.
use vstd::prelude::*;

verus! {

/// Why a decode failed, with enough context to diagnose the corruption.
#[derive(Debug, Clone, Copy, PartialEq, Eq)]
pub enum DecodeError {
    /// A read ran past the end of the buffer: `needed` more bytes were
    /// requested starting at byte `offset`.
    OutOfBounds { offset: usize, needed: u64 },
    /// The bytes at `offset` are malformed: a slot tag outside the known set
    /// (`found` carries the offending byte), or, with `found` absent, a name
    /// that is not valid UTF-8.
    InvalidEncoding { offset: usize, found: Option<u8> },
    /// A struct slot was encountered; its field layout has no defined wire
    /// encoding, so it is rejected rather than mis-decoded.
    UnsupportedNode { offset: usize },
}

} // verus!
