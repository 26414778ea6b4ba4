//! What encoding and decoding can fail with.
use vstd::prelude::*;

verus! {

/// Why a sequence of fields cannot be laid out.
#[derive(Clone, Copy, Debug, PartialEq, Eq, Structural)]
pub enum LayoutError {
    /// A sub-byte field claims no bits at all.
    ZeroWidth,
    /// A sub-byte field claims more bits than the byte being packed has left.
    Overflow,
    /// The output buffer has no room for the bytes to be written.
    BufferFull,
}

/// Why bytes cannot be read as a structure.
#[derive(Clone, Copy, Debug, PartialEq, Eq, Structural)]
pub enum DecodeError {
    /// The input ends before the structure does: `needed` bytes were due
    /// where only `available` are left.
    UnexpectedEnd { needed: usize, available: usize },
    /// The bytes of a name's segment are not well-formed UTF-8.
    InvalidText,
}

} // verus!
