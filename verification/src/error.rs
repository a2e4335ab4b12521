//! Errors returned by the library.

use vstd::prelude::*;

verus! {

/// Why a suffix array, BWT or inverse BWT could not be computed.
#[derive(Debug, Clone, Copy, PartialEq, Eq, Structural)]
pub enum SaisError {
    /// The input length does not fit the suffix array index type.
    InputTooLarge(usize),
    /// An output buffer's length differs from the input's.
    BufferLen { expected: usize, got: usize },
    /// A BWT primary index outside `[1, len]`.
    InvalidPrimaryIndex { primary: i64, len: usize },
}

} // verus!
