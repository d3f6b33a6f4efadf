//! The two ways a caller can misuse a bitmap.

use vstd::prelude::*;

verus! {

/// Why an operation on a bitmap was refused.
#[derive(Debug, Clone, Copy, PartialEq, Eq, Structural)]
pub enum BitmapError {
    /// The position is not below the bitmap's size.
    IndexOutOfBounds,
    /// The text holds a character other than `'0'` and `'1'`.
    UnexpectedCharacter,
}

} // verus!
