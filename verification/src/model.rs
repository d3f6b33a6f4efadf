//! Bitmaps as sequences of booleans, and the operators on them: what both
//! encodings are measured against.

use vstd::prelude::*;

verus! {

/// The smaller of two sizes.
pub open spec fn smaller(a: usize, b: usize) -> usize {
    if a <= b {
        a
    } else {
        b
    }
}

/// The shorter of two lengths.
pub open spec fn shorter(a: nat, b: nat) -> nat {
    if a <= b {
        a
    } else {
        b
    }
}

/// AND, position by position, over the positions that both operands have.
pub open spec fn bits_and(a: Seq<bool>, b: Seq<bool>) -> Seq<bool> {
    Seq::new(shorter(a.len(), b.len()), |p: int| a[p] && b[p])
}

/// OR, position by position, over the positions that both operands have.
pub open spec fn bits_or(a: Seq<bool>, b: Seq<bool>) -> Seq<bool> {
    Seq::new(shorter(a.len(), b.len()), |p: int| a[p] || b[p])
}

/// XOR, position by position, over the positions that both operands have.
pub open spec fn bits_xor(a: Seq<bool>, b: Seq<bool>) -> Seq<bool> {
    Seq::new(shorter(a.len(), b.len()), |p: int| a[p] != b[p])
}

/// NOT, position by position.
pub open spec fn bits_not(a: Seq<bool>) -> Seq<bool> {
    Seq::new(a.len(), |p: int| !a[p])
}

/// NOT below `limit`, position by position; from `limit` on every position
/// is cleared.
pub open spec fn bits_not_below(a: Seq<bool>, limit: int) -> Seq<bool> {
    Seq::new(a.len(), |p: int| p < limit && !a[p])
}

/// As many cleared positions as `size` says.
pub open spec fn bits_zero(size: nat) -> Seq<bool> {
    Seq::new(size, |p: int| false)
}

} // verus!
