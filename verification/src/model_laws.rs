//! The laws of boolean algebra on bit sequences. A word-packed bitmap's
//! operators return these sequences, so the laws are theirs.

use crate::model::{bits_and, bits_not, bits_or, bits_xor, bits_zero};
use vstd::prelude::*;

verus! {

/// AND does not depend on the order of its operands.
pub proof fn lemma_and_commutes(a: Seq<bool>, b: Seq<bool>)
    ensures
        bits_and(a, b) == bits_and(b, a),
{
    assert(bits_and(a, b) =~= bits_and(b, a));
}

/// OR does not depend on the order of its operands.
pub proof fn lemma_or_commutes(a: Seq<bool>, b: Seq<bool>)
    ensures
        bits_or(a, b) == bits_or(b, a),
{
    assert(bits_or(a, b) =~= bits_or(b, a));
}

/// XOR does not depend on the order of its operands.
pub proof fn lemma_xor_commutes(a: Seq<bool>, b: Seq<bool>)
    ensures
        bits_xor(a, b) == bits_xor(b, a),
{
    assert(bits_xor(a, b) =~= bits_xor(b, a));
}

/// NOT undoes NOT.
pub proof fn lemma_not_not(a: Seq<bool>)
    ensures
        bits_not(bits_not(a)) == a,
{
    assert(bits_not(bits_not(a)) =~= a);
}

/// De Morgan: the NOT of an AND is the OR of the NOTs.
pub proof fn lemma_de_morgan_and(a: Seq<bool>, b: Seq<bool>)
    ensures
        bits_not(bits_and(a, b)) == bits_or(bits_not(a), bits_not(b)),
{
    assert(bits_not(bits_and(a, b)) =~= bits_or(bits_not(a), bits_not(b)));
}

/// De Morgan: the NOT of an OR is the AND of the NOTs.
pub proof fn lemma_de_morgan_or(a: Seq<bool>, b: Seq<bool>)
    ensures
        bits_not(bits_or(a, b)) == bits_and(bits_not(a), bits_not(b)),
{
    assert(bits_not(bits_or(a, b)) =~= bits_and(bits_not(a), bits_not(b)));
}

/// A bitmap AND itself is the bitmap.
pub proof fn lemma_and_self(a: Seq<bool>)
    ensures
        bits_and(a, a) == a,
{
    assert(bits_and(a, a) =~= a);
}

/// A bitmap OR itself is the bitmap.
pub proof fn lemma_or_self(a: Seq<bool>)
    ensures
        bits_or(a, a) == a,
{
    assert(bits_or(a, a) =~= a);
}

/// A bitmap XOR itself has every position cleared.
pub proof fn lemma_xor_self(a: Seq<bool>)
    ensures
        bits_xor(a, a) == bits_zero(a.len()),
{
    assert(bits_xor(a, a) =~= bits_zero(a.len()));
}

/// The binary operators give as many positions as the shorter operand has,
/// NOT as many as its operand.
pub proof fn lemma_operator_sizes(a: Seq<bool>, b: Seq<bool>)
    ensures
        bits_and(a, b).len() == crate::model::shorter(a.len(), b.len()),
        bits_or(a, b).len() == crate::model::shorter(a.len(), b.len()),
        bits_xor(a, b).len() == crate::model::shorter(a.len(), b.len()),
        bits_not(a).len() == a.len(),
{
}

} // verus!
