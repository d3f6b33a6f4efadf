//! The laws of boolean algebra on the chunks of word-packed bitmaps. They
//! hold of whole chunks, so of the padding after a bitmap's last position
//! too.

use crate::dense_algebra::{chunks_and, chunks_not, chunks_or, chunks_xor};
use vstd::prelude::*;

verus! {

proof fn lemma_word_and_commutes(x: usize, y: usize)
    by (bit_vector)
    ensures
        x & y == y & x,
{
}

proof fn lemma_word_or_commutes(x: usize, y: usize)
    by (bit_vector)
    ensures
        x | y == y | x,
{
}

proof fn lemma_word_xor_commutes(x: usize, y: usize)
    by (bit_vector)
    ensures
        x ^ y == y ^ x,
{
}

proof fn lemma_word_not_not(x: usize)
    by (bit_vector)
    ensures
        !(!x) == x,
{
}

proof fn lemma_word_de_morgan(x: usize, y: usize)
    by (bit_vector)
    ensures
        !(x & y) == !x | !y,
        !(x | y) == !x & !y,
{
}

proof fn lemma_word_self(x: usize)
    by (bit_vector)
    ensures
        x & x == x,
        x | x == x,
        x ^ x == 0,
{
}

/// AND of chunks does not depend on the order of the operands.
pub proof fn lemma_chunks_and_commutes(a: Seq<usize>, b: Seq<usize>)
    ensures
        chunks_and(a, b) == chunks_and(b, a),
{
    assert forall|i: int| 0 <= i < a.len() && i < b.len() implies #[trigger] (a[i] & b[i])
        == b[i] & a[i] by {
        lemma_word_and_commutes(a[i], b[i]);
    }
    assert(chunks_and(a, b) =~= chunks_and(b, a));
}

/// OR of chunks does not depend on the order of the operands.
pub proof fn lemma_chunks_or_commutes(a: Seq<usize>, b: Seq<usize>)
    ensures
        chunks_or(a, b) == chunks_or(b, a),
{
    assert forall|i: int| 0 <= i < a.len() && i < b.len() implies #[trigger] (a[i] | b[i])
        == b[i] | a[i] by {
        lemma_word_or_commutes(a[i], b[i]);
    }
    assert(chunks_or(a, b) =~= chunks_or(b, a));
}

/// XOR of chunks does not depend on the order of the operands.
pub proof fn lemma_chunks_xor_commutes(a: Seq<usize>, b: Seq<usize>)
    ensures
        chunks_xor(a, b) == chunks_xor(b, a),
{
    assert forall|i: int| 0 <= i < a.len() && i < b.len() implies #[trigger] (a[i] ^ b[i])
        == b[i] ^ a[i] by {
        lemma_word_xor_commutes(a[i], b[i]);
    }
    assert(chunks_xor(a, b) =~= chunks_xor(b, a));
}

/// NOT of chunks undoes NOT of chunks.
pub proof fn lemma_chunks_not_not(a: Seq<usize>)
    ensures
        chunks_not(chunks_not(a)) == a,
{
    assert forall|i: int| 0 <= i < a.len() implies #[trigger] chunks_not(chunks_not(a))[i]
        == a[i] by {
        lemma_word_not_not(a[i]);
    }
    assert(chunks_not(chunks_not(a)) =~= a);
}

/// De Morgan on chunks: the NOT of an AND is the OR of the NOTs.
pub proof fn lemma_chunks_de_morgan_and(a: Seq<usize>, b: Seq<usize>)
    ensures
        chunks_not(chunks_and(a, b)) == chunks_or(chunks_not(a), chunks_not(b)),
{
    let left = chunks_not(chunks_and(a, b));
    let right = chunks_or(chunks_not(a), chunks_not(b));
    assert forall|i: int| 0 <= i < left.len() implies #[trigger] left[i] == right[i] by {
        lemma_word_de_morgan(a[i], b[i]);
    }
    assert(left =~= right);
}

/// De Morgan on chunks: the NOT of an OR is the AND of the NOTs.
pub proof fn lemma_chunks_de_morgan_or(a: Seq<usize>, b: Seq<usize>)
    ensures
        chunks_not(chunks_or(a, b)) == chunks_and(chunks_not(a), chunks_not(b)),
{
    let left = chunks_not(chunks_or(a, b));
    let right = chunks_and(chunks_not(a), chunks_not(b));
    assert forall|i: int| 0 <= i < left.len() implies #[trigger] left[i] == right[i] by {
        lemma_word_de_morgan(a[i], b[i]);
    }
    assert(left =~= right);
}

/// Chunks AND themselves, and OR themselves, are the same chunks; chunks
/// XOR themselves are cleared.
pub proof fn lemma_chunks_self(a: Seq<usize>)
    ensures
        chunks_and(a, a) == a,
        chunks_or(a, a) == a,
        chunks_xor(a, a) == Seq::new(a.len(), |i: int| 0usize),
{
    assert forall|i: int| 0 <= i < a.len() implies #[trigger] (a[i] & a[i]) == a[i] && (a[i]
        | a[i]) == a[i] && (a[i] ^ a[i]) == 0 by {
        lemma_word_self(a[i]);
    }
    assert(chunks_and(a, a) =~= a);
    assert(chunks_or(a, a) =~= a);
    assert(chunks_xor(a, a) =~= Seq::new(a.len(), |i: int| 0usize));
}

} // verus!
