//! The two encodings hold the same positions: after reading one text, and
//! after applying the same operator to operands that agree.

use crate::dense::Bitmap;
use crate::model::{bits_and, bits_not, bits_or, bits_xor, smaller};
use crate::run::{covered, ordered, separated};
use crate::sparse::SparseBitmap;
use crate::sparse_algebra::{and_runs, not_runs, or_runs, xor_runs};
use crate::sparse_algebra_laws::{
    lemma_sparse_and, lemma_sparse_not, lemma_sparse_or, lemma_sparse_xor,
};
use crate::sparse_laws::last_stop;
use crate::text::{bits_of, is_bit_string, text_of};
use vstd::prelude::*;

verus! {

/// A word-packed and a run-length encoded bitmap read from one text agree
/// with the text and with each other on every position, and are written
/// out as that text.
pub proof fn lemma_parsed_agree(dense: Bitmap, sparse: SparseBitmap, text: Seq<char>)
    requires
        is_bit_string(text),
        dense@ == bits_of(text),
        sparse@ == bits_of(text),
    ensures
        dense.size == text.len(),
        sparse.size == text.len(),
        forall|p: int|
            0 <= p < text.len() ==> #[trigger] dense.bit(p) == (text[text.len() - 1 - p] == '1'),
        forall|p: int|
            0 <= p < text.len() ==> #[trigger] covered(sparse.runs@, p) == (text[text.len() - 1
                - p] == '1'),
        text_of(sparse@) == text,
        text_of(dense@) == text,
{
    assert(dense@.len() == text.len());
    assert(sparse@.len() == text.len());
    assert forall|p: int| 0 <= p < text.len() implies #[trigger] dense.bit(p) == (text[text.len()
        - 1 - p] == '1') by {
        assert(dense@[p] == bits_of(text)[p]);
    }
    assert forall|p: int| 0 <= p < text.len() implies #[trigger] covered(sparse.runs@, p) == (
    text[text.len() - 1 - p] == '1') by {
        assert(sparse@[p] == bits_of(text)[p]);
    }
    crate::text::lemma_text_round_trip(text);
}

/// The AND of two run-length encoded bitmaps with runs in order is, bit
/// for bit, the AND of two word-packed bitmaps that agree with them.
pub proof fn lemma_and_agrees(
    dense_a: Bitmap,
    dense_b: Bitmap,
    dense_and: Bitmap,
    sparse_a: SparseBitmap,
    sparse_b: SparseBitmap,
    sparse_and: SparseBitmap,
)
    requires
        dense_a@ == sparse_a@,
        dense_b@ == sparse_b@,
        sparse_a.wf(),
        sparse_b.wf(),
        ordered(sparse_a.runs@),
        ordered(sparse_b.runs@),
        dense_and@ == bits_and(dense_a@, dense_b@),
        sparse_and.size == smaller(sparse_a.size, sparse_b.size),
        sparse_and.runs@ == and_runs(sparse_a.runs@, sparse_b.runs@),
    ensures
        sparse_and@ == dense_and@,
        text_of(sparse_and@) == text_of(dense_and@),
{
    lemma_sparse_and(sparse_a.runs@, sparse_b.runs@, sparse_a.size as nat, sparse_b.size as nat);
}

/// The OR of two run-length encoded bitmaps is, bit for bit, the OR of two
/// word-packed bitmaps that agree with them.
pub proof fn lemma_or_agrees(
    dense_a: Bitmap,
    dense_b: Bitmap,
    dense_or: Bitmap,
    sparse_a: SparseBitmap,
    sparse_b: SparseBitmap,
    sparse_or: SparseBitmap,
)
    requires
        dense_a@ == sparse_a@,
        dense_b@ == sparse_b@,
        sparse_a.wf(),
        sparse_b.wf(),
        dense_or@ == bits_or(dense_a@, dense_b@),
        sparse_or.size == smaller(sparse_a.size, sparse_b.size),
        sparse_or.runs@ == or_runs(sparse_a.runs@, sparse_b.runs@, sparse_or.size as int),
    ensures
        sparse_or@ == dense_or@,
        text_of(sparse_or@) == text_of(dense_or@),
{
    lemma_sparse_or(sparse_a.runs@, sparse_b.runs@, sparse_a.size as nat, sparse_b.size as nat);
}

/// The XOR of two run-length encoded bitmaps with runs in order and apart
/// is, bit for bit, the XOR of two word-packed bitmaps that agree with
/// them.
pub proof fn lemma_xor_agrees(
    dense_a: Bitmap,
    dense_b: Bitmap,
    dense_xor: Bitmap,
    sparse_a: SparseBitmap,
    sparse_b: SparseBitmap,
    sparse_xor: SparseBitmap,
)
    requires
        dense_a@ == sparse_a@,
        dense_b@ == sparse_b@,
        sparse_a.wf(),
        sparse_b.wf(),
        separated(sparse_a.runs@),
        separated(sparse_b.runs@),
        dense_xor@ == bits_xor(dense_a@, dense_b@),
        sparse_xor.size == smaller(sparse_a.size, sparse_b.size),
        sparse_xor.runs@ == xor_runs(sparse_a.runs@, sparse_b.runs@, sparse_xor.size as int),
    ensures
        sparse_xor@ == dense_xor@,
        text_of(sparse_xor@) == text_of(dense_xor@),
{
    lemma_sparse_xor(sparse_a.runs@, sparse_b.runs@, sparse_a.size as nat, sparse_b.size as nat);
}

/// The NOT of a run-length encoded bitmap with runs in order agrees with
/// the NOT of a word-packed bitmap that agrees with it on the positions
/// before the end of its last run; from there on it holds none, so the two
/// agree everywhere if and only if no cleared position is left there.
pub proof fn lemma_not_agrees(
    dense: Bitmap,
    dense_not: Bitmap,
    sparse: SparseBitmap,
    sparse_not: SparseBitmap,
)
    requires
        dense@ == sparse@,
        sparse.wf(),
        ordered(sparse.runs@),
        dense_not@ == bits_not(dense@),
        sparse_not.size == sparse.size,
        sparse_not.runs@ == not_runs(sparse.runs@),
    ensures
        forall|p: int|
            0 <= p < sparse.size && p < last_stop(sparse.runs@) ==> sparse_not@[p] == dense_not@[p],
        forall|p: int|
            0 <= p < sparse.size && p >= last_stop(sparse.runs@) ==> !sparse_not@[p],
        sparse_not@ == dense_not@ <==> (forall|p: int|
            last_stop(sparse.runs@) <= p < sparse.size ==> #[trigger] covered(sparse.runs@, p)),
{
    lemma_sparse_not(sparse.runs@, sparse.size as nat);
    let limit = last_stop(sparse.runs@);
    if sparse_not@ == dense_not@ {
        assert forall|p: int| limit <= p < sparse.size implies #[trigger] covered(
            sparse.runs@,
            p,
        ) by {
            assert(sparse_not@[p] == dense_not@[p]);
            assert(dense@[p] == sparse@[p]);
        }
    }
    if forall|p: int| limit <= p < sparse.size ==> #[trigger] covered(sparse.runs@, p) {
        assert forall|p: int| 0 <= p < sparse.size implies sparse_not@[p] == dense_not@[p] by {
            assert(dense@[p] == sparse@[p]);
            if p >= limit {
                assert(covered(sparse.runs@, p));
            }
        }
        assert(sparse_not@ =~= dense_not@);
    }
}

} // verus!
