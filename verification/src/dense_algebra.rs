//! AND, OR, XOR and NOT on word-packed bitmaps, chunk by chunk.

use crate::dense::{
    chunk_width, lemma_chunk_bit_and, lemma_chunk_bit_not, lemma_chunk_bit_or,
    lemma_chunk_bit_xor, lemma_chunks_needed, lemma_place, Bitmap,
};
use crate::model::{bits_and, bits_not, bits_or, bits_xor, shorter, smaller};
use vstd::prelude::*;

verus! {

/// The AND of two chunk lists, chunk by chunk, as far as both reach.
pub open spec fn chunks_and(a: Seq<usize>, b: Seq<usize>) -> Seq<usize> {
    Seq::new(shorter(a.len(), b.len()), |i: int| a[i] & b[i])
}

/// The OR of two chunk lists, chunk by chunk, as far as both reach.
pub open spec fn chunks_or(a: Seq<usize>, b: Seq<usize>) -> Seq<usize> {
    Seq::new(shorter(a.len(), b.len()), |i: int| a[i] | b[i])
}

/// The XOR of two chunk lists, chunk by chunk, as far as both reach.
pub open spec fn chunks_xor(a: Seq<usize>, b: Seq<usize>) -> Seq<usize> {
    Seq::new(shorter(a.len(), b.len()), |i: int| a[i] ^ b[i])
}

/// The NOT of a chunk list, chunk by chunk.
pub open spec fn chunks_not(a: Seq<usize>) -> Seq<usize> {
    Seq::new(a.len(), |i: int| !a[i])
}

impl Bitmap {
    /// The positions set in both bitmaps, over as many positions as the smaller one
    /// has: the AND of the chunks that hold them.
    pub fn bitand(&self, rhs: &Bitmap) -> (result: Bitmap)
        requires
            self.wf(),
            rhs.wf(),
        ensures
            result.size == smaller(self.size, rhs.size),
            result.wf(),
            result.chunks@ == chunks_and(self.chunks@, rhs.chunks@),
            forall|p: int|
                0 <= p < result.capacity() ==> #[trigger] result.bit(p) == (self.bit(p) && rhs.bit(
                    p,
                )),
            result@ == bits_and(self@, rhs@),
    {
        let size = if self.size <= rhs.size { self.size } else { rhs.size };
        let mut chunks = Bitmap::chunks_with_size(size);
        proof {
            lemma_chunks_needed(self.size as int, chunk_width());
            lemma_chunks_needed(rhs.size as int, chunk_width());
        }
        let count = chunks.len();
        let mut id: usize = 0;
        while id < count
            invariant
                id <= count,
                count == chunks@.len(),
                count <= self.chunks@.len(),
                count <= rhs.chunks@.len(),
                forall|i: int|
                    0 <= i < id ==> #[trigger] chunks@[i] == self.chunks@[i] & rhs.chunks@[i],
            decreases count - id,
        {
            chunks.set(id, self.chunks[id] & rhs.chunks[id]);
            id += 1;
        }
        let result = Bitmap { chunks, size };
        proof {
            assert forall|p: int| 0 <= p < result.capacity() implies #[trigger] result.bit(p) == (
            self.bit(p) && rhs.bit(p)) by {
                lemma_place(p, count as int);
                let i = p / chunk_width();
                assert(result.chunks@[i] == self.chunks@[i] & rhs.chunks@[i]);
                lemma_chunk_bit_and(self.chunks@[i], rhs.chunks@[i], (p % chunk_width()) as usize);
            }
            result.lemma_capacity();
            assert(result@ =~= bits_and(self@, rhs@));
            assert(result.chunks@ =~= chunks_and(self.chunks@, rhs.chunks@));
        }
        result
    }

    /// The positions set in either bitmap, over as many positions as the smaller one
    /// has: the OR of the chunks that hold them.
    pub fn bitor(&self, rhs: &Bitmap) -> (result: Bitmap)
        requires
            self.wf(),
            rhs.wf(),
        ensures
            result.size == smaller(self.size, rhs.size),
            result.wf(),
            result.chunks@ == chunks_or(self.chunks@, rhs.chunks@),
            forall|p: int|
                0 <= p < result.capacity() ==> #[trigger] result.bit(p) == (self.bit(p) || rhs.bit(
                    p,
                )),
            result@ == bits_or(self@, rhs@),
    {
        let size = if self.size <= rhs.size { self.size } else { rhs.size };
        let mut chunks = Bitmap::chunks_with_size(size);
        proof {
            lemma_chunks_needed(self.size as int, chunk_width());
            lemma_chunks_needed(rhs.size as int, chunk_width());
        }
        let count = chunks.len();
        let mut id: usize = 0;
        while id < count
            invariant
                id <= count,
                count == chunks@.len(),
                count <= self.chunks@.len(),
                count <= rhs.chunks@.len(),
                forall|i: int|
                    0 <= i < id ==> #[trigger] chunks@[i] == self.chunks@[i] | rhs.chunks@[i],
            decreases count - id,
        {
            chunks.set(id, self.chunks[id] | rhs.chunks[id]);
            id += 1;
        }
        let result = Bitmap { chunks, size };
        proof {
            assert forall|p: int| 0 <= p < result.capacity() implies #[trigger] result.bit(p) == (
            self.bit(p) || rhs.bit(p)) by {
                lemma_place(p, count as int);
                let i = p / chunk_width();
                assert(result.chunks@[i] == self.chunks@[i] | rhs.chunks@[i]);
                lemma_chunk_bit_or(self.chunks@[i], rhs.chunks@[i], (p % chunk_width()) as usize);
            }
            result.lemma_capacity();
            assert(result@ =~= bits_or(self@, rhs@));
            assert(result.chunks@ =~= chunks_or(self.chunks@, rhs.chunks@));
        }
        result
    }

    /// The positions set in one bitmap and not in the other, over as many positions as the smaller one
    /// has: the XOR of the chunks that hold them.
    pub fn bitxor(&self, rhs: &Bitmap) -> (result: Bitmap)
        requires
            self.wf(),
            rhs.wf(),
        ensures
            result.size == smaller(self.size, rhs.size),
            result.wf(),
            result.chunks@ == chunks_xor(self.chunks@, rhs.chunks@),
            forall|p: int|
                0 <= p < result.capacity() ==> #[trigger] result.bit(p) == (self.bit(p) != rhs.bit(
                    p,
                )),
            result@ == bits_xor(self@, rhs@),
    {
        let size = if self.size <= rhs.size { self.size } else { rhs.size };
        let mut chunks = Bitmap::chunks_with_size(size);
        proof {
            lemma_chunks_needed(self.size as int, chunk_width());
            lemma_chunks_needed(rhs.size as int, chunk_width());
        }
        let count = chunks.len();
        let mut id: usize = 0;
        while id < count
            invariant
                id <= count,
                count == chunks@.len(),
                count <= self.chunks@.len(),
                count <= rhs.chunks@.len(),
                forall|i: int|
                    0 <= i < id ==> #[trigger] chunks@[i] == self.chunks@[i] ^ rhs.chunks@[i],
            decreases count - id,
        {
            chunks.set(id, self.chunks[id] ^ rhs.chunks[id]);
            id += 1;
        }
        let result = Bitmap { chunks, size };
        proof {
            assert forall|p: int| 0 <= p < result.capacity() implies #[trigger] result.bit(p) == (
            self.bit(p) != rhs.bit(p)) by {
                lemma_place(p, count as int);
                let i = p / chunk_width();
                assert(result.chunks@[i] == self.chunks@[i] ^ rhs.chunks@[i]);
                lemma_chunk_bit_xor(self.chunks@[i], rhs.chunks@[i], (p % chunk_width()) as usize);
            }
            result.lemma_capacity();
            assert(result@ =~= bits_xor(self@, rhs@));
            assert(result.chunks@ =~= chunks_xor(self.chunks@, rhs.chunks@));
        }
        result
    }

    /// The bitmap with every bit inverted, the padding after `size` too.
    pub fn not(&self) -> (result: Bitmap)
        requires
            self.wf(),
        ensures
            result.size == self.size,
            result.wf(),
            result.chunks@ == chunks_not(self.chunks@),
            forall|p: int| 0 <= p < result.capacity() ==> #[trigger] result.bit(p) == !self.bit(p),
            result@ == bits_not(self@),
    {
        let count = self.chunks.len();
        let mut chunks: Vec<usize> = Vec::new();
        let mut id: usize = 0;
        while id < count
            invariant
                id <= count,
                count == self.chunks@.len(),
                chunks@.len() == id,
                forall|i: int| 0 <= i < id ==> #[trigger] chunks@[i] == !self.chunks@[i],
            decreases count - id,
        {
            chunks.push(!self.chunks[id]);
            id += 1;
        }
        let result = Bitmap { chunks, size: self.size };
        proof {
            assert forall|p: int| 0 <= p < result.capacity() implies #[trigger] result.bit(p)
                == !self.bit(p) by {
                lemma_place(p, count as int);
                let i = p / chunk_width();
                assert(result.chunks@[i] == !self.chunks@[i]);
                lemma_chunk_bit_not(self.chunks@[i], (p % chunk_width()) as usize);
            }
            result.lemma_capacity();
            assert(result@ =~= bits_not(self@));
            assert(result.chunks@ =~= chunks_not(self.chunks@));
        }
        result
    }
}

} // verus!
