//! The word-packed bitmap.

use crate::error::BitmapError;
use vstd::arithmetic::div_mod::{
    lemma_div_is_ordered, lemma_fundamental_div_mod, lemma_fundamental_div_mod_converse,
    lemma_mod_bound, lemma_multiply_divide_lt,
};
use vstd::prelude::*;

verus! {

/// How many chunks of `width` bits hold `size` bits.
pub open spec fn chunks_needed(size: int, width: int) -> int {
    (size + width - 1) / width
}

/// The number of bits in a chunk.
pub open spec fn chunk_width() -> int {
    usize::BITS as int
}

/// Bit `k` of a chunk.
pub open spec fn chunk_bit(chunk: usize, k: usize) -> bool {
    chunk & (1usize << k) != 0
}

/// A chunk with bit `bit` given the value `value`.
pub open spec fn chunk_with_bit(chunk: usize, bit: usize, value: bool) -> usize {
    if value {
        chunk | (1usize << bit)
    } else {
        chunk & !(1usize << bit)
    }
}

/// The chunks needed hold all the bits, so every position below `size` has
/// its chunk; and a larger size never needs fewer chunks.
pub proof fn lemma_chunks_needed(size: int, width: int)
    requires
        0 <= size,
        0 < width,
    ensures
        0 <= chunks_needed(size, width),
        size <= chunks_needed(size, width) * width,
        forall|p: int| 0 <= p < size ==> 0 <= #[trigger] (p / width) < chunks_needed(size, width),
        forall|smaller: int|
            0 <= smaller <= size ==> #[trigger] chunks_needed(smaller, width) <= chunks_needed(
                size,
                width,
            ),
{
    let n = chunks_needed(size, width);
    lemma_fundamental_div_mod(size + width - 1, width);
    lemma_mod_bound(size + width - 1, width);
    assert(width * n == n * width) by (nonlinear_arith);
    assert(0 <= n) by {
        lemma_div_is_ordered(0, size + width - 1, width);
    }
    assert forall|p: int| 0 <= p < size implies 0 <= #[trigger] (p / width) < n by {
        lemma_multiply_divide_lt(p, width, n);
        lemma_div_is_ordered(0, p, width);
    }
    assert forall|smaller: int| 0 <= smaller <= size implies #[trigger] chunks_needed(
        smaller,
        width,
    ) <= n by {
        lemma_div_is_ordered(smaller + width - 1, size + width - 1, width);
    }
}

/// The number of chunks of `chunk_bit_size` bits that hold `size` bits.
pub fn chunks_count(size: usize, chunk_bit_size: usize) -> (count: usize)
    requires
        chunk_bit_size > 0,
    ensures
        count == chunks_needed(size as int, chunk_bit_size as int),
{
    let whole = size / chunk_bit_size;
    let rest = size % chunk_bit_size;
    proof {
        let s = size as int;
        let w = chunk_bit_size as int;
        lemma_fundamental_div_mod(s, w);
        assert(w * (s / w) == (s / w) * w) by (nonlinear_arith);
        if rest > 0 {
            assert((s / w) * w + w == (s / w + 1) * w) by (nonlinear_arith);
            lemma_fundamental_div_mod_converse(s + w - 1, w, s / w + 1, rest - 1);
            assert((s / w) * w >= s / w) by (nonlinear_arith)
                requires
                    s / w >= 0,
                    w >= 1,
            ;
        } else {
            lemma_fundamental_div_mod_converse(s + w - 1, w, s / w, w - 1);
        }
    }
    if rest > 0 {
        whole + 1
    } else {
        whole
    }
}

/// The chunk that holds `position`, and the bit's place in it.
pub fn bit_index(position: usize, chunk_bit_size: usize) -> (place: (usize, usize))
    requires
        chunk_bit_size > 0,
    ensures
        place.0 == position as int / chunk_bit_size as int,
        place.1 == position as int % chunk_bit_size as int,
        place.1 < chunk_bit_size,
{
    let chunk_index = position / chunk_bit_size;
    let bit_index_in_chunk = position % chunk_bit_size;
    (chunk_index, bit_index_in_chunk)
}

/// A cleared chunk has no bit set.
pub proof fn lemma_chunk_bit_zero(k: usize)
    by (bit_vector)
    requires
        k < usize::BITS,
    ensures
        !chunk_bit(0usize, k),
{
}

/// OR with a single bit sets that bit and leaves the others.
pub proof fn lemma_chunk_bit_raised(chunk: usize, bit: usize, k: usize)
    by (bit_vector)
    requires
        bit < usize::BITS,
        k < usize::BITS,
    ensures
        chunk_bit(chunk | (1usize << bit), k) == (k == bit || chunk_bit(chunk, k)),
{
}

/// AND with all bits but one clears that bit and leaves the others.
pub proof fn lemma_chunk_bit_cleared(chunk: usize, bit: usize, k: usize)
    by (bit_vector)
    requires
        bit < usize::BITS,
        k < usize::BITS,
    ensures
        chunk_bit(chunk & !(1usize << bit), k) == (k != bit && chunk_bit(chunk, k)),
{
}

/// AND of chunks is AND bit by bit.
pub proof fn lemma_chunk_bit_and(x: usize, y: usize, k: usize)
    by (bit_vector)
    requires
        k < usize::BITS,
    ensures
        chunk_bit(x & y, k) == (chunk_bit(x, k) && chunk_bit(y, k)),
{
}

/// OR of chunks is OR bit by bit.
pub proof fn lemma_chunk_bit_or(x: usize, y: usize, k: usize)
    by (bit_vector)
    requires
        k < usize::BITS,
    ensures
        chunk_bit(x | y, k) == (chunk_bit(x, k) || chunk_bit(y, k)),
{
}

/// XOR of chunks is XOR bit by bit.
pub proof fn lemma_chunk_bit_xor(x: usize, y: usize, k: usize)
    by (bit_vector)
    requires
        k < usize::BITS,
    ensures
        chunk_bit(x ^ y, k) == (chunk_bit(x, k) != chunk_bit(y, k)),
{
}

/// NOT of a chunk is NOT bit by bit.
pub proof fn lemma_chunk_bit_not(x: usize, k: usize)
    by (bit_vector)
    requires
        k < usize::BITS,
    ensures
        chunk_bit(!x, k) == !chunk_bit(x, k),
{
}

/// A bitmap of `size` positions packed into chunks of a machine word each.
#[derive(Debug, PartialEq, Eq)]
pub struct Bitmap {
    pub chunks: Vec<usize>,
    pub size: usize,
}

impl View for Bitmap {
    type V = Seq<bool>;

    /// The bitmap as one boolean per position below `size`.
    open spec fn view(&self) -> Seq<bool> {
        Seq::new(self.size as nat, |p: int| self.bit(p))
    }
}

impl Clone for Bitmap {
    fn clone(&self) -> (copy: Bitmap)
        ensures
            copy.size == self.size,
            copy.chunks@ == self.chunks@,
    {
        Bitmap { chunks: self.chunks.clone(), size: self.size }
    }
}

impl Bitmap {
    /// There are as many chunks as `size` positions need.
    pub open spec fn wf(&self) -> bool {
        self.chunks@.len() == chunks_needed(self.size as int, chunk_width())
    }

    /// The number of positions that the chunks hold: `size` and the padding
    /// in the last chunk.
    pub open spec fn capacity(&self) -> int {
        self.chunks@.len() * chunk_width()
    }

    /// The bit stored for position `p`, which may lie in the padding.
    pub open spec fn bit(&self, p: int) -> bool {
        chunk_bit(self.chunks@[p / chunk_width()], (p % chunk_width()) as usize)
    }

    /// A well-formed bitmap has a chunk for each of its positions.
    pub proof fn lemma_capacity(&self)
        requires
            self.wf(),
        ensures
            self.size <= self.capacity(),
            forall|p: int| 0 <= p < self.size ==> 0 <= #[trigger] (p / chunk_width()) < self.chunks@.len(),
    {
        lemma_chunks_needed(self.size as int, chunk_width());
    }

    /// A bitmap of `size` cleared positions.
    pub fn new(size: usize) -> (bitmap: Bitmap)
        ensures
            bitmap.size == size,
            bitmap.wf(),
            forall|i: int| 0 <= i < bitmap.chunks@.len() ==> #[trigger] bitmap.chunks@[i] == 0,
            forall|p: int| 0 <= p < bitmap.capacity() ==> !#[trigger] bitmap.bit(p),
            bitmap@ == crate::model::bits_zero(size as nat),
    {
        let bitmap = Bitmap { chunks: Bitmap::chunks_with_size(size), size };
        proof {
            assert forall|p: int| 0 <= p < bitmap.capacity() implies !#[trigger] bitmap.bit(p) by {
                lemma_place(p, bitmap.chunks@.len() as int);
                lemma_chunk_bit_zero((p % chunk_width()) as usize);
            }
            bitmap.lemma_capacity();
            assert(bitmap@ =~= crate::model::bits_zero(size as nat));
        }
        bitmap
    }

    /// Whether `position` is set. The position may lie in the padding after
    /// `size`, but not after the last chunk.
    pub fn get(&self, position: usize) -> (bit: bool)
        requires
            position < self.capacity(),
        ensures
            bit == self.bit(position as int),
            position < self.size ==> bit == self@[position as int],
    {
        let (chunk_index, bit_index_in_chunk) = bit_index(position, usize::BITS as usize);
        proof {
            lemma_place(position as int, self.chunks@.len() as int);
        }
        let chunk = self.chunks[chunk_index];
        let position_bit = 1usize << bit_index_in_chunk;
        (chunk & position_bit) != 0
    }

    /// Gives `position` the value `value`.
    pub fn set(&mut self, position: usize, value: bool)
        requires
            old(self).wf(),
            position < old(self).size,
        ensures
            final(self).size == old(self).size,
            final(self).wf(),
            final(self).chunks@ == old(self).chunks@.update(
                position as int / chunk_width(),
                chunk_with_bit(
                    old(self).chunks@[position as int / chunk_width()],
                    (position as int % chunk_width()) as usize,
                    value,
                ),
            ),
            final(self).bit(position as int) == value,
            forall|p: int|
                0 <= p < old(self).capacity() && p != position ==> #[trigger] final(self).bit(p)
                    == old(self).bit(p),
            final(self)@ == old(self)@.update(position as int, value),
    {
        let (chunk_index, bit_index_in_chunk) = bit_index(position, usize::BITS as usize);
        proof {
            self.lemma_capacity();
            assert(0 <= position as int / chunk_width() < self.chunks@.len());
        }
        if value {
            self.set_one(chunk_index, bit_index_in_chunk)
        } else {
            self.set_zero(chunk_index, bit_index_in_chunk)
        }
        proof {
            let w = chunk_width();
            assert forall|p: int| 0 <= p < old(self).capacity() implies #[trigger] self.bit(p) == (
            if p == position {
                value
            } else {
                old(self).bit(p)
            }) by {
                lemma_place(p, self.chunks@.len() as int);
                lemma_fundamental_div_mod(p, w);
                lemma_fundamental_div_mod(position as int, w);
                if p / w == chunk_index {
                    let k = (p % w) as usize;
                    if value {
                        lemma_chunk_bit_raised(
                            old(self).chunks@[chunk_index as int],
                            bit_index_in_chunk,
                            k,
                        );
                    } else {
                        lemma_chunk_bit_cleared(
                            old(self).chunks@[chunk_index as int],
                            bit_index_in_chunk,
                            k,
                        );
                    }
                }
            }
            assert(self.bit(position as int) == value);
            assert(self@ =~= old(self)@.update(position as int, value));
        }
    }

    /// Gives `position` the value `value`, or refuses a position that is
    /// not below `size`.
    pub fn try_set(&mut self, position: usize, value: bool) -> (outcome: Result<(), BitmapError>)
        requires
            old(self).wf(),
        ensures
            final(self).size == old(self).size,
            final(self).wf(),
            match outcome {
                Ok(_) => {
                    &&& position < old(self).size
                    &&& final(self).bit(position as int) == value
                    &&& forall|p: int|
                        0 <= p < old(self).capacity() && p != position
                            ==> #[trigger] final(self).bit(p) == old(self).bit(p)
                    &&& final(self)@ == old(self)@.update(position as int, value)
                },
                Err(e) => position >= old(self).size && e == BitmapError::IndexOutOfBounds
                    && final(self).chunks@ == old(self).chunks@,
            },
    {
        if position >= self.size {
            return Err(BitmapError::IndexOutOfBounds);
        }
        self.set(position, value);
        Ok(())
    }

    /// Raises bit `bit` of chunk `chunk`.
    pub fn set_one(&mut self, chunk: usize, bit: usize)
        requires
            chunk < old(self).chunks@.len(),
            bit < usize::BITS,
        ensures
            final(self).size == old(self).size,
            final(self).chunks@ == old(self).chunks@.update(
                chunk as int,
                old(self).chunks@[chunk as int] | (1usize << bit),
            ),
    {
        let raised = self.chunks[chunk] | (1usize << bit);
        self.chunks.set(chunk, raised);
    }

    /// Clears bit `bit` of chunk `chunk`.
    pub fn set_zero(&mut self, chunk: usize, bit: usize)
        requires
            chunk < old(self).chunks@.len(),
            bit < usize::BITS,
        ensures
            final(self).size == old(self).size,
            final(self).chunks@ == old(self).chunks@.update(
                chunk as int,
                old(self).chunks@[chunk as int] & !(1usize << bit),
            ),
    {
        let cleared = self.chunks[chunk] & !(1usize << bit);
        self.chunks.set(chunk, cleared);
    }

    /// As many cleared chunks as `size` positions need.
    pub fn chunks_with_size(size: usize) -> (chunks: Vec<usize>)
        ensures
            chunks@.len() == chunks_needed(size as int, chunk_width()),
            forall|i: int| 0 <= i < chunks@.len() ==> #[trigger] chunks@[i] == 0,
    {
        vec![0; chunks_count(size, usize::BITS as usize)]
    }
}

/// The chunk and the bit of a position that the chunks hold.
pub proof fn lemma_place(p: int, chunks: int)
    requires
        0 <= p < chunks * chunk_width(),
    ensures
        0 <= p / chunk_width() < chunks,
        0 <= p % chunk_width() < usize::BITS,
        (p % chunk_width()) as usize == p % chunk_width(),
{
    let w = chunk_width();
    lemma_mod_bound(p, w);
    assert(chunks * w == w * chunks) by (nonlinear_arith);
    lemma_multiply_divide_lt(p, w, chunks);
    lemma_div_is_ordered(0, p, w);
}

} // verus!
