//! Reading a word-packed bitmap from text.

use crate::dense::Bitmap;
use crate::error::BitmapError;
use crate::text::{bit_characters, bits_of, is_bit_string};
use vstd::prelude::*;

verus! {

impl Bitmap {
    /// The bitmap that `value` stands for, with a cleared padding; a text
    /// with another character is refused.
    pub fn parse(value: &str) -> (outcome: Result<Bitmap, BitmapError>)
        ensures
            match outcome {
                Ok(bitmap) => {
                    &&& is_bit_string(value@)
                    &&& bitmap.size == value@.len()
                    &&& bitmap.wf()
                    &&& forall|p: int|
                        0 <= p < bitmap.capacity() ==> #[trigger] bitmap.bit(p) == (p
                            < bitmap.size && bits_of(value@)[p])
                    &&& bitmap@ == bits_of(value@)
                },
                Err(e) => e == BitmapError::UnexpectedCharacter && !is_bit_string(value@),
            },
    {
        let bytes = match bit_characters(value) {
            Ok(bytes) => bytes,
            Err(e) => {
                return Err(e);
            },
        };
        let size = bytes.len();
        let ghost bits = bits_of(value@);
        let mut bitmap = Bitmap::new(size);
        let ghost capacity = bitmap.capacity();
        let mut index: usize = 0;
        while index < size
            invariant
                index <= size,
                size == bytes@.len(),
                size == value@.len(),
                bits == bits_of(value@),
                forall|i: int|
                    0 <= i < bytes@.len() ==> (#[trigger] bytes@[i] == 49u8) == (value@[i] == '1'),
                bitmap.size == size,
                bitmap.wf(),
                capacity == bitmap.capacity(),
                forall|p: int|
                    0 <= p < capacity ==> #[trigger] bitmap.bit(p) == (p < index && bits[p]),
            decreases size - index,
        {
            let one = bytes[size - 1 - index] == 49u8;
            assert(one == bits[index as int]);
            bitmap.set(index, one);
            index += 1;
        }
        proof {
            bitmap.lemma_capacity();
            assert(bitmap@ =~= bits);
        }
        Ok(bitmap)
    }

    /// The bitmap that `value`, a text of `'0'` and `'1'`, stands for.
    pub fn from(value: &str) -> (bitmap: Bitmap)
        requires
            is_bit_string(value@),
        ensures
            bitmap.size == value@.len(),
            bitmap.wf(),
            forall|p: int|
                0 <= p < bitmap.capacity() ==> #[trigger] bitmap.bit(p) == (p < bitmap.size
                    && bits_of(value@)[p]),
            bitmap@ == bits_of(value@),
    {
        match Bitmap::parse(value) {
            Ok(bitmap) => bitmap,
            Err(_) => unreached(),
        }
    }
}

} // verus!
