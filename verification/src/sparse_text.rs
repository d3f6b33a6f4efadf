//! Reading a run-length encoded bitmap from text and writing it out.

use crate::error::BitmapError;
use crate::run::{covered, lemma_push_covered, separated, Run};
use crate::sparse::SparseBitmap;
use crate::text::{bit_characters, bits_of, is_bit_string, text_from_bits, text_of};
use vstd::prelude::*;

verus! {

impl SparseBitmap {
    /// The bitmap that `value` stands for, with one run for each maximal
    /// stretch of `'1'`; a text with another character is refused.
    pub fn parse(value: &str) -> (outcome: Result<SparseBitmap, BitmapError>)
        ensures
            match outcome {
                Ok(bitmap) => {
                    &&& is_bit_string(value@)
                    &&& bitmap.size == value@.len()
                    &&& bitmap.wf()
                    &&& bitmap.canonical()
                    &&& bitmap@ == bits_of(value@)
                },
                Err(e) => e == BitmapError::UnexpectedCharacter && !is_bit_string(value@),
            },
    {
        let bytes = match bit_characters(value) {
            Ok(bytes) => bytes,
            Err(e) => {
                return Err(e);
            },
        };
        let size = bytes.len();
        let ghost bits = bits_of(value@);
        let mut runs: Vec<Run> = Vec::new();
        let mut start_run: Option<usize> = None;
        let mut index: usize = 0;
        while index < size
            invariant
                index <= size,
                size == bytes@.len(),
                size == value@.len(),
                bits == bits_of(value@),
                forall|i: int|
                    0 <= i < bytes@.len() ==> (#[trigger] bytes@[i] == 49u8) == (value@[i] == '1'),
                start_run matches Some(start) ==> start < index && forall|p: int|
                    start <= p < index ==> #[trigger] bits[p],
                forall|k: int|
                    0 <= k < runs@.len() ==> (#[trigger] runs@[k]).length > 0 && runs@[k].stop() < (
                    match start_run {
                        Some(start) => start,
                        None => index,
                    }),
                separated(runs@),
                forall|p: int|
                    0 <= p < (match start_run {
                        Some(start) => start,
                        None => index,
                    }) ==> #[trigger] covered(runs@, p) == bits[p],
            decreases size - index,
        {
            let one = bytes[size - 1 - index] == 49u8;
            assert(one == bits[index as int]);
            if one {
                if start_run.is_none() {
                    start_run = Some(index);
                }
            } else {
                if let Some(start) = start_run {
                    let ghost before = runs@;
                    let run = Run::new(start, index - start);
                    runs.push(run);
                    start_run = None;
                    proof {
                        assert forall|p: int| 0 <= p < index + 1 implies #[trigger] covered(
                            runs@,
                            p,
                        ) == bits[p] by {
                            lemma_push_covered(before, run, p);
                            if p >= start && covered(before, p) {
                                let k = choose|k: int|
                                    0 <= k < before.len() && (#[trigger] before[k]).covers(p);
                            }
                        }
                    }
                } else {
                    proof {
                        if covered(runs@, index as int) {
                            let k = choose|k: int|
                                0 <= k < runs@.len() && (#[trigger] runs@[k]).covers(index as int);
                        }
                    }
                }
            }
            index += 1;
        }
        if let Some(start) = start_run {
            let ghost before = runs@;
            let run = Run::new(start, size - start);
            runs.push(run);
            proof {
                assert forall|p: int| 0 <= p < size implies #[trigger] covered(runs@, p)
                    == bits[p] by {
                    lemma_push_covered(before, run, p);
                    if p >= start && covered(before, p) {
                        let k = choose|k: int|
                            0 <= k < before.len() && (#[trigger] before[k]).covers(p);
                    }
                }
            }
        }
        let bitmap = SparseBitmap { runs, size };
        assert(bitmap@ =~= bits);
        Ok(bitmap)
    }

    /// The bitmap that `value`, a text of `'0'` and `'1'`, stands for.
    pub fn from(value: &str) -> (bitmap: SparseBitmap)
        requires
            is_bit_string(value@),
        ensures
            bitmap.size == value@.len(),
            bitmap.wf(),
            bitmap.canonical(),
            bitmap@ == bits_of(value@),
    {
        match SparseBitmap::parse(value) {
            Ok(bitmap) => bitmap,
            Err(_) => unreached(),
        }
    }

    /// The bitmap as one boolean per position.
    pub fn to_bits(&self) -> (bits: Vec<bool>)
        requires
            self.wf(),
            self.bounded(),
        ensures
            bits@ == self@,
    {
        let size = self.size;
        let mut bits: Vec<bool> = vec![false; size];
        let mut k: usize = 0;
        while k < self.runs.len()
            invariant
                k <= self.runs.len(),
                size == self.size,
                self.wf(),
                self.bounded(),
                bits@.len() == size,
                forall|p: int|
                    0 <= p < size ==> #[trigger] bits@[p] == covered(
                        self.runs@.subrange(0, k as int),
                        p,
                    ),
            decreases self.runs.len() - k,
        {
            let run = self.runs[k];
            let end = run.end();
            let ghost done = self.runs@.subrange(0, k as int);
            assert(self.runs@[k as int].stop() <= size);
            let mut p: usize = run.start;
            while p < end
                invariant
                    run.start <= p <= end,
                    end == run.stop(),
                    end <= size,
                    bits@.len() == size,
                    forall|q: int|
                        0 <= q < size ==> #[trigger] bits@[q] == (covered(done, q) || (run.start
                            <= q < p)),
                decreases end - p,
            {
                bits.set(p, true);
                p += 1;
            }
            proof {
                assert(self.runs@.subrange(0, k + 1) =~= done.push(run));
                assert forall|q: int| 0 <= q < size implies #[trigger] bits@[q] == covered(
                    self.runs@.subrange(0, k + 1),
                    q,
                ) by {
                    lemma_push_covered(done, run, q);
                }
            }
            k += 1;
        }
        assert(self.runs@.subrange(0, k as int) =~= self.runs@);
        assert(bits@ =~= self@);
        bits
    }

    /// The bitmap as text, `size` characters long.
    pub fn to_string(&self) -> (text: String)
        requires
            self.wf(),
            self.bounded(),
        ensures
            text@ == text_of(self@),
    {
        let bits = self.to_bits();
        text_from_bits(&bits)
    }
}

} // verus!
