//! The operators `&`, `|`, `^` and `!` on borrowed bitmaps, each one the
//! method of the same name.

use crate::dense::Bitmap;
use crate::dense_algebra::{chunks_and, chunks_not, chunks_or, chunks_xor};
use crate::model::{bits_and, bits_not, bits_not_below, bits_or, bits_xor, smaller};
use crate::run::{all_nonempty, ordered, separated};
use crate::sparse::SparseBitmap;
use crate::sparse_algebra::{and_runs, not_runs, or_runs, xor_runs};
use crate::sparse_laws::last_stop;
use core::ops::{BitAnd, BitOr, BitXor, Not};
use vstd::prelude::*;
use vstd::std_specs::ops::{BitAndSpecImpl, BitOrSpecImpl, BitXorSpecImpl, NotSpecImpl};

verus! {

impl BitAndSpecImpl for &Bitmap {
    /// The operator's result is stated by its `ensures`, not by `bitand_spec`.
    open spec fn obeys_bitand_spec() -> bool {
        false
    }

    open spec fn bitand_req(self, rhs: &Bitmap) -> bool {
        self.wf() && rhs.wf()
    }

    open spec fn bitand_spec(self, rhs: &Bitmap) -> Bitmap {
        *self
    }
}

impl BitAnd for &Bitmap {
    type Output = Bitmap;

    fn bitand(self, rhs: &Bitmap) -> (result: Bitmap)
        ensures
            result.size == smaller(self.size, rhs.size),
            result.wf(),
            result.chunks@ == chunks_and(self.chunks@, rhs.chunks@),
            result@ == bits_and(self@, rhs@),
    {
        Bitmap::bitand(self, rhs)
    }
}

impl BitOrSpecImpl for &Bitmap {
    /// The operator's result is stated by its `ensures`, not by `bitor_spec`.
    open spec fn obeys_bitor_spec() -> bool {
        false
    }

    open spec fn bitor_req(self, rhs: &Bitmap) -> bool {
        self.wf() && rhs.wf()
    }

    open spec fn bitor_spec(self, rhs: &Bitmap) -> Bitmap {
        *self
    }
}

impl BitOr for &Bitmap {
    type Output = Bitmap;

    fn bitor(self, rhs: &Bitmap) -> (result: Bitmap)
        ensures
            result.size == smaller(self.size, rhs.size),
            result.wf(),
            result.chunks@ == chunks_or(self.chunks@, rhs.chunks@),
            result@ == bits_or(self@, rhs@),
    {
        Bitmap::bitor(self, rhs)
    }
}

impl BitXorSpecImpl for &Bitmap {
    /// The operator's result is stated by its `ensures`, not by `bitxor_spec`.
    open spec fn obeys_bitxor_spec() -> bool {
        false
    }

    open spec fn bitxor_req(self, rhs: &Bitmap) -> bool {
        self.wf() && rhs.wf()
    }

    open spec fn bitxor_spec(self, rhs: &Bitmap) -> Bitmap {
        *self
    }
}

impl BitXor for &Bitmap {
    type Output = Bitmap;

    fn bitxor(self, rhs: &Bitmap) -> (result: Bitmap)
        ensures
            result.size == smaller(self.size, rhs.size),
            result.wf(),
            result.chunks@ == chunks_xor(self.chunks@, rhs.chunks@),
            result@ == bits_xor(self@, rhs@),
    {
        Bitmap::bitxor(self, rhs)
    }
}

impl NotSpecImpl for &Bitmap {
    /// The operator's result is stated by its `ensures`, not by `not_spec`.
    open spec fn obeys_not_spec() -> bool {
        false
    }

    open spec fn not_req(self) -> bool {
        self.wf()
    }

    open spec fn not_spec(self) -> Bitmap {
        *self
    }
}

impl Not for &Bitmap {
    type Output = Bitmap;

    fn not(self) -> (result: Bitmap)
        ensures
            result.size == self.size,
            result.wf(),
            result.chunks@ == chunks_not(self.chunks@),
            result@ == bits_not(self@),
    {
        Bitmap::not(self)
    }
}

impl BitAndSpecImpl for &SparseBitmap {
    /// The operator's result is stated by its `ensures`, not by `bitand_spec`.
    open spec fn obeys_bitand_spec() -> bool {
        false
    }

    open spec fn bitand_req(self, rhs: &SparseBitmap) -> bool {
        self.wf() && rhs.wf()
    }

    open spec fn bitand_spec(self, rhs: &SparseBitmap) -> SparseBitmap {
        *self
    }
}

impl BitAnd for &SparseBitmap {
    type Output = SparseBitmap;

    fn bitand(self, rhs: &SparseBitmap) -> (result: SparseBitmap)
        ensures
            result.size == smaller(self.size, rhs.size),
            result.wf(),
            result.runs@ == and_runs(self.runs@, rhs.runs@),
            all_nonempty(result.runs@),
            self.bounded() && rhs.bounded() ==> result.bounded(),
            ordered(self.runs@) && ordered(rhs.runs@) ==> result@ == bits_and(self@, rhs@),
            self.canonical() && rhs.canonical() ==> result.canonical() && result@ == bits_and(
                self@,
                rhs@,
            ),
    {
        SparseBitmap::bitand(self, rhs)
    }
}

impl BitOrSpecImpl for &SparseBitmap {
    /// The operator's result is stated by its `ensures`, not by `bitor_spec`.
    open spec fn obeys_bitor_spec() -> bool {
        false
    }

    open spec fn bitor_req(self, rhs: &SparseBitmap) -> bool {
        self.wf() && rhs.wf()
    }

    open spec fn bitor_spec(self, rhs: &SparseBitmap) -> SparseBitmap {
        *self
    }
}

impl BitOr for &SparseBitmap {
    type Output = SparseBitmap;

    fn bitor(self, rhs: &SparseBitmap) -> (result: SparseBitmap)
        ensures
            result.size == smaller(self.size, rhs.size),
            result.wf(),
            result.runs@ == or_runs(self.runs@, rhs.runs@, result.size as int),
            result.bounded(),
            all_nonempty(result.runs@),
            result@ == bits_or(self@, rhs@),
            ordered(self.runs@) && ordered(rhs.runs@) ==> result.canonical(),
            self.canonical() && rhs.canonical() ==> result.canonical(),
    {
        SparseBitmap::bitor(self, rhs)
    }
}

impl BitXorSpecImpl for &SparseBitmap {
    /// The operator's result is stated by its `ensures`, not by `bitxor_spec`.
    open spec fn obeys_bitxor_spec() -> bool {
        false
    }

    open spec fn bitxor_req(self, rhs: &SparseBitmap) -> bool {
        self.wf() && rhs.wf()
    }

    open spec fn bitxor_spec(self, rhs: &SparseBitmap) -> SparseBitmap {
        *self
    }
}

impl BitXor for &SparseBitmap {
    type Output = SparseBitmap;

    fn bitxor(self, rhs: &SparseBitmap) -> (result: SparseBitmap)
        ensures
            result.size == smaller(self.size, rhs.size),
            result.wf(),
            result.runs@ == xor_runs(self.runs@, rhs.runs@, result.size as int),
            result.bounded(),
            all_nonempty(result.runs@),
            separated(self.runs@) && separated(rhs.runs@) ==> result.canonical() && result@
                == bits_xor(self@, rhs@),
    {
        SparseBitmap::bitxor(self, rhs)
    }
}

impl NotSpecImpl for &SparseBitmap {
    /// The operator's result is stated by its `ensures`, not by `not_spec`.
    open spec fn obeys_not_spec() -> bool {
        false
    }

    open spec fn not_req(self) -> bool {
        self.wf()
    }

    open spec fn not_spec(self) -> SparseBitmap {
        *self
    }
}

impl Not for &SparseBitmap {
    type Output = SparseBitmap;

    fn not(self) -> (result: SparseBitmap)
        ensures
            result.size == self.size,
            result.wf(),
            result.runs@ == not_runs(self.runs@),
            self.bounded() ==> result.bounded(),
            ordered(self.runs@) ==> result@ == bits_not_below(self@, last_stop(self.runs@)),
            ordered(self.runs@) && last_stop(self.runs@) >= self.size ==> result@ == bits_not(
                self@,
            ),
            self.canonical() ==> result.canonical() && result@ == bits_not_below(
                self@,
                last_stop(self.runs@),
            ),
    {
        SparseBitmap::not(self)
    }
}

} // verus!
