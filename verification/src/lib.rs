//! Fixed-capacity bit sets in two interchangeable encodings.
//!
//! [`Bitmap`] packs one bit per position into machine words; [`SparseBitmap`]
//! stores the set positions as a list of [`Run`]s. Both are built from and
//! compared through the same textual convention: a string of `'0'` and `'1'`
//! whose rightmost character is position 0.

pub mod agreement;
pub mod canonical;
pub mod dense;
pub mod dense_algebra;
pub mod dense_laws;
pub mod dense_text;
pub mod error;
pub mod model;
pub mod model_laws;
pub mod operators;
pub mod run;
pub mod sparse;
pub mod sparse_algebra;
pub mod sparse_algebra_laws;
pub mod sparse_laws;
pub mod sparse_set_laws;
pub mod sparse_text;
pub mod text;

pub use dense::{bit_index, chunks_count, Bitmap};
pub use error::BitmapError;
pub use run::Run;
pub use sparse::SparseBitmap;
