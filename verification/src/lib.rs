//! Core of a FRI-based polynomial commitment scheme over two-adic cosets,
//! with a circle-domain folding variant: a radix-2 DIT evaluation engine with
//! twiddle memoization, per-round folding of evaluation vectors, and the
//! batched commit/open orchestration built on them.
pub mod field;
pub mod bitrev;
pub mod matrix;
pub mod dft;
pub mod fold;
pub mod interpolate;
pub mod pcs;
