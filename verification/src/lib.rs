//! Planning core of an iterative radix-2 Cooley-Tukey FFT.
//!
//! The transform itself runs on complex samples, but everything that decides
//! *which* elements are touched is integer logic: the power-of-two padding
//! length, the bit-reversal permutation, the butterfly schedule of every
//! stage, and the bookkeeping that says when the twiddle-factor cache must be
//! rebuilt. Those decisions live here, with contracts; a thin numeric shell
//! executes them on complex data.

pub mod bitrev;
pub mod buffer;
pub mod planner;
pub mod pow2;
pub mod schedule;
