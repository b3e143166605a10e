//! Elias–Fano encoding of non-decreasing sequences of `u64` values, with a
//! cursor for sequential and random-access decoding.

pub mod bits;
pub mod elias_fano;
pub mod text;

pub use elias_fano::{EliasFano, Error};
