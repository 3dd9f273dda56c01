//! An ECFFT evaluation engine: evaluation of a coefficient polynomial over a
//! prime field without smooth multiplicative subgroups, on a coset of
//! elliptic-curve x-coordinates, through a chain of degree-2 isogenies.

pub mod classic_fft;
pub mod common;
pub mod ecfft;
pub mod field;
pub mod fp;
pub mod fr;
pub mod naive;
pub mod polynomial;

pub use crate::ecfft::EcFft;
pub use classic_fft::ClassicFft;
pub use polynomial::{Coefficients, Polynomial};
