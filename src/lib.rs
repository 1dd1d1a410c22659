//! A wavelet matrix over fixed-width unsigned symbols, answering `access`,
//! `rank` and `select`, with each query proved against a plain sequence model.

mod bitvec;
pub mod keep;
pub mod symbol;
pub mod matrix;

pub use matrix::WaveletMatrix;
pub use symbol::Symbol;
pub mod laws;
