//! Verified building blocks for digital signal processing: containers of
//! samples, polynomials with exact integer coefficients, convolution and
//! resampling of sample sequences.
pub mod arith;
pub mod generators;
pub mod identification;
pub mod operations;
pub mod quantities;
pub mod systems;
