//! Changing the sampling rate of sample sequences.
pub mod downsample;
pub mod upsample;
pub mod interp;
