//! Operations on sample sequences.
pub mod conv;
pub mod encode;
pub mod filter_mut;
pub mod filtfilt;
pub mod normalize;
pub mod resampling;
pub mod sgolayfilt;
pub mod upsample_fill;
