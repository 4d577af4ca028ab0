//! Transform matrices.
pub mod dstmtx;
