//! Generators of transform matrices and windows.
pub mod matrix;
pub mod window;
