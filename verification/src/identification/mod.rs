//! Identification of systems from their responses.
pub mod invfreqz;
