//! Containers of samples and coefficients.
pub mod array2;
pub mod container;
pub mod into_list;
pub mod lists;
pub mod lists_or_single;
pub mod matrix;
pub mod maybe_container;
pub mod maybe_list;
pub mod maybe_lists;
pub mod owned_list;
pub mod owned_list_or_single;
pub mod owned_matrix;
pub mod polynomial;
pub mod product_sequence;
pub mod zero;
