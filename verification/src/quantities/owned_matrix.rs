//! Matrices of samples that own their samples.
use vstd::prelude::*;
use crate::quantities::matrix::Matrix;

verus! {

/// An owned matrix of samples.
pub trait OwnedMatrix<T>: Matrix<T> {
}

impl<T> OwnedMatrix<T> for Vec<T> {
}

impl<T, const N: usize> OwnedMatrix<T> for [T; N] {
}

impl<T, const N: usize, const M: usize> OwnedMatrix<T> for [[T; N]; M] {
}

impl<T, const N: usize> OwnedMatrix<T> for Vec<[T; N]> {
}

} // verus!
