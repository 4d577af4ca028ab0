//! Multiplication of polynomials.
use vstd::prelude::*;
use crate::arith::{conv, conv_fits, ints};
use crate::operations::conv::convolve_direct;
use crate::quantities::polynomial::Polynomial;

verus! {

impl Polynomial<i64, Vec<i64>> {
    /// The product of two polynomials: the direct convolution of their coefficients.
    pub fn mul(self, rhs: Polynomial<i64, Vec<i64>>) -> (p: Polynomial<i64, Vec<i64>>)
        requires
            self@.len() + rhs@.len() <= usize::MAX,
            conv_fits(ints(self@), ints(rhs@)),
        ensures
            ints(p@) == conv(ints(self@), ints(rhs@)),
    {
        let a = self.into_inner();
        let b = rhs.into_inner();
        Polynomial::new(convolve_direct(a.as_slice(), b.as_slice()))
    }
}

impl<T> Polynomial<T, ()> {
    /// The implicit polynomial `1` times `rhs` is `rhs` itself.
    pub fn mul<C: View>(self, rhs: Polynomial<T, C>) -> (p: Polynomial<T, C>)
        ensures
            p@ == rhs@,
    {
        rhs
    }
}

impl<T, C: View> Polynomial<T, C> {
    /// Any polynomial times the implicit polynomial `1` is itself.
    pub fn mul_one(self, rhs: Polynomial<T, ()>) -> (p: Polynomial<T, C>)
        ensures
            p@ == self@,
    {
        self
    }
}

} // verus!
