//! Sequences of factors, such as the zeros or the poles of a system.
use core::marker::PhantomData;
use vstd::prelude::*;
use crate::quantities::lists_or_single::copy_of;

verus! {

/// A sequence of factors of type `T`, held in `S`.
pub struct ProductSequence<T, S> {
    s: S,
    phantom: PhantomData<T>,
}

impl<T, S: View> View for ProductSequence<T, S> {
    type V = S::V;

    closed spec fn view(&self) -> S::V {
        self.s@
    }
}

impl<T, S: View> ProductSequence<T, S> {
    /// Wraps a container of factors.
    pub fn new(s: S) -> (p: Self)
        ensures
            p@ == s@,
    {
        ProductSequence { s, phantom: PhantomData }
    }

    /// Gives back the container of factors.
    pub fn into_inner(self) -> (s: S)
        ensures
            s@ == self@,
    {
        self.s
    }
}

impl<T> ProductSequence<T, Vec<T>> {
    /// A sequence that borrows the factors of this one.
    pub fn as_view(&self) -> (p: ProductSequence<T, &[T]>)
        ensures
            p@ == self@,
    {
        ProductSequence::new(self.s.as_slice())
    }
}

impl<T: Copy> ProductSequence<T, &[T]> {
    /// Copies the borrowed factors into an owned sequence.
    pub fn to_owned(&self) -> (p: ProductSequence<T, Vec<T>>)
        ensures
            p@ == self@,
    {
        ProductSequence::new(copy_of(self.s))
    }
}

} // verus!
