//! Coefficient lists that may be left out, such as a missing denominator.
use vstd::prelude::*;

verus! {

/// A list of samples, or nothing (`()`).
pub trait MaybeList<T> {
    /// The samples, where there is a list.
    spec fn maybe_list(&self) -> Option<Seq<T>>;

    /// A borrowed slice of the samples, where there is a list.
    fn as_view_slice_option(&self) -> (r: Option<&[T]>)
        ensures
            match r {
                Some(s) => self.maybe_list() == Some(s@),
                None => self.maybe_list() is None,
            };
}

impl<T> MaybeList<T> for Vec<T> {
    open spec fn maybe_list(&self) -> Option<Seq<T>> {
        Some(self@)
    }

    fn as_view_slice_option(&self) -> (r: Option<&[T]>) {
        Some(self.as_slice())
    }
}

impl<'a, T> MaybeList<T> for &'a [T] {
    open spec fn maybe_list(&self) -> Option<Seq<T>> {
        Some(self@)
    }

    fn as_view_slice_option(&self) -> (r: Option<&[T]>) {
        Some(*self)
    }
}

impl<T, const N: usize> MaybeList<T> for [T; N] {
    open spec fn maybe_list(&self) -> Option<Seq<T>> {
        Some(self@)
    }

    fn as_view_slice_option(&self) -> (r: Option<&[T]>) {
        Some(self.as_slice())
    }
}

impl<T> MaybeList<T> for () {
    open spec fn maybe_list(&self) -> Option<Seq<T>> {
        None
    }

    fn as_view_slice_option(&self) -> (r: Option<&[T]>) {
        None
    }
}

} // verus!
