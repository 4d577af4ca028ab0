//! Containers of samples, or nothing (`()`), that can be copied into an owned
//! container of the same shape.
use vstd::prelude::*;
use crate::quantities::lists_or_single::{ListsOrSingle, copy_of, rows_of};

verus! {

/// An owned container of samples, or nothing.
pub trait OwnedContents<T> {
    /// The rows of samples, where there is a container.
    spec fn owned_contents(&self) -> Option<Seq<Seq<T>>>;
}

impl<T> OwnedContents<T> for () {
    open spec fn owned_contents(&self) -> Option<Seq<Seq<T>>> {
        None
    }
}

impl<T> OwnedContents<T> for Vec<T> {
    open spec fn owned_contents(&self) -> Option<Seq<Seq<T>>> {
        Some(seq![self@])
    }
}

impl<T> OwnedContents<T> for Vec<Vec<T>> {
    open spec fn owned_contents(&self) -> Option<Seq<Seq<T>>> {
        Some(rows_of(self@))
    }
}

/// A container of samples, or nothing.
pub trait MaybeContainer<T> {
    /// A container that owns copies of the samples.
    type Owned: OwnedContents<T>;

    /// The rows of samples, where there is a container.
    spec fn contents(&self) -> Option<Seq<Seq<T>>>;

    /// A container owning copies of the samples.
    fn to_owned(&self) -> (o: Self::Owned)
        where T: Copy
        ensures
            o.owned_contents() == self.contents();

    /// The samples, in an owned container.
    fn into_owned(self) -> (o: Self::Owned)
        where T: Copy, Self: Sized
        ensures
            o.owned_contents() == self.contents();
}

impl<T> MaybeContainer<T> for () {
    type Owned = ();

    open spec fn contents(&self) -> Option<Seq<Seq<T>>> {
        None
    }

    fn to_owned(&self) -> (o: ())
        where T: Copy
    {
    }

    fn into_owned(self) -> (o: ())
        where T: Copy
    {
    }
}

impl<T> MaybeContainer<T> for Vec<T> {
    type Owned = Vec<T>;

    open spec fn contents(&self) -> Option<Seq<Seq<T>>> {
        Some(seq![self@])
    }

    fn to_owned(&self) -> (o: Vec<T>)
        where T: Copy
    {
        copy_of(self.as_slice())
    }

    fn into_owned(self) -> (o: Vec<T>)
        where T: Copy
    {
        self
    }
}

impl<'b, T> MaybeContainer<T> for &'b [T] {
    type Owned = Vec<T>;

    open spec fn contents(&self) -> Option<Seq<Seq<T>>> {
        Some(seq![self@])
    }

    fn to_owned(&self) -> (o: Vec<T>)
        where T: Copy
    {
        copy_of(*self)
    }

    fn into_owned(self) -> (o: Vec<T>)
        where T: Copy
    {
        copy_of(self)
    }
}

impl<T> MaybeContainer<T> for Vec<Vec<T>> {
    type Owned = Vec<Vec<T>>;

    open spec fn contents(&self) -> Option<Seq<Seq<T>>> {
        Some(rows_of(self@))
    }

    fn to_owned(&self) -> (o: Vec<Vec<T>>)
        where T: Copy
    {
        ListsOrSingle::<T>::to_vecs(self)
    }

    fn into_owned(self) -> (o: Vec<Vec<T>>)
        where T: Copy
    {
        self
    }
}

impl<'b, T> MaybeContainer<T> for Vec<&'b [T]> {
    type Owned = Vec<Vec<T>>;

    open spec fn contents(&self) -> Option<Seq<Seq<T>>> {
        Some(Seq::new(self@.len(), |i: int| self@[i]@))
    }

    fn to_owned(&self) -> (o: Vec<Vec<T>>)
        where T: Copy
    {
        ListsOrSingle::<T>::to_vecs(self)
    }

    fn into_owned(self) -> (o: Vec<Vec<T>>)
        where T: Copy
    {
        ListsOrSingle::<T>::into_vecs(self)
    }
}

} // verus!
