//! Lists of samples that own their samples.
use vstd::prelude::*;
use crate::quantities::owned_list_or_single::OwnedListOrSingle;

verus! {

/// An owned list of samples.
pub trait OwnedList<T>: OwnedListOrSingle<T> {
}

impl<T> OwnedList<T> for Vec<T> {
}

} // verus!
