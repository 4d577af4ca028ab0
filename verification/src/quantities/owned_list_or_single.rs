//! Owned lists that can be built from a function of the index.
use vstd::prelude::*;
use crate::quantities::lists_or_single::ListsOrSingle;

verus! {

/// Owned lists of samples.
pub trait OwnedListOrSingle<T>: ListsOrSingle<T> + Sized {
    /// The length asked of `from_len_fn`.
    type Len;

    /// The number of samples asked for by `n`.
    spec fn len_of(n: Self::Len) -> int;

    /// A list of `n` samples, sample `i` being `f(i)`.
    fn from_len_fn<F: Fn(usize) -> T>(n: Self::Len, f: F) -> (r: Self)
        requires
            forall|i: usize| i < Self::len_of(n) ==> #[trigger] f.requires((i,)),
        ensures
            r.rows().len() == 1,
            r.rows()[0].len() == Self::len_of(n),
            forall|i: int| 0 <= i < Self::len_of(n) ==> f.ensures((i as usize,), #[trigger] r.rows()[0][i]);

    /// The samples, borrowed for writing.
    fn as_mut_slice(&mut self) -> (r: &mut [T])
        ensures
            old(self).rows() == seq![r@],
            final(self).rows() == seq![final(r)@];
}

impl<T> OwnedListOrSingle<T> for Vec<T> {
    type Len = usize;

    open spec fn len_of(n: usize) -> int {
        n as int
    }

    fn from_len_fn<F: Fn(usize) -> T>(n: usize, f: F) -> (r: Vec<T>) {
        let mut r: Vec<T> = Vec::new();
        let mut i: usize = 0;
        while i < n
            invariant
                i <= n,
                forall|i: usize| i < n ==> #[trigger] f.requires((i,)),
                r@.len() == i,
                forall|k: int| 0 <= k < i ==> f.ensures((k as usize,), #[trigger] r@[k]),
            decreases n - i,
        {
            r.push(f(i));
            i += 1;
        }
        r
    }

    fn as_mut_slice(&mut self) -> (r: &mut [T]) {
        self.as_mut_slice()
    }
}

} // verus!
