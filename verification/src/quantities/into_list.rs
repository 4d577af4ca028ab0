//! Conversion of ranges, arrays and slices into lists of samples.
use vstd::prelude::*;
use core::ops::Range;
use crate::quantities::lists_or_single::{ListsOrSingle, copy_of};

verus! {

/// The integers from `start` up to, not including, `end`.
pub open spec fn range_seq(start: int, end: int) -> Seq<int> {
    Seq::new(if start < end { (end - start) as nat } else { 0 }, |i: int| start + i)
}

/// Values that can be turned into a list `L` of samples.
pub trait IntoList<T, L: ListsOrSingle<T>, N> {
    /// The samples of the list that `self` turns into.
    spec fn list_spec(&self, n: N) -> Seq<T>;

    /// The list of samples.
    fn into_list(self, n: N) -> (r: L)
        where Self: Sized
        ensures
            r.rows() == seq![self.list_spec(n)];
}

impl IntoList<i64, Vec<i64>, ()> for Range<i64> {
    open spec fn list_spec(&self, n: ()) -> Seq<i64> {
        Seq::new(range_seq(self.start as int, self.end as int).len(), |i: int| (self.start + i) as i64)
    }

    fn into_list(self, n: ()) -> (r: Vec<i64>) {
        let mut r: Vec<i64> = Vec::new();
        let mut x: i64 = self.start;
        while x < self.end
            invariant
                self.start <= x || self.end <= self.start,
                self.start < self.end ==> x <= self.end,
                self.start < self.end ==> r@.len() == x - self.start,
                self.end <= self.start ==> r@.len() == 0 && x == self.start,
                forall|k: int| 0 <= k < r@.len() ==> #[trigger] r@[k] == self.start + k,
            decreases self.end - x,
        {
            r.push(x);
            x += 1;
        }
        assert(r@ =~= self.list_spec(n));
        r
    }
}

impl IntoList<usize, Vec<usize>, ()> for Range<usize> {
    open spec fn list_spec(&self, n: ()) -> Seq<usize> {
        Seq::new(range_seq(self.start as int, self.end as int).len(), |i: int| (self.start + i) as usize)
    }

    fn into_list(self, n: ()) -> (r: Vec<usize>) {
        let mut r: Vec<usize> = Vec::new();
        let mut x: usize = self.start;
        while x < self.end
            invariant
                self.start <= x || self.end <= self.start,
                self.start < self.end ==> x <= self.end,
                self.start < self.end ==> r@.len() == x - self.start,
                self.end <= self.start ==> r@.len() == 0 && x == self.start,
                forall|k: int| 0 <= k < r@.len() ==> #[trigger] r@[k] == self.start + k,
            decreases self.end - x,
        {
            r.push(x);
            x += 1;
        }
        assert(r@ =~= self.list_spec(n));
        r
    }
}

impl<T: Copy, const N: usize> IntoList<T, Vec<T>, ()> for [T; N] {
    open spec fn list_spec(&self, n: ()) -> Seq<T> {
        self@
    }

    fn into_list(self, n: ()) -> (r: Vec<T>) {
        copy_of(self.as_slice())
    }
}

impl<'a, T: Copy> IntoList<T, Vec<T>, ()> for &'a [T] {
    open spec fn list_spec(&self, n: ()) -> Seq<T> {
        self@
    }

    fn into_list(self, n: ()) -> (r: Vec<T>) {
        copy_of(self)
    }
}

impl<'a, T> IntoList<T, &'a [T], ()> for &'a [T] {
    open spec fn list_spec(&self, n: ()) -> Seq<T> {
        self@
    }

    fn into_list(self, n: ()) -> (r: &'a [T]) {
        self
    }
}

impl<T> IntoList<T, Vec<T>, ()> for Vec<T> {
    open spec fn list_spec(&self, n: ()) -> Seq<T> {
        self@
    }

    fn into_list(self, n: ()) -> (r: Vec<T>) {
        self
    }
}

} // verus!
