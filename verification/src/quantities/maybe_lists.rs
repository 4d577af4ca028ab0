//! Mapping every row of a container to a value: one value for a single list,
//! a vector of values for several rows.
use vstd::prelude::*;
use crate::quantities::lists_or_single::{ListsOrSingle, copy_of};

verus! {

/// `map` may return `u` for some borrowed row holding `row`.
pub open spec fn ref_maps_to<T, U, F: Fn(&[T]) -> U>(map: F, row: Seq<T>, u: U) -> bool {
    exists|s: &[T]| s@ == row && #[trigger] map.ensures((s,), u)
}

/// `map` may return `u` for some owned row holding `row`.
pub open spec fn owned_maps_to<T, U, F: Fn(Vec<T>) -> U>(map: F, row: Seq<T>, u: U) -> bool {
    exists|v: Vec<T>| v@ == row && #[trigger] map.ensures((v,), u)
}

/// `map` may succeed on some owned row holding `row`.
pub open spec fn row_succeeds<T, U, E, F: Fn(Vec<T>) -> Result<U, E>>(map: F, row: Seq<T>) -> bool {
    exists|u: U| #[trigger] owned_maps_to(map, row, Ok::<U, E>(u))
}

/// What a row-wise fallible map ends in: `Ok` with one value per row where
/// every row mapped to `Ok`, else the error of the first row that failed.
pub open spec fn try_mapped<T, U, E, F: Fn(Vec<T>) -> Result<U, E>>(
    map: F,
    rows: Seq<Seq<T>>,
    r: Result<Seq<U>, E>,
) -> bool {
    match r {
        Ok(us) => us.len() == rows.len() && forall|i: int| 0 <= i < rows.len()
            ==> owned_maps_to(map, rows[i], Ok::<U, E>(#[trigger] us[i])),
        Err(e) => exists|k: int| 0 <= k < rows.len()
            && owned_maps_to(map, #[trigger] rows[k], Err::<U, E>(e))
            && forall|j: int| 0 <= j < k ==> #[trigger] row_succeeds::<T, U, E, F>(map, rows[j]),
    }
}

/// A map fails as a whole with the error of row `k` where every row before
/// `k` mapped to some `Ok`.
pub proof fn lemma_try_mapped_err<T, U, E, F: Fn(Vec<T>) -> Result<U, E>>(map: F, rows: Seq<Seq<T>>, k: int, e: E)
    requires
        0 <= k < rows.len(),
        owned_maps_to(map, rows[k], Err::<U, E>(e)),
        forall|j: int| 0 <= j < k ==> #[trigger] row_succeeds::<T, U, E, F>(map, rows[j]),
    ensures
        try_mapped(map, rows, Err::<Seq<U>, E>(e)),
{
}

/// Maps every row, borrowed, in order.
pub fn map_slices<T, U, F: Fn(&[T]) -> U>(rows: &Vec<&[T]>, map: &F) -> (r: Vec<U>)
    requires
        forall|s: &[T]| #[trigger] map.requires((s,)),
    ensures
        r@.len() == rows@.len(),
        forall|i: int| 0 <= i < rows@.len() ==> ref_maps_to(*map, rows@[i]@, #[trigger] r@[i]),
{
    let mut r: Vec<U> = Vec::new();
    let mut i: usize = 0;
    while i < rows.len()
        invariant
            i <= rows@.len(),
            forall|s: &[T]| #[trigger] map.requires((s,)),
            r@.len() == i,
            forall|k: int| 0 <= k < i ==> ref_maps_to(*map, rows@[k]@, #[trigger] r@[k]),
        decreases rows@.len() - i,
    {
        let s: &[T] = rows[i];
        let u = map(s);
        assert(map.ensures((s,), u));
        r.push(u);
        i += 1;
    }
    r
}

/// Maps every row, copied into a vector of its own, in order; stops at the
/// first row whose map fails.
pub fn try_map_copies<T: Copy, U, E, F: Fn(Vec<T>) -> Result<U, E>>(rows: &Vec<&[T]>, map: &F) -> (r: Result<Vec<U>, E>)
    requires
        forall|v: Vec<T>| #[trigger] map.requires((v,)),
    ensures
        try_mapped(*map, Seq::new(rows@.len(), |i: int| rows@[i]@), match r {
            Ok(us) => Ok(us@),
            Err(e) => Err(e),
        }),
{
    let ghost src = Seq::new(rows@.len(), |i: int| rows@[i]@);
    let mut r: Vec<U> = Vec::new();
    let mut i: usize = 0;
    while i < rows.len()
        invariant
            i <= rows@.len(),
            src == Seq::new(rows@.len(), |i: int| rows@[i]@),
            forall|v: Vec<T>| #[trigger] map.requires((v,)),
            r@.len() == i,
            forall|k: int| 0 <= k < i ==> owned_maps_to(*map, src[k], Ok::<U, E>(#[trigger] r@[k])),
        decreases rows@.len() - i,
    {
        let v: Vec<T> = copy_of(rows[i]);
        let res = map(v);
        assert(map.ensures((v,), res));
        match res {
            Ok(u) => {
                assert(owned_maps_to(*map, src[i as int], Ok::<U, E>(u)));
                r.push(u);
            },
            Err(e) => {
                assert(owned_maps_to(*map, src[i as int], Err::<U, E>(e)));
                assert forall|j: int| 0 <= j < i implies #[trigger] row_succeeds::<T, U, E, F>(*map, src[j]) by {
                    assert(owned_maps_to(*map, src[j], Ok::<U, E>(r@[j])));
                }
                proof { lemma_try_mapped_err(*map, src, i as int, e); }
                return Err(e);
            },
        }
        i += 1;
    }
    Ok(r)
}

/// Containers whose rows can each be mapped to a value.
pub trait MaybeLists<T, U>: ListsOrSingle<T> {
    /// The mapped rows: one value for a single list, a vector for several rows.
    type RowsMapped;

    /// The mapped values, in row order.
    spec fn mapped(r: Self::RowsMapped) -> Seq<U>;

    /// Maps every row, borrowed.
    fn map_rows_to_owned<F: Fn(&[T]) -> U>(&self, map: F) -> (r: Self::RowsMapped)
        requires
            forall|s: &[T]| #[trigger] map.requires((s,)),
        ensures
            Self::mapped(r).len() == self.rows().len(),
            forall|i: int| 0 <= i < self.rows().len() ==> ref_maps_to(map, self.rows()[i], #[trigger] Self::mapped(r)[i]);

    /// Maps every row, handed over as a vector; the first failure is returned.
    fn try_map_rows_into_owned<E, F: Fn(Vec<T>) -> Result<U, E>>(self, map: F) -> (r: Result<Self::RowsMapped, E>)
        where T: Copy, Self: Sized
        requires
            forall|v: Vec<T>| #[trigger] map.requires((v,)),
        ensures
            try_mapped(map, self.rows(), match r {
                Ok(m) => Ok(Self::mapped(m)),
                Err(e) => Err(e),
            });
}

impl<T, U> MaybeLists<T, U> for Vec<T> {
    type RowsMapped = U;

    open spec fn mapped(r: U) -> Seq<U> {
        seq![r]
    }

    fn map_rows_to_owned<F: Fn(&[T]) -> U>(&self, map: F) -> (r: U) {
        let s: &[T] = self.as_slice();
        let u = map(s);
        assert(ref_maps_to(map, self.rows()[0], Self::mapped(u)[0]));
        u
    }

    fn try_map_rows_into_owned<E, F: Fn(Vec<T>) -> Result<U, E>>(self, map: F) -> (r: Result<U, E>)
        where T: Copy
    {
        let rows: Vec<&[T]> = vec![self.as_slice()];
        let ghost src = Seq::new(rows@.len(), |i: int| rows@[i]@);
        assert(src =~= self.rows());
        match try_map_copies(&rows, &map) {
            Ok(us) => {
                let mut us = us;
                let u = us.remove(0);
                Ok(u)
            },
            Err(e) => Err(e),
        }
    }
}

impl<T, U> MaybeLists<T, U> for Vec<Vec<T>> {
    type RowsMapped = Vec<U>;

    open spec fn mapped(r: Vec<U>) -> Seq<U> {
        r@
    }

    fn map_rows_to_owned<F: Fn(&[T]) -> U>(&self, map: F) -> (r: Vec<U>) {
        let rows: Vec<&[T]> = ListsOrSingle::<T>::as_view_slices(self);
        let r = map_slices(&rows, &map);
        assert forall|i: int| 0 <= i < ListsOrSingle::<T>::rows(self).len() implies ref_maps_to(
            map, ListsOrSingle::<T>::rows(self)[i], #[trigger] r@[i]) by {
            assert(rows@[i]@ == ListsOrSingle::<T>::rows(self)[i]);
        }
        r
    }

    fn try_map_rows_into_owned<E, F: Fn(Vec<T>) -> Result<U, E>>(self, map: F) -> (r: Result<Vec<U>, E>)
        where T: Copy
    {
        let rows: Vec<&[T]> = ListsOrSingle::<T>::as_view_slices(&self);
        let ghost src = Seq::new(rows@.len(), |i: int| rows@[i]@);
        assert(src =~= ListsOrSingle::<T>::rows(&self));
        try_map_copies(&rows, &map)
    }
}

impl<'a, T, U> MaybeLists<T, U> for Vec<&'a [T]> {
    type RowsMapped = Vec<U>;

    open spec fn mapped(r: Vec<U>) -> Seq<U> {
        r@
    }

    fn map_rows_to_owned<F: Fn(&[T]) -> U>(&self, map: F) -> (r: Vec<U>) {
        let r = map_slices(self, &map);
        assert forall|i: int| 0 <= i < ListsOrSingle::<T>::rows(self).len() implies ref_maps_to(
            map, ListsOrSingle::<T>::rows(self)[i], #[trigger] r@[i]) by {
            assert(self@[i]@ == ListsOrSingle::<T>::rows(self)[i]);
        }
        r
    }

    fn try_map_rows_into_owned<E, F: Fn(Vec<T>) -> Result<U, E>>(self, map: F) -> (r: Result<Vec<U>, E>)
        where T: Copy
    {
        let ghost src = Seq::new(self@.len(), |i: int| self@[i]@);
        assert(src =~= ListsOrSingle::<T>::rows(&self));
        try_map_copies(&self, &map)
    }
}

} // verus!
