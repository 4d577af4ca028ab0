//! Containers of samples: element access and element-wise mapping.
use vstd::prelude::*;
use crate::quantities::lists_or_single::ListsOrSingle;

verus! {

/// A container whose elements can be looked up by index.
pub trait Container<T>: ListsOrSingle<T> {
    /// How an element is addressed.
    type Index;

    /// Indices that can be looked up without a panic.
    spec fn index_requires(&self, i: Self::Index) -> bool;

    /// The element at `i`, if there is one.
    spec fn index_spec(&self, i: Self::Index) -> Option<T>;

    /// The element at `i`, if there is one.
    fn index_get(&self, i: Self::Index) -> (r: Option<&T>)
        requires
            self.index_requires(i),
        ensures
            r is None <==> self.index_spec(i) is None,
            r matches Some(v) ==> self.index_spec(i) == Some(*v);
}

/// `s[i]` when `i` is an index of `s`.
pub open spec fn seq_get<T>(s: Seq<T>, i: int) -> Option<T> {
    if 0 <= i < s.len() { Some(s[i]) } else { None }
}

impl<T> Container<T> for Vec<T> {
    type Index = usize;

    open spec fn index_requires(&self, i: usize) -> bool {
        true
    }

    open spec fn index_spec(&self, i: usize) -> Option<T> {
        seq_get(self@, i as int)
    }

    fn index_get(&self, i: usize) -> (r: Option<&T>) {
        if i < self.len() {
            Some(&self[i])
        } else {
            None
        }
    }
}

impl<'a, T> Container<T> for &'a [T] {
    type Index = usize;

    open spec fn index_requires(&self, i: usize) -> bool {
        true
    }

    open spec fn index_spec(&self, i: usize) -> Option<T> {
        seq_get(self@, i as int)
    }

    fn index_get(&self, i: usize) -> (r: Option<&T>) {
        if i < self.len() {
            Some(&self[i])
        } else {
            None
        }
    }
}

impl<T, const N: usize> Container<T> for [T; N] {
    type Index = usize;

    open spec fn index_requires(&self, i: usize) -> bool {
        true
    }

    open spec fn index_spec(&self, i: usize) -> Option<T> {
        seq_get(self@, i as int)
    }

    fn index_get(&self, i: usize) -> (r: Option<&T>) {
        if i < self.len() {
            Some(&self[i])
        } else {
            None
        }
    }
}

impl<T> Container<T> for Vec<Vec<T>> {
    type Index = (usize, usize);

    open spec fn index_requires(&self, i: (usize, usize)) -> bool {
        i.0 < ListsOrSingle::<T>::rows(self).len()
    }

    open spec fn index_spec(&self, i: (usize, usize)) -> Option<T> {
        seq_get(ListsOrSingle::<T>::rows(self)[i.0 as int], i.1 as int)
    }

    fn index_get(&self, i: (usize, usize)) -> (r: Option<&T>) {
        let row = &self[i.0];
        if i.1 < row.len() {
            Some(&row[i.1])
        } else {
            None
        }
    }
}

impl<'a, T> Container<T> for Vec<&'a [T]> {
    type Index = (usize, usize);

    open spec fn index_requires(&self, i: (usize, usize)) -> bool {
        i.0 < ListsOrSingle::<T>::rows(self).len()
    }

    open spec fn index_spec(&self, i: (usize, usize)) -> Option<T> {
        seq_get(ListsOrSingle::<T>::rows(self)[i.0 as int], i.1 as int)
    }

    fn index_get(&self, i: (usize, usize)) -> (r: Option<&T>) {
        let row = &self[i.0];
        if i.1 < row.len() {
            Some(&row[i.1])
        } else {
            None
        }
    }
}

impl<T, const M: usize> Container<T> for [Vec<T>; M] {
    type Index = (usize, usize);

    open spec fn index_requires(&self, i: (usize, usize)) -> bool {
        i.0 < ListsOrSingle::<T>::rows(self).len()
    }

    open spec fn index_spec(&self, i: (usize, usize)) -> Option<T> {
        seq_get(ListsOrSingle::<T>::rows(self)[i.0 as int], i.1 as int)
    }

    fn index_get(&self, i: (usize, usize)) -> (r: Option<&T>) {
        let row = &self[i.0];
        if i.1 < row.len() {
            Some(&row[i.1])
        } else {
            None
        }
    }
}

impl<T, const N: usize> Container<T> for Vec<[T; N]> {
    type Index = (usize, usize);

    open spec fn index_requires(&self, i: (usize, usize)) -> bool {
        i.0 < ListsOrSingle::<T>::rows(self).len()
    }

    open spec fn index_spec(&self, i: (usize, usize)) -> Option<T> {
        seq_get(ListsOrSingle::<T>::rows(self)[i.0 as int], i.1 as int)
    }

    fn index_get(&self, i: (usize, usize)) -> (r: Option<&T>) {
        let row = &self[i.0];
        if i.1 < row.len() {
            Some(&row[i.1])
        } else {
            None
        }
    }
}

impl<T, const N: usize, const M: usize> Container<T> for [[T; N]; M] {
    type Index = (usize, usize);

    open spec fn index_requires(&self, i: (usize, usize)) -> bool {
        i.0 < ListsOrSingle::<T>::rows(self).len()
    }

    open spec fn index_spec(&self, i: (usize, usize)) -> Option<T> {
        seq_get(ListsOrSingle::<T>::rows(self)[i.0 as int], i.1 as int)
    }

    fn index_get(&self, i: (usize, usize)) -> (r: Option<&T>) {
        let row = &self[i.0];
        if i.1 < row.len() {
            Some(&row[i.1])
        } else {
            None
        }
    }
}

/// Containers whose elements can be mapped to a new container of the same shape.
pub trait ContainerMap<T, U>: ListsOrSingle<T> {
    /// The container of mapped elements.
    type Mapped: ListsOrSingle<U>;

    /// Applies `map` to a reference to every element.
    fn map_to_owned<F: Fn(&T) -> U>(&self, map: F) -> (r: Self::Mapped)
        requires
            forall|i: int, j: int| 0 <= i < self.rows().len() && 0 <= j < self.rows()[i].len()
                ==> map.requires((&#[trigger] self.rows()[i][j],)),
        ensures
            r.rows().len() == self.rows().len(),
            forall|i: int| 0 <= i < self.rows().len() ==> #[trigger] r.rows()[i].len() == self.rows()[i].len(),
            forall|i: int, j: int| 0 <= i < self.rows().len() && 0 <= j < self.rows()[i].len()
                ==> map.ensures((&self.rows()[i][j],), #[trigger] r.rows()[i][j]);

    /// Applies `map` to a copy of every element.
    fn map_into_owned<F: Fn(T) -> U>(self, map: F) -> (r: Self::Mapped)
        where T: Copy, Self: Sized
        requires
            forall|i: int, j: int| 0 <= i < self.rows().len() && 0 <= j < self.rows()[i].len()
                ==> map.requires((#[trigger] self.rows()[i][j],)),
        ensures
            r.rows().len() == self.rows().len(),
            forall|i: int| 0 <= i < self.rows().len() ==> #[trigger] r.rows()[i].len() == self.rows()[i].len(),
            forall|i: int, j: int| 0 <= i < self.rows().len() && 0 <= j < self.rows()[i].len()
                ==> map.ensures((self.rows()[i][j],), #[trigger] r.rows()[i][j]);
}

/// Applies `map` to a reference to every element of a slice.
pub fn map_slice_ref<T, U, F: Fn(&T) -> U>(s: &[T], map: &F) -> (r: Vec<U>)
    requires
        forall|j: int| 0 <= j < s@.len() ==> map.requires((&#[trigger] s@[j],)),
    ensures
        r@.len() == s@.len(),
        forall|j: int| 0 <= j < s@.len() ==> map.ensures((&s@[j],), #[trigger] r@[j]),
{
    let mut r: Vec<U> = Vec::new();
    let mut j: usize = 0;
    while j < s.len()
        invariant
            j <= s@.len(),
            r@.len() == j,
            forall|j: int| 0 <= j < s@.len() ==> map.requires((&#[trigger] s@[j],)),
            forall|k: int| 0 <= k < j ==> map.ensures((&s@[k],), #[trigger] r@[k]),
        decreases s@.len() - j,
    {
        r.push(map(&s[j]));
        j += 1;
    }
    r
}

/// Applies `map` to a copy of every element of a slice.
pub fn map_slice_copy<T: Copy, U, F: Fn(T) -> U>(s: &[T], map: &F) -> (r: Vec<U>)
    requires
        forall|j: int| 0 <= j < s@.len() ==> map.requires((#[trigger] s@[j],)),
    ensures
        r@.len() == s@.len(),
        forall|j: int| 0 <= j < s@.len() ==> map.ensures((s@[j],), #[trigger] r@[j]),
{
    let mut r: Vec<U> = Vec::new();
    let mut j: usize = 0;
    while j < s.len()
        invariant
            j <= s@.len(),
            r@.len() == j,
            forall|j: int| 0 <= j < s@.len() ==> map.requires((#[trigger] s@[j],)),
            forall|k: int| 0 <= k < j ==> map.ensures((s@[k],), #[trigger] r@[k]),
        decreases s@.len() - j,
    {
        r.push(map(s[j]));
        j += 1;
    }
    r
}

impl<T, U> ContainerMap<T, U> for Vec<T> {
    type Mapped = Vec<U>;

    fn map_to_owned<F: Fn(&T) -> U>(&self, map: F) -> (r: Vec<U>) {
        assert forall|j: int| 0 <= j < self@.len() implies map.requires((&#[trigger] self@[j],)) by {
            assert(ListsOrSingle::<T>::rows(self)[0][j] == self@[j]);
        }
        let r = map_slice_ref(self.as_slice(), &map);
        assert forall|i: int, j: int| 0 <= i < ListsOrSingle::<T>::rows(self).len() && 0 <= j < ListsOrSingle::<T>::rows(self)[i].len()
            implies map.ensures((&ListsOrSingle::<T>::rows(self)[i][j],), #[trigger] ListsOrSingle::<U>::rows(&r)[i][j]) by {
            assert(ListsOrSingle::<U>::rows(&r)[i][j] == r@[j]);
        }
        r
    }

    fn map_into_owned<F: Fn(T) -> U>(self, map: F) -> (r: Vec<U>)
        where T: Copy
    {
        assert forall|j: int| 0 <= j < self@.len() implies map.requires((#[trigger] self@[j],)) by {
            assert(ListsOrSingle::<T>::rows(&self)[0][j] == self@[j]);
        }
        let r = map_slice_copy(self.as_slice(), &map);
        assert forall|i: int, j: int| 0 <= i < ListsOrSingle::<T>::rows(&self).len() && 0 <= j < ListsOrSingle::<T>::rows(&self)[i].len()
            implies map.ensures((ListsOrSingle::<T>::rows(&self)[i][j],), #[trigger] ListsOrSingle::<U>::rows(&r)[i][j]) by {
            assert(ListsOrSingle::<U>::rows(&r)[i][j] == r@[j]);
        }
        r
    }
}

impl<'a, T, U> ContainerMap<T, U> for &'a [T] {
    type Mapped = Vec<U>;

    fn map_to_owned<F: Fn(&T) -> U>(&self, map: F) -> (r: Vec<U>) {
        assert forall|j: int| 0 <= j < self@.len() implies map.requires((&#[trigger] self@[j],)) by {
            assert(ListsOrSingle::<T>::rows(self)[0][j] == self@[j]);
        }
        let r = map_slice_ref(*self, &map);
        assert forall|i: int, j: int| 0 <= i < ListsOrSingle::<T>::rows(self).len() && 0 <= j < ListsOrSingle::<T>::rows(self)[i].len()
            implies map.ensures((&ListsOrSingle::<T>::rows(self)[i][j],), #[trigger] ListsOrSingle::<U>::rows(&r)[i][j]) by {
            assert(ListsOrSingle::<U>::rows(&r)[i][j] == r@[j]);
        }
        r
    }

    fn map_into_owned<F: Fn(T) -> U>(self, map: F) -> (r: Vec<U>)
        where T: Copy
    {
        assert forall|j: int| 0 <= j < self@.len() implies map.requires((#[trigger] self@[j],)) by {
            assert(ListsOrSingle::<T>::rows(&self)[0][j] == self@[j]);
        }
        let r = map_slice_copy(self, &map);
        assert forall|i: int, j: int| 0 <= i < ListsOrSingle::<T>::rows(&self).len() && 0 <= j < ListsOrSingle::<T>::rows(&self)[i].len()
            implies map.ensures((ListsOrSingle::<T>::rows(&self)[i][j],), #[trigger] ListsOrSingle::<U>::rows(&r)[i][j]) by {
            assert(ListsOrSingle::<U>::rows(&r)[i][j] == r@[j]);
        }
        r
    }
}

impl<T, U> ContainerMap<T, U> for Vec<Vec<T>> {
    type Mapped = Vec<Vec<U>>;

    fn map_to_owned<F: Fn(&T) -> U>(&self, map: F) -> (r: Vec<Vec<U>>) {
        let mut r: Vec<Vec<U>> = Vec::new();
        let mut i: usize = 0;
        while i < self.len()
            invariant
                i <= self@.len(),
                r@.len() == i,
                forall|i: int, j: int| 0 <= i < ListsOrSingle::<T>::rows(self).len() && 0 <= j < ListsOrSingle::<T>::rows(self)[i].len()
                    ==> map.requires((&#[trigger] ListsOrSingle::<T>::rows(self)[i][j],)),
                forall|k: int| 0 <= k < i ==> #[trigger] r@[k]@.len() == self@[k]@.len(),
                forall|k: int, j: int| 0 <= k < i && 0 <= j < self@[k]@.len()
                    ==> map.ensures((&self@[k]@[j],), #[trigger] r@[k]@[j]),
            decreases self@.len() - i,
        {
            assert forall|j: int| 0 <= j < self@[i as int]@.len() implies map.requires((&#[trigger] self@[i as int]@[j],)) by {
                assert(ListsOrSingle::<T>::rows(self)[i as int][j] == self@[i as int]@[j]);
            }
            r.push(map_slice_ref(self[i].as_slice(), &map));
            i += 1;
        }
        r
    }

    fn map_into_owned<F: Fn(T) -> U>(self, map: F) -> (r: Vec<Vec<U>>)
        where T: Copy
    {
        let mut r: Vec<Vec<U>> = Vec::new();
        let mut i: usize = 0;
        while i < self.len()
            invariant
                i <= self@.len(),
                r@.len() == i,
                forall|i: int, j: int| 0 <= i < ListsOrSingle::<T>::rows(&self).len() && 0 <= j < ListsOrSingle::<T>::rows(&self)[i].len()
                    ==> map.requires((#[trigger] ListsOrSingle::<T>::rows(&self)[i][j],)),
                forall|k: int| 0 <= k < i ==> #[trigger] r@[k]@.len() == self@[k]@.len(),
                forall|k: int, j: int| 0 <= k < i && 0 <= j < self@[k]@.len()
                    ==> map.ensures((self@[k]@[j],), #[trigger] r@[k]@[j]),
            decreases self@.len() - i,
        {
            assert forall|j: int| 0 <= j < self@[i as int]@.len() implies map.requires((#[trigger] self@[i as int]@[j],)) by {
                assert(ListsOrSingle::<T>::rows(&self)[i as int][j] == self@[i as int]@[j]);
            }
            r.push(map_slice_copy(self[i].as_slice(), &map));
            i += 1;
        }
        r
    }
}

impl<'a, T, U> ContainerMap<T, U> for Vec<&'a [T]> {
    type Mapped = Vec<Vec<U>>;

    fn map_to_owned<F: Fn(&T) -> U>(&self, map: F) -> (r: Vec<Vec<U>>) {
        let mut r: Vec<Vec<U>> = Vec::new();
        let mut i: usize = 0;
        while i < self.len()
            invariant
                i <= self@.len(),
                r@.len() == i,
                forall|i: int, j: int| 0 <= i < ListsOrSingle::<T>::rows(self).len() && 0 <= j < ListsOrSingle::<T>::rows(self)[i].len()
                    ==> map.requires((&#[trigger] ListsOrSingle::<T>::rows(self)[i][j],)),
                forall|k: int| 0 <= k < i ==> #[trigger] r@[k]@.len() == self@[k]@.len(),
                forall|k: int, j: int| 0 <= k < i && 0 <= j < self@[k]@.len()
                    ==> map.ensures((&self@[k]@[j],), #[trigger] r@[k]@[j]),
            decreases self@.len() - i,
        {
            assert forall|j: int| 0 <= j < self@[i as int]@.len() implies map.requires((&#[trigger] self@[i as int]@[j],)) by {
                assert(ListsOrSingle::<T>::rows(self)[i as int][j] == self@[i as int]@[j]);
            }
            r.push(map_slice_ref(self[i], &map));
            i += 1;
        }
        r
    }

    fn map_into_owned<F: Fn(T) -> U>(self, map: F) -> (r: Vec<Vec<U>>)
        where T: Copy
    {
        let mut r: Vec<Vec<U>> = Vec::new();
        let mut i: usize = 0;
        while i < self.len()
            invariant
                i <= self@.len(),
                r@.len() == i,
                forall|i: int, j: int| 0 <= i < ListsOrSingle::<T>::rows(&self).len() && 0 <= j < ListsOrSingle::<T>::rows(&self)[i].len()
                    ==> map.requires((#[trigger] ListsOrSingle::<T>::rows(&self)[i][j],)),
                forall|k: int| 0 <= k < i ==> #[trigger] r@[k]@.len() == self@[k]@.len(),
                forall|k: int, j: int| 0 <= k < i && 0 <= j < self@[k]@.len()
                    ==> map.ensures((self@[k]@[j],), #[trigger] r@[k]@[j]),
            decreases self@.len() - i,
        {
            assert forall|j: int| 0 <= j < self@[i as int]@.len() implies map.requires((#[trigger] self@[i as int]@[j],)) by {
                assert(ListsOrSingle::<T>::rows(&self)[i as int][j] == self@[i as int]@[j]);
            }
            r.push(map_slice_copy(self[i], &map));
            i += 1;
        }
        r
    }
}

} // verus!
