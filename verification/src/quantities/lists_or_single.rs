//! Containers seen as a sequence of rows of samples.
use vstd::prelude::*;

verus! {

/// The rows of a vector of vectors.
pub open spec fn rows_of<T>(v: Seq<Vec<T>>) -> Seq<Seq<T>> {
    Seq::new(v.len(), |i: int| v[i]@)
}

/// A copy of the elements of a slice.
pub fn copy_of<T: Copy>(s: &[T]) -> (v: Vec<T>)
    ensures
        v@ == s@,
{
    let mut v: Vec<T> = Vec::new();
    let mut i: usize = 0;
    while i < s.len()
        invariant
            i <= s@.len(),
            v@ == s@.subrange(0, i as int),
        decreases s@.len() - i,
    {
        v.push(s[i]);
        i += 1;
        assert(v@ =~= s@.subrange(0, i as int));
    }
    assert(v@ =~= s@);
    v
}

/// A container of samples, seen as one or more rows.
pub trait ListsOrSingle<T> {
    /// The rows held by the container, in order.
    spec fn rows(&self) -> Seq<Seq<T>>;

    /// A borrowed slice for every row.
    fn as_view_slices<'a>(&'a self) -> (r: Vec<&'a [T]>)
        ensures
            r@.len() == self.rows().len(),
            forall|i: int| 0 <= i < r@.len() ==> #[trigger] r@[i]@ == self.rows()[i];

    /// The number of rows.
    fn height(&self) -> (h: usize)
        ensures
            h == self.rows().len();

    /// A copy of every row.
    fn to_vecs(&self) -> (r: Vec<Vec<T>>)
        where T: Copy
        ensures
            rows_of(r@) == self.rows();

    /// The rows, as owned vectors.
    fn into_vecs(self) -> (r: Vec<Vec<T>>)
        where T: Copy, Self: Sized
        ensures
            rows_of(r@) == self.rows();
}

impl<T> ListsOrSingle<T> for Vec<T> {
    open spec fn rows(&self) -> Seq<Seq<T>> {
        seq![self@]
    }

    fn as_view_slices<'a>(&'a self) -> (r: Vec<&'a [T]>) {
        let r = vec![self.as_slice()];
        assert(r@[0]@ == self@);
        r
    }

    fn height(&self) -> (h: usize) {
        1
    }

    fn to_vecs(&self) -> (r: Vec<Vec<T>>)
        where T: Copy
    {
        let r = vec![copy_of(self.as_slice())];
        assert(rows_of(r@) =~= self.rows());
        r
    }

    fn into_vecs(self) -> (r: Vec<Vec<T>>)
        where T: Copy
    {
        let ghost v = self@;
        let r = vec![self];
        assert(rows_of(r@) =~= seq![v]);
        r
    }
}

impl<'b, T> ListsOrSingle<T> for &'b [T] {
    open spec fn rows(&self) -> Seq<Seq<T>> {
        seq![self@]
    }

    fn as_view_slices<'a>(&'a self) -> (r: Vec<&'a [T]>) {
        let r = vec![*self];
        assert(r@[0]@ == self@);
        r
    }

    fn height(&self) -> (h: usize) {
        1
    }

    fn to_vecs(&self) -> (r: Vec<Vec<T>>)
        where T: Copy
    {
        let r = vec![copy_of(*self)];
        assert(rows_of(r@) =~= self.rows());
        r
    }

    fn into_vecs(self) -> (r: Vec<Vec<T>>)
        where T: Copy
    {
        let r = vec![copy_of(self)];
        assert(rows_of(r@) =~= self.rows());
        r
    }
}

impl<T, const N: usize> ListsOrSingle<T> for [T; N] {
    open spec fn rows(&self) -> Seq<Seq<T>> {
        seq![self@]
    }

    fn as_view_slices<'a>(&'a self) -> (r: Vec<&'a [T]>) {
        let r = vec![self.as_slice()];
        assert(r@[0]@ == self@);
        r
    }

    fn height(&self) -> (h: usize) {
        1
    }

    fn to_vecs(&self) -> (r: Vec<Vec<T>>)
        where T: Copy
    {
        let r = vec![copy_of(self.as_slice())];
        assert(rows_of(r@) =~= self.rows());
        r
    }

    fn into_vecs(self) -> (r: Vec<Vec<T>>)
        where T: Copy
    {
        let r = vec![copy_of(self.as_slice())];
        assert(rows_of(r@) =~= self.rows());
        r
    }
}

impl<T> ListsOrSingle<T> for Vec<Vec<T>> {
    open spec fn rows(&self) -> Seq<Seq<T>> {
        rows_of(self@)
    }

    fn as_view_slices<'a>(&'a self) -> (r: Vec<&'a [T]>) {
        let mut r: Vec<&'a [T]> = Vec::new();
        let mut i: usize = 0;
        while i < self.len()
            invariant
                i <= self@.len(),
                r@.len() == i,
                forall|k: int| 0 <= k < i ==> #[trigger] r@[k]@ == self@[k]@,
            decreases self@.len() - i,
        {
            r.push(self[i].as_slice());
            i += 1;
        }
        r
    }

    fn height(&self) -> (h: usize) {
        self.len()
    }

    fn to_vecs(&self) -> (r: Vec<Vec<T>>)
        where T: Copy
    {
        let mut r: Vec<Vec<T>> = Vec::new();
        let mut i: usize = 0;
        while i < self.len()
            invariant
                i <= self@.len(),
                r@.len() == i,
                forall|k: int| 0 <= k < i ==> #[trigger] r@[k]@ == self@[k]@,
            decreases self@.len() - i,
        {
            r.push(copy_of(self[i].as_slice()));
            i += 1;
        }
        assert(rows_of(r@) =~= self.rows());
        r
    }

    fn into_vecs(self) -> (r: Vec<Vec<T>>)
        where T: Copy
    {
        assert(rows_of(self@) =~= self.rows());
        self
    }
}

impl<'b, T> ListsOrSingle<T> for Vec<&'b [T]> {
    open spec fn rows(&self) -> Seq<Seq<T>> {
        Seq::new(self@.len(), |i: int| self@[i]@)
    }

    fn as_view_slices<'a>(&'a self) -> (r: Vec<&'a [T]>) {
        let mut r: Vec<&'a [T]> = Vec::new();
        let mut i: usize = 0;
        while i < self.len()
            invariant
                i <= self@.len(),
                r@.len() == i,
                forall|k: int| 0 <= k < i ==> #[trigger] r@[k]@ == self@[k]@,
            decreases self@.len() - i,
        {
            r.push(self[i]);
            i += 1;
        }
        r
    }

    fn height(&self) -> (h: usize) {
        self.len()
    }

    fn to_vecs(&self) -> (r: Vec<Vec<T>>)
        where T: Copy
    {
        let mut r: Vec<Vec<T>> = Vec::new();
        let mut i: usize = 0;
        while i < self.len()
            invariant
                i <= self@.len(),
                r@.len() == i,
                forall|k: int| 0 <= k < i ==> #[trigger] r@[k]@ == self@[k]@,
            decreases self@.len() - i,
        {
            r.push(copy_of(self[i]));
            i += 1;
        }
        assert(rows_of(r@) =~= self.rows());
        r
    }

    fn into_vecs(self) -> (r: Vec<Vec<T>>)
        where T: Copy
    {
        self.to_vecs()
    }
}

impl<T, const M: usize> ListsOrSingle<T> for [Vec<T>; M] {
    open spec fn rows(&self) -> Seq<Seq<T>> {
        Seq::new(self@.len(), |i: int| self@[i]@)
    }

    fn as_view_slices<'a>(&'a self) -> (r: Vec<&'a [T]>) {
        let mut r: Vec<&'a [T]> = Vec::new();
        let mut i: usize = 0;
        while i < M
            invariant
                i <= M,
                self@.len() == M,
                r@.len() == i,
                forall|k: int| 0 <= k < i ==> #[trigger] r@[k]@ == self@[k]@,
            decreases M - i,
        {
            r.push(self[i].as_slice());
            i += 1;
        }
        r
    }

    fn height(&self) -> (h: usize) {
        M
    }

    fn to_vecs(&self) -> (r: Vec<Vec<T>>)
        where T: Copy
    {
        let mut r: Vec<Vec<T>> = Vec::new();
        let mut i: usize = 0;
        while i < M
            invariant
                i <= M,
                self@.len() == M,
                r@.len() == i,
                forall|k: int| 0 <= k < i ==> #[trigger] r@[k]@ == self@[k]@,
            decreases M - i,
        {
            r.push(copy_of(self[i].as_slice()));
            i += 1;
        }
        assert(rows_of(r@) =~= self.rows());
        r
    }

    fn into_vecs(self) -> (r: Vec<Vec<T>>)
        where T: Copy
    {
        self.to_vecs()
    }
}

impl<T, const N: usize> ListsOrSingle<T> for Vec<[T; N]> {
    open spec fn rows(&self) -> Seq<Seq<T>> {
        Seq::new(self@.len(), |i: int| self@[i]@)
    }

    fn as_view_slices<'a>(&'a self) -> (r: Vec<&'a [T]>) {
        let mut r: Vec<&'a [T]> = Vec::new();
        let mut i: usize = 0;
        while i < self.len()
            invariant
                i <= self@.len(),
                r@.len() == i,
                forall|k: int| 0 <= k < i ==> #[trigger] r@[k]@ == self@[k]@,
            decreases self@.len() - i,
        {
            r.push(self[i].as_slice());
            i += 1;
        }
        r
    }

    fn height(&self) -> (h: usize) {
        self.len()
    }

    fn to_vecs(&self) -> (r: Vec<Vec<T>>)
        where T: Copy
    {
        let mut r: Vec<Vec<T>> = Vec::new();
        let mut i: usize = 0;
        while i < self.len()
            invariant
                i <= self@.len(),
                r@.len() == i,
                forall|k: int| 0 <= k < i ==> #[trigger] r@[k]@ == self@[k]@,
            decreases self@.len() - i,
        {
            r.push(copy_of(self[i].as_slice()));
            i += 1;
        }
        assert(rows_of(r@) =~= self.rows());
        r
    }

    fn into_vecs(self) -> (r: Vec<Vec<T>>)
        where T: Copy
    {
        self.to_vecs()
    }
}

impl<T, const N: usize, const M: usize> ListsOrSingle<T> for [[T; N]; M] {
    open spec fn rows(&self) -> Seq<Seq<T>> {
        Seq::new(self@.len(), |i: int| self@[i]@)
    }

    fn as_view_slices<'a>(&'a self) -> (r: Vec<&'a [T]>) {
        let mut r: Vec<&'a [T]> = Vec::new();
        let mut i: usize = 0;
        while i < M
            invariant
                i <= M,
                self@.len() == M,
                r@.len() == i,
                forall|k: int| 0 <= k < i ==> #[trigger] r@[k]@ == self@[k]@,
            decreases M - i,
        {
            r.push(self[i].as_slice());
            i += 1;
        }
        r
    }

    fn height(&self) -> (h: usize) {
        M
    }

    fn to_vecs(&self) -> (r: Vec<Vec<T>>)
        where T: Copy
    {
        let mut r: Vec<Vec<T>> = Vec::new();
        let mut i: usize = 0;
        while i < M
            invariant
                i <= M,
                self@.len() == M,
                r@.len() == i,
                forall|k: int| 0 <= k < i ==> #[trigger] r@[k]@ == self@[k]@,
            decreases M - i,
        {
            r.push(copy_of(self[i].as_slice()));
            i += 1;
        }
        assert(rows_of(r@) =~= self.rows());
        r
    }

    fn into_vecs(self) -> (r: Vec<Vec<T>>)
        where T: Copy
    {
        self.to_vecs()
    }
}

} // verus!
