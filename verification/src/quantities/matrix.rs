//! Rectangular containers of samples: a list is a matrix of one row.
use vstd::prelude::*;
use crate::quantities::lists_or_single::{ListsOrSingle, rows_of};

verus! {

/// `t` holds the transpose of the `h` by `w` rectangle `rows`.
pub open spec fn is_transpose<T>(t: Seq<Seq<T>>, rows: Seq<Seq<T>>, h: int, w: int) -> bool {
    &&& t.len() == w
    &&& forall|i: int| 0 <= i < w ==> (#[trigger] t[i]).len() == h
    &&& forall|i: int, j: int| 0 <= i < w && 0 <= j < h ==> #[trigger] t[i][j] == rows[j][i]
}

/// The columns of the `h` by `w` rectangle `rows`, as rows.
pub open spec fn transpose_of<T>(rows: Seq<Seq<T>>, h: int, w: int) -> Seq<Seq<T>> {
    Seq::new(w as nat, |i: int| Seq::new(h as nat, |j: int| rows[j][i]))
}

/// A transpose of a rectangle is its columns as rows.
pub proof fn lemma_is_transpose_of<T>(t: Seq<Seq<T>>, rows: Seq<Seq<T>>, h: int, w: int)
    requires
        0 <= h,
        is_transpose(t, rows, h, w),
    ensures
        t == transpose_of(rows, h, w),
{
    assert forall|i: int| 0 <= i < w implies #[trigger] t[i] == transpose_of(rows, h, w)[i] by {
        assert(t[i] =~= transpose_of(rows, h, w)[i]);
    }
    assert(t =~= transpose_of(rows, h, w));
}

/// The transpose of the `h` by `w` rectangle `rows`.
pub fn transpose_rows<T: Copy>(rows: &Vec<&[T]>, h: usize, w: usize) -> (t: Vec<Vec<T>>)
    requires
        rows@.len() == h,
        forall|j: int| 0 <= j < h ==> (#[trigger] rows@[j])@.len() == w,
    ensures
        is_transpose(rows_of(t@), Seq::new(h as nat, |j: int| rows@[j]@), h as int, w as int),
{
    let ghost src = Seq::new(h as nat, |j: int| rows@[j]@);
    let mut t: Vec<Vec<T>> = Vec::new();
    let mut i: usize = 0;
    while i < w
        invariant
            i <= w,
            rows@.len() == h,
            forall|j: int| 0 <= j < h ==> (#[trigger] rows@[j])@.len() == w,
            src == Seq::new(h as nat, |j: int| rows@[j]@),
            t@.len() == i,
            forall|k: int| 0 <= k < i ==> (#[trigger] t@[k])@.len() == h,
            forall|k: int, j: int| 0 <= k < i && 0 <= j < h ==> #[trigger] t@[k]@[j] == src[j][k],
        decreases w - i,
    {
        let mut col: Vec<T> = Vec::new();
        let mut j: usize = 0;
        while j < h
            invariant
                j <= h,
                i < w,
                rows@.len() == h,
                forall|j: int| 0 <= j < h ==> (#[trigger] rows@[j])@.len() == w,
                src == Seq::new(h as nat, |j: int| rows@[j]@),
                col@.len() == j,
                forall|l: int| 0 <= l < j ==> #[trigger] col@[l] == src[l][i as int],
            decreases h - j,
        {
            let row: &[T] = rows[j];
            col.push(row[i]);
            j += 1;
        }
        t.push(col);
        i += 1;
    }
    t
}

/// Containers whose rows all have one length.
pub trait Matrix<T>: ListsOrSingle<T> {
    /// The length of every row.
    spec fn width(&self) -> int;

    /// The number of rows and the length of every row.
    fn matrix_dim(&self) -> (d: (usize, usize))
        ensures
            d.0 == self.rows().len(),
            d.1 == self.width(),
            forall|i: int| 0 <= i < self.rows().len() ==> (#[trigger] self.rows()[i]).len() == self.width();

    /// Whether the matrix can be transposed.
    spec fn transposable(&self) -> bool;

    /// The rows that transposing gives.
    spec fn transposed(&self) -> Seq<Seq<T>>;

    /// The transposed matrix, as rows.
    fn matrix_transpose(&self) -> (t: Vec<Vec<T>>)
        where T: Copy
        requires
            self.transposable(),
        ensures
            rows_of(t@) == self.transposed();
}

impl<T> Matrix<T> for Vec<T> {
    open spec fn width(&self) -> int {
        self@.len() as int
    }

    open spec fn transposable(&self) -> bool {
        true
    }

    open spec fn transposed(&self) -> Seq<Seq<T>> {
        transpose_of(ListsOrSingle::<T>::rows(self), ListsOrSingle::<T>::rows(self).len() as int, Matrix::<T>::width(self))
    }

    fn matrix_dim(&self) -> (d: (usize, usize)) {
        (1, self.len())
    }

    fn matrix_transpose(&self) -> (t: Vec<Vec<T>>)
        where T: Copy
    {
        let rows = self.as_view_slices();
        let t = transpose_rows(&rows, 1, self.len());
        assert(Seq::new(1nat, |j: int| rows@[j]@) =~= self.rows());
        proof { lemma_is_transpose_of(rows_of(t@), self.rows(), 1, self@.len() as int); }
        t
    }
}

impl<'a, T> Matrix<T> for &'a [T] {
    open spec fn width(&self) -> int {
        self@.len() as int
    }

    open spec fn transposable(&self) -> bool {
        true
    }

    open spec fn transposed(&self) -> Seq<Seq<T>> {
        transpose_of(ListsOrSingle::<T>::rows(self), ListsOrSingle::<T>::rows(self).len() as int, Matrix::<T>::width(self))
    }

    fn matrix_dim(&self) -> (d: (usize, usize)) {
        (1, self.len())
    }

    fn matrix_transpose(&self) -> (t: Vec<Vec<T>>)
        where T: Copy
    {
        let rows = self.as_view_slices();
        let t = transpose_rows(&rows, 1, self.len());
        assert(Seq::new(1nat, |j: int| rows@[j]@) =~= self.rows());
        proof { lemma_is_transpose_of(rows_of(t@), self.rows(), 1, self@.len() as int); }
        t
    }
}

impl<T, const N: usize> Matrix<T> for [T; N] {
    open spec fn width(&self) -> int {
        N as int
    }

    open spec fn transposable(&self) -> bool {
        true
    }

    open spec fn transposed(&self) -> Seq<Seq<T>> {
        transpose_of(ListsOrSingle::<T>::rows(self), ListsOrSingle::<T>::rows(self).len() as int, Matrix::<T>::width(self))
    }

    fn matrix_dim(&self) -> (d: (usize, usize)) {
        (1, N)
    }

    fn matrix_transpose(&self) -> (t: Vec<Vec<T>>)
        where T: Copy
    {
        let rows = self.as_view_slices();
        let t = transpose_rows(&rows, 1, N);
        assert(Seq::new(1nat, |j: int| rows@[j]@) =~= self.rows());
        proof { lemma_is_transpose_of(rows_of(t@), self.rows(), 1, N as int); }
        t
    }
}

impl<T, const N: usize, const M: usize> Matrix<T> for [[T; N]; M] {
    open spec fn width(&self) -> int {
        N as int
    }

    open spec fn transposable(&self) -> bool {
        true
    }

    open spec fn transposed(&self) -> Seq<Seq<T>> {
        transpose_of(ListsOrSingle::<T>::rows(self), ListsOrSingle::<T>::rows(self).len() as int, Matrix::<T>::width(self))
    }

    fn matrix_dim(&self) -> (d: (usize, usize)) {
        (M, N)
    }

    fn matrix_transpose(&self) -> (t: Vec<Vec<T>>)
        where T: Copy
    {
        let rows = self.as_view_slices();
        let t = transpose_rows(&rows, M, N);
        assert(Seq::new(M as nat, |j: int| rows@[j]@) =~= self.rows());
        proof { lemma_is_transpose_of(rows_of(t@), self.rows(), M as int, N as int); }
        t
    }
}

impl<T, const N: usize> Matrix<T> for Vec<[T; N]> {
    open spec fn width(&self) -> int {
        N as int
    }

    /// Row `i` of the transpose is filled from row `i` of the matrix, so the
    /// transpose exists only for a square matrix, or one without rows or
    /// columns; a square matrix comes back as it is.
    open spec fn transposable(&self) -> bool {
        N == self@.len() || N == 0 || self@.len() == 0
    }

    /// `N` rows of `self.len()` samples, sample `j` of row `i` being sample
    /// `j` of row `i` of the matrix.
    open spec fn transposed(&self) -> Seq<Seq<T>> {
        Seq::new(N as nat, |i: int| Seq::new(self@.len(), |j: int| self@[i][j]))
    }

    fn matrix_dim(&self) -> (d: (usize, usize)) {
        (self.len(), N)
    }

    fn matrix_transpose(&self) -> (t: Vec<Vec<T>>)
        where T: Copy
    {
        let h: usize = self.len();
        let mut t: Vec<Vec<T>> = Vec::new();
        let mut i: usize = 0;
        while i < N
            invariant
                h == self@.len(),
                N == h || N == 0 || h == 0,
                i <= N,
                t@.len() == i,
                forall|k: int| 0 <= k < i ==> (#[trigger] t@[k])@ == Matrix::<T>::transposed(self)[k],
            decreases N - i,
        {
            let mut row: Vec<T> = Vec::new();
            let mut j: usize = 0;
            while j < h
                invariant
                    h == self@.len(),
                    N == h || h == 0,
                    i < N,
                    j <= h,
                    row@ == Matrix::<T>::transposed(self)[i as int].subrange(0, j as int),
                decreases h - j,
            {
                let v: T = self[i][j];
                row.push(v);
                j += 1;
                assert(row@ =~= Matrix::<T>::transposed(self)[i as int].subrange(0, j as int));
            }
            assert(row@ =~= Matrix::<T>::transposed(self)[i as int]);
            t.push(row);
            i += 1;
        }
        assert(rows_of(t@) =~= Matrix::<T>::transposed(self));
        t
    }
}

/// Transposing twice gives back the rectangle.
pub proof fn lemma_transpose_involutive<T>(rows: Seq<Seq<T>>, h: int, w: int)
    requires
        0 <= h,
        0 <= w,
        rows.len() == h,
        forall|j: int| 0 <= j < h ==> (#[trigger] rows[j]).len() == w,
    ensures
        transpose_of(transpose_of(rows, h, w), w, h) == rows,
{
    let t = transpose_of(rows, h, w);
    let u = transpose_of(t, w, h);
    assert forall|j: int| 0 <= j < h implies #[trigger] u[j] == rows[j] by {
        assert(u[j] =~= rows[j]);
    }
    assert(u =~= rows);
}

} // verus!
