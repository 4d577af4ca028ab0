//! Two-dimensional `ndarray` arrays of integer samples.
//!
//! The array is held in a private field, so every value of the type was made
//! by `int_array2_from_shape_vec`, in row-major order.
use vstd::prelude::*;
use crate::quantities::lists::{Lists, max_row_len, resized_from};
use crate::quantities::lists_or_single::{ListsOrSingle, copy_of, rows_of};
use crate::quantities::matrix::{Matrix, is_transpose, lemma_is_transpose_of, transpose_of};

verus! {

/// A two-dimensional array of `i64` samples, in row-major layout.
#[verifier::external_body]
pub struct IntArray2 {
    a: ndarray::Array2<i64>,
}

/// The rows of the array.
pub uninterp spec fn int_array2_rows(a: IntArray2) -> Seq<Seq<i64>>;

/// The number of columns the array was made with.
pub uninterp spec fn int_array2_width(a: IntArray2) -> nat;

/// The product of the axis lengths that are not zero.
pub open spec fn nonzero_size(h: int, w: int) -> int {
    (if h == 0 { 1 } else { h }) * (if w == 0 { 1 } else { w })
}

/// `ndarray::Array2::from_shape_vec` with a plain `(rows, columns)` shape:
/// the array whose element `(i, j)` is `data[i * w + j]`. The call fails, and
/// so is not made, unless `data` holds exactly `h * w` values and the product
/// of the non-zero axis lengths is at most `isize::MAX`.
#[verifier::external_body]
fn int_array2_from_shape_vec(h: usize, w: usize, data: Vec<i64>) -> (a: IntArray2)
    requires
        data@.len() == h * w,
        nonzero_size(h as int, w as int) <= isize::MAX,
    ensures
        int_array2_rows(a).len() == h,
        int_array2_width(a) == w,
        forall|i: int| 0 <= i < h ==> (#[trigger] int_array2_rows(a)[i]).len() == w,
        forall|i: int, j: int| 0 <= i < h && 0 <= j < w ==> #[trigger] int_array2_rows(a)[i][j] == data@[i * w + j],
{
    IntArray2 { a: ndarray::Array2::from_shape_vec((h, w), data).unwrap() }
}

/// `ndarray::ArrayBase::dim`: the number of rows and of columns.
#[verifier::external_body]
fn int_array2_dim(a: &IntArray2) -> (d: (usize, usize))
    ensures
        d.0 == int_array2_rows(*a).len(),
        d.1 == int_array2_width(*a),
        forall|i: int| 0 <= i < d.0 ==> (#[trigger] int_array2_rows(*a)[i]).len() == d.1,
{
    a.a.dim()
}

/// `ndarray::ArrayBase::as_slice`: the elements in row-major order. Every
/// array of this type was laid out in row-major order when it was made, so the
/// slice is there.
#[verifier::external_body]
fn int_array2_as_slice(a: &IntArray2) -> (s: &[i64])
    ensures
        s@.len() == int_array2_rows(*a).len() * int_array2_width(*a),
        forall|i: int, j: int| 0 <= i < int_array2_rows(*a).len() && 0 <= j < int_array2_width(*a)
            ==> #[trigger] int_array2_rows(*a)[i][j] == s@[i * int_array2_width(*a) + j],
{
    a.a.as_slice().unwrap()
}

/// Row `i` of a row-major layout of rows of `w` values.
proof fn lemma_row_range(i: int, h: int, w: int)
    requires
        0 <= i < h,
        w >= 0,
    ensures
        0 <= i * w,
        i * w + w <= h * w,
        (i + 1) * w == i * w + w,
{
    assert(0 <= i * w) by (nonlinear_arith)
        requires 0 <= i, w >= 0;
    assert(i * w + w <= h * w) by (nonlinear_arith)
        requires i < h, w >= 0;
    assert((i + 1) * w == i * w + w) by (nonlinear_arith);
}

/// Row `i` of the array, as a slice of its row-major layout.
fn row_slice<'a>(a: &'a IntArray2, s: &'a [i64], h: usize, w: usize, i: usize) -> (r: &'a [i64])
    requires
        h == int_array2_rows(*a).len(),
        w == int_array2_width(*a),
        forall|k: int| 0 <= k < h ==> (#[trigger] int_array2_rows(*a)[k]).len() == w,
        s@.len() == h * w,
        forall|k: int, j: int| 0 <= k < h && 0 <= j < w
            ==> #[trigger] int_array2_rows(*a)[k][j] == s@[k * w + j],
        i < h,
    ensures
        r@ == int_array2_rows(*a)[i as int],
{
    proof { lemma_row_range(i as int, h as int, w as int); }
    let sl: usize = s.len();
    assert(i * w + w <= sl);
    let start: usize = i * w;
    let r: &[i64] = &s[start..start + w];
    assert(r@ =~= int_array2_rows(*a)[i as int]) by {
        assert forall|j: int| 0 <= j < w implies #[trigger] r@[j] == int_array2_rows(*a)[i as int][j] by {
            assert(r@[j] == s@[i * w + j]);
        }
    }
    r
}

/// An entry before row `i` of a row-major layout lies before the row.
proof fn lemma_row_major_before(k: int, l: int, i: int, w: int)
    requires
        0 <= k < i,
        0 <= l < w,
    ensures
        0 <= k * w + l < i * w,
{
    assert(0 <= k * w + l < i * w) by (nonlinear_arith)
        requires 0 <= k < i, 0 <= l < w;
}

/// The rows of `rows`, laid end to end.
fn flatten(rows: &Vec<Vec<i64>>, w: usize) -> (data: Vec<i64>)
    requires
        forall|i: int| 0 <= i < rows@.len() ==> (#[trigger] rows@[i])@.len() == w,
        rows@.len() * w <= usize::MAX,
    ensures
        data@.len() == rows@.len() * w,
        forall|i: int, j: int| 0 <= i < rows@.len() && 0 <= j < w ==> #[trigger] data@[i * w + j] == rows@[i]@[j],
{
    let h: usize = rows.len();
    let mut data: Vec<i64> = Vec::new();
    let mut i: usize = 0;
    while i < h
        invariant
            h == rows@.len(),
            forall|i: int| 0 <= i < rows@.len() ==> (#[trigger] rows@[i])@.len() == w,
            h * w <= usize::MAX,
            i <= h,
            data@.len() == i * w,
            forall|k: int, j: int| 0 <= k < i && 0 <= j < w ==> #[trigger] data@[k * w + j] == rows@[k]@[j],
        decreases h - i,
    {
        let mut j: usize = 0;
        assert(i * w + w <= h * w) by (nonlinear_arith)
            requires i < h;
        while j < w
            invariant
                h == rows@.len(),
                forall|i: int| 0 <= i < rows@.len() ==> (#[trigger] rows@[i])@.len() == w,
                i < h,
                j <= w,
                data@.len() == i * w + j,
                forall|k: int, l: int| 0 <= k < i && 0 <= l < w ==> #[trigger] data@[k * w + l] == rows@[k]@[l],
                forall|l: int| 0 <= l < j ==> #[trigger] data@[i * w + l] == rows@[i as int]@[l],
            decreases w - j,
        {
            let ghost before = data@;
            data.push(rows[i][j]);
            assert forall|k: int, l: int| 0 <= k < i && 0 <= l < w implies #[trigger] data@[k * w + l] == rows@[k]@[l] by {
                lemma_row_major_before(k, l, i as int, w as int);
                assert(data@[k * w + l] == before[k * w + l]);
            }
            j += 1;
        }
        proof {
            assert forall|k: int, l: int| 0 <= k < i + 1 && 0 <= l < w implies #[trigger] data@[k * w + l] == rows@[k]@[l] by {
                if k == i {
                    assert(data@[i * w + l] == rows@[i as int]@[l]);
                }
            }
            assert((i + 1) * w == i * w + w) by (nonlinear_arith);
        }
        i += 1;
    }
    data
}

/// The array with the rows of `rows`, which all have `w` samples.
pub fn int_array2_from_rows(rows: &Vec<Vec<i64>>, w: usize) -> (a: IntArray2)
    requires
        forall|i: int| 0 <= i < rows@.len() ==> (#[trigger] rows@[i])@.len() == w,
        nonzero_size(rows@.len() as int, w as int) <= isize::MAX,
    ensures
        int_array2_rows(a) == rows_of(rows@),
        int_array2_width(a) == w,
{
    let h: usize = rows.len();
    assert(h * w <= nonzero_size(h as int, w as int)) by (nonlinear_arith)
        requires h >= 0, w >= 0;
    let data = flatten(rows, w);
    let a = int_array2_from_shape_vec(h, w, data);
    assert forall|i: int| 0 <= i < h implies #[trigger] int_array2_rows(a)[i] == rows_of(rows@)[i] by {
        assert(int_array2_rows(a)[i] =~= rows@[i]@);
    }
    assert(int_array2_rows(a) =~= rows_of(rows@));
    a
}

impl ListsOrSingle<i64> for IntArray2 {
    open spec fn rows(&self) -> Seq<Seq<i64>> {
        int_array2_rows(*self)
    }

    fn as_view_slices<'a>(&'a self) -> (r: Vec<&'a [i64]>) {
        let (h, w) = int_array2_dim(self);
        let s: &'a [i64] = int_array2_as_slice(self);
        let mut r: Vec<&'a [i64]> = Vec::new();
        let mut i: usize = 0;
        while i < h
            invariant
                h == int_array2_rows(*self).len(),
                w == int_array2_width(*self),
                forall|k: int| 0 <= k < h ==> (#[trigger] int_array2_rows(*self)[k]).len() == w,
                s@.len() == h * w,
                forall|k: int, j: int| 0 <= k < h && 0 <= j < w
                    ==> #[trigger] int_array2_rows(*self)[k][j] == s@[k * w + j],
                i <= h,
                r@.len() == i,
                forall|k: int| 0 <= k < i ==> #[trigger] r@[k]@ == int_array2_rows(*self)[k],
            decreases h - i,
        {
            r.push(row_slice(self, s, h, w, i));
            i += 1;
        }
        r
    }

    fn height(&self) -> (h: usize) {
        let (h, _w) = int_array2_dim(self);
        h
    }

    fn to_vecs(&self) -> (r: Vec<Vec<i64>>) {
        let (h, w) = int_array2_dim(self);
        let s: &[i64] = int_array2_as_slice(self);
        let mut r: Vec<Vec<i64>> = Vec::new();
        let mut i: usize = 0;
        while i < h
            invariant
                h == int_array2_rows(*self).len(),
                w == int_array2_width(*self),
                forall|k: int| 0 <= k < h ==> (#[trigger] int_array2_rows(*self)[k]).len() == w,
                s@.len() == h * w,
                forall|k: int, j: int| 0 <= k < h && 0 <= j < w
                    ==> #[trigger] int_array2_rows(*self)[k][j] == s@[k * w + j],
                i <= h,
                r@.len() == i,
                forall|k: int| 0 <= k < i ==> #[trigger] r@[k]@ == int_array2_rows(*self)[k],
            decreases h - i,
        {
            r.push(copy_of(row_slice(self, s, h, w, i)));
            i += 1;
        }
        assert(rows_of(r@) =~= int_array2_rows(*self));
        r
    }

    fn into_vecs(self) -> (r: Vec<Vec<i64>>) {
        self.to_vecs()
    }
}

impl Matrix<i64> for IntArray2 {
    open spec fn width(&self) -> int {
        int_array2_width(*self) as int
    }

    open spec fn transposable(&self) -> bool {
        true
    }

    open spec fn transposed(&self) -> Seq<Seq<i64>> {
        transpose_of(self.rows(), self.rows().len() as int, self.width())
    }

    fn matrix_dim(&self) -> (d: (usize, usize)) {
        int_array2_dim(self)
    }

    fn matrix_transpose(&self) -> (t: Vec<Vec<i64>>) {
        let (h, w) = int_array2_dim(self);
        let s: &[i64] = int_array2_as_slice(self);
        let sl: usize = s.len();
        let mut t: Vec<Vec<i64>> = Vec::new();
        let mut j: usize = 0;
        while j < w
            invariant
                h == int_array2_rows(*self).len(),
                w == int_array2_width(*self),
                forall|i: int| 0 <= i < h ==> (#[trigger] int_array2_rows(*self)[i]).len() == w,
                s@.len() == h * w,
                sl == s@.len(),
                forall|k: int, l: int| 0 <= k < h && 0 <= l < w
                    ==> #[trigger] int_array2_rows(*self)[k][l] == s@[k * w + l],
                j <= w,
                t@.len() == j,
                forall|k: int| 0 <= k < j ==> (#[trigger] t@[k])@.len() == h,
                forall|k: int, i: int| 0 <= k < j && 0 <= i < h ==> #[trigger] t@[k]@[i] == int_array2_rows(*self)[i][k],
            decreases w - j,
        {
            let mut col: Vec<i64> = Vec::new();
            let mut i: usize = 0;
            while i < h
                invariant
                    h == int_array2_rows(*self).len(),
                    forall|i: int| 0 <= i < h ==> (#[trigger] int_array2_rows(*self)[i]).len() == w,
                    s@.len() == h * w,
                    sl == s@.len(),
                    forall|k: int, l: int| 0 <= k < h && 0 <= l < w
                        ==> #[trigger] int_array2_rows(*self)[k][l] == s@[k * w + l],
                    j < w,
                    i <= h,
                    col@.len() == i,
                    forall|l: int| 0 <= l < i ==> #[trigger] col@[l] == int_array2_rows(*self)[l][j as int],
                decreases h - i,
            {
                proof { lemma_row_range(i as int, h as int, w as int); }
                assert(i * w + j < sl);
                assert(int_array2_rows(*self)[i as int][j as int] == s@[i * w + j]);
                col.push(s[i * w + j]);
                i += 1;
            }
            t.push(col);
            j += 1;
        }
        proof {
            assert(is_transpose(rows_of(t@), self.rows(), h as int, w as int));
            lemma_is_transpose_of(rows_of(t@), self.rows(), h as int, w as int);
        }
        t
    }
}

/// The rows of `rows`, padded with values of `or` to the length of the
/// longest row, as an array.
pub fn coerce_into_int_array2<F: Fn() -> i64>(rows: Vec<Vec<i64>>, or: F) -> (a: IntArray2)
    requires
        or.requires(()),
        nonzero_size(rows@.len() as int, max_row_len(rows_of(rows@)) as int) <= isize::MAX,
    ensures
        int_array2_rows(a).len() == rows@.len(),
        forall|i: int| 0 <= i < rows@.len() ==> resized_from(
            #[trigger] int_array2_rows(a)[i], rows@[i]@, max_row_len(rows_of(rows@)) as int, or),
{
    let ghost src = rows_of(rows@);
    let w: usize = crate::quantities::lists::longest_row(&rows);
    let m: Vec<Vec<i64>> = Lists::<i64>::coerce_into_matrix(rows, or);
    assert forall|i: int| 0 <= i < m@.len() implies (#[trigger] m@[i])@.len() == w by {
        assert(ListsOrSingle::<i64>::rows(&m)[i] == m@[i]@);
    }
    let a = int_array2_from_rows(&m, w);
    assert forall|i: int| 0 <= i < src.len() implies resized_from(
        #[trigger] int_array2_rows(a)[i], src[i], w as int, or) by {
        assert(ListsOrSingle::<i64>::rows(&m)[i] == m@[i]@);
    }
    a
}

/// A matrix of samples as an array.
pub fn to_int_array2<M: Matrix<i64>>(m: &M) -> (a: IntArray2)
    requires
        nonzero_size(m.rows().len() as int, m.width()) <= isize::MAX,
    ensures
        int_array2_rows(a) == m.rows(),
{
    let (h, w) = m.matrix_dim();
    let rows: Vec<Vec<i64>> = m.to_vecs();
    assert forall|i: int| 0 <= i < rows@.len() implies (#[trigger] rows@[i])@.len() == w by {
        assert(rows_of(rows@)[i] == rows@[i]@);
    }
    int_array2_from_rows(&rows, w)
}

} // verus!
