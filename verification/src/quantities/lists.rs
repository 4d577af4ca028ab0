//! Rows of samples that can be resized or padded out to a rectangle.
use vstd::prelude::*;
use crate::quantities::lists_or_single::{ListsOrSingle, rows_of};

verus! {

/// The length of the longest row, or zero where there is none.
pub open spec fn max_row_len<T>(rows: Seq<Seq<T>>) -> nat
    decreases rows.len(),
{
    if rows.len() == 0 {
        0
    } else {
        let m = max_row_len(rows.drop_last());
        if m < rows.last().len() { rows.last().len() } else { m }
    }
}

/// No row is longer than `max_row_len`, and where there are rows, one is
/// exactly that long.
pub proof fn lemma_max_row_len<T>(rows: Seq<Seq<T>>)
    ensures
        forall|i: int| 0 <= i < rows.len() ==> #[trigger] rows[i].len() <= max_row_len(rows),
        rows.len() == 0 ==> max_row_len(rows) == 0,
        rows.len() > 0 ==> exists|i: int| 0 <= i < rows.len() && #[trigger] rows[i].len() == max_row_len(rows),
    decreases rows.len(),
{
    if rows.len() > 0 {
        let init = rows.drop_last();
        lemma_max_row_len(init);
        assert forall|i: int| 0 <= i < rows.len() implies #[trigger] rows[i].len() <= max_row_len(rows) by {
            if i < rows.len() - 1 {
                assert(rows[i] == init[i]);
            }
        }
        if max_row_len(init) < rows.last().len() || init.len() == 0 {
            assert(rows[rows.len() - 1].len() == max_row_len(rows));
        } else {
            let k = choose|i: int| 0 <= i < init.len() && #[trigger] init[i].len() == max_row_len(init);
            assert(rows[k] == init[k]);
        }
    }
}

/// `r` is `row` cut or lengthened to `width` samples, each new sample one
/// that `fill` may give.
pub open spec fn resized_from<T, F: Fn() -> T>(r: Seq<T>, row: Seq<T>, width: int, fill: F) -> bool {
    &&& r.len() == width
    &&& forall|j: int| 0 <= j < width ==>
        if j < row.len() { #[trigger] r[j] == row[j] } else { fill.ensures((), r[j]) }
}

/// Row `i` of `rows`, or an empty row past the end.
pub open spec fn row_or_empty<T>(rows: Seq<Seq<T>>, i: int) -> Seq<T> {
    if i < rows.len() { rows[i] } else { Seq::empty() }
}

/// The row `row` cut or lengthened to `width` samples with samples from `fill`.
pub fn resize_row<T: Copy, F: Fn() -> T>(row: &[T], width: usize, fill: &F) -> (r: Vec<T>)
    requires
        fill.requires(()),
    ensures
        resized_from(r@, row@, width as int, *fill),
{
    let mut r: Vec<T> = Vec::new();
    let mut j: usize = 0;
    while j < width
        invariant
            j <= width,
            fill.requires(()),
            r@.len() == j,
            forall|k: int| 0 <= k < j ==>
                if k < row@.len() { #[trigger] r@[k] == row@[k] } else { fill.ensures((), r@[k]) },
        decreases width - j,
    {
        if j < row.len() {
            r.push(row[j]);
        } else {
            let v = fill();
            r.push(v);
        }
        j += 1;
    }
    r
}

/// The length of the longest row of `rows`.
pub fn longest_row<T>(rows: &Vec<Vec<T>>) -> (m: usize)
    ensures
        m == max_row_len(rows_of(rows@)),
{
    let mut m: usize = 0;
    let mut i: usize = 0;
    while i < rows.len()
        invariant
            i <= rows@.len(),
            m == max_row_len(rows_of(rows@).take(i as int)),
        decreases rows@.len() - i,
    {
        assert(rows_of(rows@).take(i + 1).drop_last() =~= rows_of(rows@).take(i as int));
        if m < rows[i].len() {
            m = rows[i].len();
        }
        i += 1;
    }
    assert(rows_of(rows@).take(i as int) =~= rows_of(rows@));
    m
}

/// Rows of samples that can be resized, or padded out to a rectangle.
pub trait Lists<T>: ListsOrSingle<T> {
    /// The resized container.
    type Owned: ListsOrSingle<T>;
    /// The target size: a row count, unless the row count is fixed, and a
    /// row length.
    type Size;
    /// The rectangle the rows are padded out to.
    type CoercedMatrix: ListsOrSingle<T>;

    /// The number of rows after resizing to `size`.
    spec fn target_height(&self, size: Self::Size) -> int;

    /// The length of every row after resizing to `size`.
    spec fn target_width(size: Self::Size) -> int;

    /// Cuts or lengthens the rows to the target size; new samples come from
    /// `fill`.
    fn resize_to_owned<F: Fn() -> T>(self, size: Self::Size, fill: F) -> (r: Self::Owned)
        where T: Copy, Self: Sized
        requires
            fill.requires(()),
        ensures
            r.rows().len() == self.target_height(size),
            forall|i: int| 0 <= i < self.target_height(size) ==> resized_from(
                #[trigger] r.rows()[i], row_or_empty(self.rows(), i), Self::target_width(size), fill),
    ;

    /// Pads every row out to the length of the longest row with samples from
    /// `or`.
    fn coerce_into_matrix<F: Fn() -> T>(self, or: F) -> (r: Self::CoercedMatrix)
        where T: Copy, Self: Sized
        requires
            or.requires(()),
        ensures
            r.rows().len() == self.rows().len(),
            forall|i: int| 0 <= i < self.rows().len() ==> resized_from(
                #[trigger] r.rows()[i], self.rows()[i], max_row_len(self.rows()) as int, or),
    ;
}

impl<T> Lists<T> for Vec<T> {
    type Owned = Vec<T>;
    type Size = ((), usize);
    type CoercedMatrix = Vec<T>;

    open spec fn target_height(&self, size: ((), usize)) -> int {
        1
    }

    open spec fn target_width(size: ((), usize)) -> int {
        size.1 as int
    }

    fn resize_to_owned<F: Fn() -> T>(self, size: ((), usize), fill: F) -> (r: Vec<T>)
        where T: Copy
    {
        let r = resize_row(self.as_slice(), size.1, &fill);
        assert(row_or_empty(self.rows(), 0) == self@);
        r
    }

    fn coerce_into_matrix<F: Fn() -> T>(self, or: F) -> (r: Vec<T>)
        where T: Copy
    {
        assert(self.rows().drop_last() =~= Seq::<Seq<T>>::empty());
        assert(max_row_len(self.rows().drop_last()) == 0);
        assert(max_row_len(self.rows()) == self@.len());
        self
    }
}

impl<'a, T> Lists<T> for &'a [T] {
    type Owned = Vec<T>;
    type Size = ((), usize);
    type CoercedMatrix = Vec<T>;

    open spec fn target_height(&self, size: ((), usize)) -> int {
        1
    }

    open spec fn target_width(size: ((), usize)) -> int {
        size.1 as int
    }

    fn resize_to_owned<F: Fn() -> T>(self, size: ((), usize), fill: F) -> (r: Vec<T>)
        where T: Copy
    {
        let r = resize_row(self, size.1, &fill);
        assert(row_or_empty(self.rows(), 0) == self@);
        r
    }

    fn coerce_into_matrix<F: Fn() -> T>(self, or: F) -> (r: Vec<T>)
        where T: Copy
    {
        assert(self.rows().drop_last() =~= Seq::<Seq<T>>::empty());
        assert(max_row_len(self.rows().drop_last()) == 0);
        assert(max_row_len(self.rows()) == self@.len());
        let r = resize_row(self, self.len(), &or);
        assert(r@ =~= self@);
        r
    }
}

impl<T> Lists<T> for Vec<Vec<T>> {
    type Owned = Vec<Vec<T>>;
    type Size = (usize, usize);
    type CoercedMatrix = Vec<Vec<T>>;

    open spec fn target_height(&self, size: (usize, usize)) -> int {
        size.0 as int
    }

    open spec fn target_width(size: (usize, usize)) -> int {
        size.1 as int
    }

    fn resize_to_owned<F: Fn() -> T>(self, size: (usize, usize), fill: F) -> (r: Vec<Vec<T>>)
        where T: Copy
    {
        let empty: Vec<T> = Vec::new();
        let mut r: Vec<Vec<T>> = Vec::new();
        let mut i: usize = 0;
        while i < size.0
            invariant
                i <= size.0,
                fill.requires(()),
                empty@.len() == 0,
                r@.len() == i,
                forall|k: int| 0 <= k < i ==> resized_from(
                    #[trigger] r@[k]@, row_or_empty(rows_of(self@), k), size.1 as int, fill),
            decreases size.0 - i,
        {
            let row: &[T] = if i < self.len() { self[i].as_slice() } else { empty.as_slice() };
            assert(row@ == row_or_empty(rows_of(self@), i as int));
            r.push(resize_row(row, size.1, &fill));
            i += 1;
        }
        assert forall|k: int| 0 <= k < size.0 implies resized_from(
            #[trigger] ListsOrSingle::<T>::rows(&r)[k], row_or_empty(ListsOrSingle::<T>::rows(&self), k),
            size.1 as int, fill) by {
            assert(ListsOrSingle::<T>::rows(&r)[k] == r@[k]@);
        }
        r
    }

    fn coerce_into_matrix<F: Fn() -> T>(self, or: F) -> (r: Vec<Vec<T>>)
        where T: Copy
    {
        let width: usize = longest_row(&self);
        let mut r: Vec<Vec<T>> = Vec::new();
        let mut i: usize = 0;
        while i < self.len()
            invariant
                i <= self@.len(),
                or.requires(()),
                width == max_row_len(rows_of(self@)),
                r@.len() == i,
                forall|k: int| 0 <= k < i ==> resized_from(
                    #[trigger] r@[k]@, self@[k]@, width as int, or),
            decreases self@.len() - i,
        {
            r.push(resize_row(self[i].as_slice(), width, &or));
            i += 1;
        }
        assert forall|k: int| 0 <= k < self@.len() implies resized_from(
            #[trigger] ListsOrSingle::<T>::rows(&r)[k], ListsOrSingle::<T>::rows(&self)[k],
            max_row_len(ListsOrSingle::<T>::rows(&self)) as int, or) by {
            assert(ListsOrSingle::<T>::rows(&r)[k] == r@[k]@);
            assert(ListsOrSingle::<T>::rows(&self)[k] == self@[k]@);
        }
        r
    }
}

} // verus!
