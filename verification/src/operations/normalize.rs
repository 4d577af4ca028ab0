//! Bringing a system to its normal form; for a state-space system, giving
//! its four matrices agreeing sizes.
use vstd::prelude::*;
use crate::operations::filter_mut::max_len;
use crate::quantities::array2::{IntArray2, int_array2_from_rows, int_array2_rows, int_array2_width, nonzero_size};
use crate::quantities::lists_or_single::{ListsOrSingle, rows_of};
use crate::quantities::matrix::Matrix;

verus! {

/// Systems that have a normal form.
pub trait Normalize: Sized {
    /// The system in its normal form.
    type Output;

    /// Whether the normal form can be formed.
    spec fn normalizable(&self) -> bool;

    /// The system in its normal form.
    fn normalize(self) -> Self::Output
        requires
            self.normalizable();
}

/// A state-space system `x' = A x + B u`, `y = C x + D u`.
pub struct Ss {
    pub a: IntArray2,
    pub b: IntArray2,
    pub c: IntArray2,
    pub d: IntArray2,
}

/// The number of rows of an array.
pub open spec fn height(m: IntArray2) -> int {
    int_array2_rows(m).len() as int
}

/// The number of columns of an array.
pub open spec fn width(m: IntArray2) -> int {
    int_array2_width(m) as int
}

/// The rows `m` of `w` columns, lengthened with rows of zeros to at least
/// `rows` rows and with zeros to at least `cols` columns.
pub open spec fn padded(m: Seq<Seq<i64>>, w: int, rows: int, cols: int) -> Seq<Seq<i64>> {
    let h2 = max_len(m.len() as int, rows);
    let w2 = max_len(w, cols);
    Seq::new(h2 as nat, |i: int| Seq::new(w2 as nat, |j: int| if i < m.len() && j < w { m[i][j] } else { 0i64 }))
}

/// The array `m` lengthened with zeros to at least `rows` rows and `cols`
/// columns; it is never cut.
pub fn pad_with_zeros(m: &IntArray2, rows: usize, cols: usize) -> (r: IntArray2)
    requires
        nonzero_size(max_len(height(*m), rows as int), max_len(width(*m), cols as int)) <= isize::MAX,
    ensures
        int_array2_rows(r) == padded(int_array2_rows(*m), width(*m), rows as int, cols as int),
        width(r) == max_len(width(*m), cols as int),
{
    let (h, w) = m.matrix_dim();
    let src: Vec<Vec<i64>> = m.to_vecs();
    assert(rows_of(src@) == int_array2_rows(*m));
    let h2: usize = if h < rows { rows } else { h };
    let w2: usize = if w < cols { cols } else { w };
    let ghost target = padded(int_array2_rows(*m), w as int, rows as int, cols as int);
    let mut out: Vec<Vec<i64>> = Vec::new();
    let mut i: usize = 0;
    while i < h2
        invariant
            h == int_array2_rows(*m).len(),
            w == width(*m),
            forall|k: int| 0 <= k < h ==> (#[trigger] int_array2_rows(*m)[k]).len() == w,
            rows_of(src@) == int_array2_rows(*m),
            target == padded(int_array2_rows(*m), w as int, rows as int, cols as int),
            h2 == max_len(h as int, rows as int),
            w2 == max_len(w as int, cols as int),
            i <= h2,
            out@.len() == i,
            forall|k: int| 0 <= k < i ==> (#[trigger] out@[k])@ == target[k],
        decreases h2 - i,
    {
        let mut row: Vec<i64> = Vec::new();
        let mut j: usize = 0;
        while j < w2
            invariant
                h == int_array2_rows(*m).len(),
                w == width(*m),
                forall|k: int| 0 <= k < h ==> (#[trigger] int_array2_rows(*m)[k]).len() == w,
                rows_of(src@) == int_array2_rows(*m),
                target == padded(int_array2_rows(*m), w as int, rows as int, cols as int),
                h2 == max_len(h as int, rows as int),
                w2 == max_len(w as int, cols as int),
                i < h2,
                j <= w2,
                row@ == target[i as int].subrange(0, j as int),
            decreases w2 - j,
        {
            let v: i64 = if i < h && j < w {
                assert(rows_of(src@)[i as int] == src@[i as int]@);
                src[i][j]
            } else {
                0
            };
            row.push(v);
            j += 1;
            assert(row@ =~= target[i as int].subrange(0, j as int));
        }
        assert(row@ =~= target[i as int]);
        out.push(row);
        i += 1;
    }
    assert(rows_of(out@) =~= target);
    int_array2_from_rows(&out, w2)
}

/// Every row of `m` has its column count.
pub open spec fn rectangular(m: IntArray2) -> bool {
    forall|i: int| 0 <= i < height(m) ==> (#[trigger] int_array2_rows(m)[i]).len() == width(m)
}

/// Padding to no more rows and columns than `m` already has gives `m` back.
proof fn lemma_pad_own_size(m: IntArray2, rows: int, cols: int)
    requires
        rectangular(m),
        rows == height(m),
        cols == width(m),
    ensures
        padded(int_array2_rows(m), width(m), rows, cols) == int_array2_rows(m),
{
    let p = padded(int_array2_rows(m), width(m), rows, cols);
    assert forall|i: int| 0 <= i < height(m) implies #[trigger] p[i] == int_array2_rows(m)[i] by {
        assert(p[i] =~= int_array2_rows(m)[i]);
    }
    assert(p =~= int_array2_rows(m));
}

/// Law: a state-space system whose matrices already agree in size (`A` of
/// `p` by `p`, `B` of `p` by `q`, `C` of `r` by `p`, `D` of `r` by `q`) has
/// `p` states, `q` inputs and `r` outputs, and is its own normal form: each
/// matrix comes back unchanged. The state count does not depend on the rows
/// of `C` or `D`.
pub proof fn lemma_normalize_consistent_unchanged(s: Ss)
    requires
        rectangular(s.a),
        rectangular(s.b),
        rectangular(s.c),
        rectangular(s.d),
        width(s.a) == height(s.a),
        height(s.b) == height(s.a),
        width(s.c) == height(s.a),
        height(s.d) == height(s.c),
        width(s.d) == width(s.b),
    ensures
        state_count(s) == height(s.a),
        input_count(s) == width(s.b),
        output_count(s) == height(s.c),
        padded(int_array2_rows(s.a), width(s.a), state_count(s), state_count(s)) == int_array2_rows(s.a),
        padded(int_array2_rows(s.b), width(s.b), state_count(s), input_count(s)) == int_array2_rows(s.b),
        padded(int_array2_rows(s.c), width(s.c), output_count(s), state_count(s)) == int_array2_rows(s.c),
        padded(int_array2_rows(s.d), width(s.d), output_count(s), input_count(s)) == int_array2_rows(s.d),
{
    assert(state_count(s) == height(s.a));
    lemma_pad_own_size(s.a, height(s.a), width(s.a));
    lemma_pad_own_size(s.b, height(s.b), width(s.b));
    lemma_pad_own_size(s.c, height(s.c), width(s.c));
    lemma_pad_own_size(s.d, height(s.d), width(s.d));
}

/// Law: padding keeps every entry of the matrix in its place and adds only
/// zeros; it never cuts the matrix.
pub proof fn lemma_padded_keeps_entries(m: Seq<Seq<i64>>, w: int, rows: int, cols: int)
    requires
        0 <= w,
        forall|i: int| 0 <= i < m.len() ==> (#[trigger] m[i]).len() == w,
    ensures
        padded(m, w, rows, cols).len() >= m.len(),
        padded(m, w, rows, cols).len() >= rows,
        forall|i: int| 0 <= i < padded(m, w, rows, cols).len() ==> (#[trigger] padded(m, w, rows, cols)[i]).len() >= w
            && padded(m, w, rows, cols)[i].len() >= cols,
        forall|i: int, j: int| 0 <= i < m.len() && 0 <= j < w ==> #[trigger] padded(m, w, rows, cols)[i][j] == m[i][j],
        forall|i: int, j: int| 0 <= i < padded(m, w, rows, cols).len() && 0 <= j < padded(m, w, rows, cols)[i].len()
            && !(i < m.len() && j < w) ==> #[trigger] padded(m, w, rows, cols)[i][j] == 0,
{
}

/// The state count of the system: the most rows or columns of `A`, rows of
/// `B` and columns of `C`.
pub open spec fn state_count(s: Ss) -> int {
    max_len(max_len(max_len(height(s.a), width(s.a)), height(s.b)), width(s.c))
}

/// The input count of the system: the most columns of `B` and `D`.
pub open spec fn input_count(s: Ss) -> int {
    max_len(width(s.b), width(s.d))
}

/// The output count of the system: the most rows of `C` and `D`.
pub open spec fn output_count(s: Ss) -> int {
    max_len(height(s.c), height(s.d))
}

impl Normalize for Ss {
    type Output = Ss;

    /// Every padded matrix can be held.
    open spec fn normalizable(&self) -> bool {
        let (p, q, r) = (state_count(*self), input_count(*self), output_count(*self));
        &&& nonzero_size(p, p) <= isize::MAX
        &&& nonzero_size(p, q) <= isize::MAX
        &&& nonzero_size(r, p) <= isize::MAX
        &&& nonzero_size(r, q) <= isize::MAX
    }

    /// `A` lengthened with zeros to `p` by `p`, `B` to `p` by `q`, `C` to `r`
    /// by `p` and `D` to `r` by `q`, with `p` the state count, `q` the input
    /// count and `r` the output count.
    fn normalize(self) -> (n: Ss)
        ensures
            ({
                let (p, q, r) = (state_count(self), input_count(self), output_count(self));
                &&& int_array2_rows(n.a) == padded(int_array2_rows(self.a), width(self.a), p, p)
                &&& int_array2_rows(n.b) == padded(int_array2_rows(self.b), width(self.b), p, q)
                &&& int_array2_rows(n.c) == padded(int_array2_rows(self.c), width(self.c), r, p)
                &&& int_array2_rows(n.d) == padded(int_array2_rows(self.d), width(self.d), r, q)
                &&& height(n.a) == p && width(n.a) == p
                &&& height(n.b) == p && width(n.b) == q
                &&& height(n.c) == r && width(n.c) == p
                &&& height(n.d) == r && width(n.d) == q
            }),
    {
        let (ma, na) = self.a.matrix_dim();
        let (mb, nb) = self.b.matrix_dim();
        let (mc, nc) = self.c.matrix_dim();
        let (md, nd) = self.d.matrix_dim();
        let p1: usize = if ma < na { na } else { ma };
        let p2: usize = if p1 < mb { mb } else { p1 };
        let p: usize = if p2 < nc { nc } else { p2 };
        let q: usize = if nb < nd { nd } else { nb };
        let r: usize = if mc < md { md } else { mc };
        let a = pad_with_zeros(&self.a, p, p);
        let b = pad_with_zeros(&self.b, p, q);
        let c = pad_with_zeros(&self.c, r, p);
        let d = pad_with_zeros(&self.d, r, q);
        Ss { a, b, c, d }
    }
}

} // verus!
