//! Matrices of the discrete sine transforms (types I to IV), given exactly.
//!
//! Every entry is `± sqrt(scale_num / scale_den) * sin(pi * arg_num / arg_den)`;
//! the library fixes these integers, and evaluating the entry is left to
//! floating-point code.
use vstd::prelude::*;

verus! {

/// One entry of a sine-transform matrix:
/// `(if negative { -1 } else { 1 }) * sqrt(scale_num / scale_den) * sin(pi * arg_num / arg_den)`.
#[derive(Clone, Copy, Debug, PartialEq, Eq, Structural)]
pub struct DstEntry {
    pub negative: bool,
    pub scale_num: u128,
    pub scale_den: u128,
    pub arg_num: u128,
    pub arg_den: u128,
}

/// Entry `(i, j)` of the orthonormal DST-I matrix of size `n`:
/// `sqrt(2 / (n + 1)) * sin(pi (i + 1)(j + 1) / (n + 1))`.
pub open spec fn dst_i_entry(n: int, i: int, j: int) -> DstEntry {
    DstEntry {
        negative: false,
        scale_num: 2,
        scale_den: (n + 1) as u128,
        arg_num: ((i + 1) * (j + 1)) as u128,
        arg_den: (n + 1) as u128,
    }
}

/// Entry `(i, j)` of the orthonormal DST-II matrix of size `n`:
/// `s_i * sin(pi (2j + 1)(i + 1) / (2n))` with `s_i = sqrt(2 / n)`, and `sqrt(1 / n)` on the last row.
pub open spec fn dst_ii_entry(n: int, i: int, j: int) -> DstEntry {
    DstEntry {
        negative: false,
        scale_num: if i == n - 1 { 1 } else { 2 },
        scale_den: n as u128,
        arg_num: ((2 * j + 1) * (i + 1)) as u128,
        arg_den: (2 * n) as u128,
    }
}

/// Entry `(i, j)` of the orthonormal DST-III matrix of size `n`:
/// `sqrt(2 / n) * sin(pi (2i + 1)(j + 1) / (2n))`, and `± sqrt(1 / n)` in the last
/// column, negative on odd rows.
pub open spec fn dst_iii_entry(n: int, i: int, j: int) -> DstEntry {
    if j == n - 1 {
        DstEntry { negative: i % 2 == 1, scale_num: 1, scale_den: n as u128, arg_num: 1, arg_den: 2 }
    } else {
        DstEntry {
            negative: false,
            scale_num: 2,
            scale_den: n as u128,
            arg_num: ((2 * i + 1) * (j + 1)) as u128,
            arg_den: (2 * n) as u128,
        }
    }
}

/// Entry `(i, j)` of the orthonormal DST-IV matrix of size `n`:
/// `sqrt(2 / n) * sin(pi (2i + 1)(2j + 1) / (4n))`.
pub open spec fn dst_iv_entry(n: int, i: int, j: int) -> DstEntry {
    DstEntry {
        negative: false,
        scale_num: 2,
        scale_den: n as u128,
        arg_num: ((2 * i + 1) * (2 * j + 1)) as u128,
        arg_den: (4 * n) as u128,
    }
}

/// The four kinds of matrix.
pub open spec fn dst_entry(kind: int, n: int, i: int, j: int) -> DstEntry {
    if kind == 1 {
        dst_i_entry(n, i, j)
    } else if kind == 2 {
        dst_ii_entry(n, i, j)
    } else if kind == 3 {
        dst_iii_entry(n, i, j)
    } else {
        dst_iv_entry(n, i, j)
    }
}

/// Whether `m` is the `n`-by-`n` matrix of the given kind.
pub open spec fn is_dst_matrix(m: Seq<Seq<DstEntry>>, kind: int, n: int) -> bool {
    &&& m.len() == n
    &&& forall|i: int| 0 <= i < n ==> #[trigger] m[i].len() == n
    &&& forall|i: int, j: int| 0 <= i < n && 0 <= j < n ==> #[trigger] m[i][j] == dst_entry(kind, n, i, j)
}

/// Computes entry `(i, j)` of the matrix of the given kind.
fn dst_entry_exec(kind: u8, n: usize, i: usize, j: usize) -> (e: DstEntry)
    requires
        1 <= kind <= 4,
        n <= u32::MAX,
        i < n,
        j < n,
    ensures
        e == dst_entry(kind as int, n as int, i as int, j as int),
{
    let n2 = n as u128;
    let i2 = i as u128;
    let j2 = j as u128;
    assert((2 * i2 + 1) * (2 * j2 + 1) <= 4 * 4294967296u128 * 4294967296u128) by (nonlinear_arith)
        requires i2 < 4294967296u128, j2 < 4294967296u128;
    assert((i2 + 1) * (j2 + 1) <= 4294967296u128 * 4294967296u128) by (nonlinear_arith)
        requires i2 < 4294967296u128, j2 < 4294967296u128;
    assert((2 * j2 + 1) * (i2 + 1) <= 2 * 4294967296u128 * 4294967296u128) by (nonlinear_arith)
        requires i2 < 4294967296u128, j2 < 4294967296u128;
    assert((2 * i2 + 1) * (j2 + 1) <= 2 * 4294967296u128 * 4294967296u128) by (nonlinear_arith)
        requires i2 < 4294967296u128, j2 < 4294967296u128;
    if kind == 1 {
        DstEntry { negative: false, scale_num: 2, scale_den: n2 + 1, arg_num: (i2 + 1) * (j2 + 1), arg_den: n2 + 1 }
    } else if kind == 2 {
        DstEntry {
            negative: false,
            scale_num: if i + 1 == n { 1 } else { 2 },
            scale_den: n2,
            arg_num: (2 * j2 + 1) * (i2 + 1),
            arg_den: 2 * n2,
        }
    } else if kind == 3 {
        if j + 1 == n {
            DstEntry { negative: i % 2 == 1, scale_num: 1, scale_den: n2, arg_num: 1, arg_den: 2 }
        } else {
            DstEntry { negative: false, scale_num: 2, scale_den: n2, arg_num: (2 * i2 + 1) * (j2 + 1), arg_den: 2 * n2 }
        }
    } else {
        DstEntry { negative: false, scale_num: 2, scale_den: n2, arg_num: (2 * i2 + 1) * (2 * j2 + 1), arg_den: 4 * n2 }
    }
}

/// The `n`-by-`n` matrix of the given kind, as rows.
fn dst_matrix_rows(kind: u8, n: usize) -> (m: Vec<Vec<DstEntry>>)
    requires
        1 <= kind <= 4,
        n <= u32::MAX,
    ensures
        is_dst_matrix(Seq::new(m@.len(), |i: int| m@[i]@), kind as int, n as int),
{
    let mut m: Vec<Vec<DstEntry>> = Vec::new();
    let mut i: usize = 0;
    while i < n
        invariant
            1 <= kind <= 4,
            n <= u32::MAX,
            i <= n,
            m@.len() == i,
            forall|r: int| 0 <= r < i ==> #[trigger] m@[r]@.len() == n,
            forall|r: int, c: int| 0 <= r < i && 0 <= c < n ==> #[trigger] m@[r]@[c] == dst_entry(kind as int, n as int, r, c),
        decreases n - i,
    {
        let mut row: Vec<DstEntry> = Vec::new();
        let mut j: usize = 0;
        while j < n
            invariant
                1 <= kind <= 4,
                n <= u32::MAX,
                i < n,
                j <= n,
                row@.len() == j,
                forall|c: int| 0 <= c < j ==> #[trigger] row@[c] == dst_entry(kind as int, n as int, i as int, c),
            decreases n - j,
        {
            row.push(dst_entry_exec(kind, n, i, j));
            j += 1;
        }
        m.push(row);
        i += 1;
    }
    m
}

/// The `N`-by-`N` matrix of the given kind, as an array.
fn dst_matrix_array<const N: usize>(kind: u8) -> (m: [[DstEntry; N]; N])
    requires
        1 <= kind <= 4,
        N <= u32::MAX,
    ensures
        is_dst_matrix(Seq::new(N as nat, |i: int| m@[i]@), kind as int, N as int),
{
    let blank = DstEntry { negative: false, scale_num: 0, scale_den: 0, arg_num: 0, arg_den: 0 };
    let blank_row: [DstEntry; N] = [blank; N];
    let mut m: [[DstEntry; N]; N] = [blank_row; N];
    let mut i: usize = 0;
    while i < N
        invariant
            1 <= kind <= 4,
            N <= u32::MAX,
            i <= N,
            forall|r: int, c: int| 0 <= r < i && 0 <= c < N ==> #[trigger] m@[r]@[c] == dst_entry(kind as int, N as int, r, c),
        decreases N - i,
    {
        let mut row: [DstEntry; N] = blank_row;
        let mut j: usize = 0;
        while j < N
            invariant
                1 <= kind <= 4,
                N <= u32::MAX,
                i < N,
                j <= N,
                forall|c: int| 0 <= c < j ==> #[trigger] row@[c] == dst_entry(kind as int, N as int, i as int, c),
            decreases N - j,
        {
            row[j] = dst_entry_exec(kind, N, i, j);
            j += 1;
        }
        m[i] = row;
        i += 1;
    }
    m
}

/// Square matrices of the discrete sine transforms.
pub trait DstMatrix<T, N>: Sized {
    /// Sizes for which the matrices can be built.
    spec fn dst_size_ok(n: N) -> bool;

    /// Whether `m` is the matrix of the given kind (1 to 4) for the size `n`.
    spec fn dst_matrix_is(m: Self, kind: int, n: N) -> bool;

    /// The orthonormal DST-I matrix.
    fn dst_i_matrix(n: N) -> (m: Self)
        requires
            Self::dst_size_ok(n),
        ensures
            Self::dst_matrix_is(m, 1, n);

    /// The orthonormal DST-II matrix.
    fn dst_ii_matrix(n: N) -> (m: Self)
        requires
            Self::dst_size_ok(n),
        ensures
            Self::dst_matrix_is(m, 2, n);

    /// The orthonormal DST-III matrix.
    fn dst_iii_matrix(n: N) -> (m: Self)
        requires
            Self::dst_size_ok(n),
        ensures
            Self::dst_matrix_is(m, 3, n);

    /// The orthonormal DST-IV matrix.
    fn dst_iv_matrix(n: N) -> (m: Self)
        requires
            Self::dst_size_ok(n),
        ensures
            Self::dst_matrix_is(m, 4, n);
}

impl<const N: usize> DstMatrix<DstEntry, ()> for [[DstEntry; N]; N] {
    open spec fn dst_size_ok(n: ()) -> bool {
        N <= u32::MAX
    }

    open spec fn dst_matrix_is(m: Self, kind: int, n: ()) -> bool {
        is_dst_matrix(Seq::new(N as nat, |i: int| m@[i]@), kind, N as int)
    }

    fn dst_i_matrix(n: ()) -> (m: Self) {
        dst_matrix_array(1)
    }

    fn dst_ii_matrix(n: ()) -> (m: Self) {
        dst_matrix_array(2)
    }

    fn dst_iii_matrix(n: ()) -> (m: Self) {
        dst_matrix_array(3)
    }

    fn dst_iv_matrix(n: ()) -> (m: Self) {
        dst_matrix_array(4)
    }
}

impl DstMatrix<DstEntry, usize> for Vec<Vec<DstEntry>> {
    open spec fn dst_size_ok(n: usize) -> bool {
        n <= u32::MAX
    }

    open spec fn dst_matrix_is(m: Self, kind: int, n: usize) -> bool {
        is_dst_matrix(Seq::new(m@.len(), |i: int| m@[i]@), kind, n as int)
    }

    fn dst_i_matrix(n: usize) -> (m: Self) {
        dst_matrix_rows(1, n)
    }

    fn dst_ii_matrix(n: usize) -> (m: Self) {
        dst_matrix_rows(2, n)
    }

    fn dst_iii_matrix(n: usize) -> (m: Self) {
        dst_matrix_rows(3, n)
    }

    fn dst_iv_matrix(n: usize) -> (m: Self) {
        dst_matrix_rows(4, n)
    }
}

/// Law: the DST-I matrix is symmetric.
pub proof fn lemma_dst_i_symmetric(n: int, i: int, j: int)
    ensures
        dst_i_entry(n, i, j) == dst_i_entry(n, j, i),
{
    assert((i + 1) * (j + 1) == (j + 1) * (i + 1)) by (nonlinear_arith);
}

/// Law: the DST-IV matrix is symmetric.
pub proof fn lemma_dst_iv_symmetric(n: int, i: int, j: int)
    ensures
        dst_iv_entry(n, i, j) == dst_iv_entry(n, j, i),
{
    assert((2 * i + 1) * (2 * j + 1) == (2 * j + 1) * (2 * i + 1)) by (nonlinear_arith);
}

/// Law: the DST-III matrix is the transpose of the DST-II matrix, entry for entry,
/// outside the last column of DST-III (where both hold `± sqrt(1 / n)`).
pub proof fn lemma_dst_iii_transposes_ii(n: int, i: int, j: int)
    requires
        0 <= i < n,
        0 <= j < n - 1,
    ensures
        dst_iii_entry(n, i, j) == dst_ii_entry(n, j, i),
{
    assert((2 * i + 1) * (j + 1) == (2 * i + 1) * (j + 1));
}

/// The entry is `sqrt(scale) · sin(π p / q)`, not negated: its sine argument
/// is the fraction `p / q`.
pub open spec fn sine_of(e: DstEntry, p: int, q: int) -> bool {
    &&& q > 0
    &&& e.arg_den > 0
    &&& e.arg_num * q == p * e.arg_den
    &&& !e.negative
}

/// The number under the entry's square root is the fraction `c / d`.
pub open spec fn scale_of(e: DstEntry, c: int, d: int) -> bool {
    &&& d > 0
    &&& e.scale_den > 0
    &&& e.scale_num * d == c * e.scale_den
}

/// The entry's value is positive: nothing negates it, its scale is positive,
/// and its sine argument lies strictly between `0` and `π`.
pub open spec fn positive_entry(e: DstEntry) -> bool {
    &&& !e.negative
    &&& e.scale_num > 0
    &&& e.scale_den > 0
    &&& 0 < e.arg_num < e.arg_den
}

/// The products of indices in the sine arguments are positive and well below
/// `2^128`.
proof fn lemma_index_products(n: int, i: int, j: int)
    requires
        1 <= n <= u32::MAX,
        0 <= i < n,
        0 <= j < n,
    ensures
        0 < (i + 1) * (j + 1) < 0x1_0000_0000_0000_0000_0000,
        0 < (2 * j + 1) * (i + 1) < 0x1_0000_0000_0000_0000_0000,
        0 < (2 * i + 1) * (j + 1) < 0x1_0000_0000_0000_0000_0000,
        0 < (2 * i + 1) * (2 * j + 1) < 0x1_0000_0000_0000_0000_0000,
{
    assert(0 < (i + 1) * (j + 1) < 0x1_0000_0000_0000_0000_0000) by (nonlinear_arith)
        requires 0 <= i < n, 0 <= j < n, n <= 0xffff_ffff;
    assert(0 < (2 * j + 1) * (i + 1) < 0x1_0000_0000_0000_0000_0000) by (nonlinear_arith)
        requires 0 <= i < n, 0 <= j < n, n <= 0xffff_ffff;
    assert(0 < (2 * i + 1) * (j + 1) < 0x1_0000_0000_0000_0000_0000) by (nonlinear_arith)
        requires 0 <= i < n, 0 <= j < n, n <= 0xffff_ffff;
    assert(0 < (2 * i + 1) * (2 * j + 1) < 0x1_0000_0000_0000_0000_0000) by (nonlinear_arith)
        requires 0 <= i < n, 0 <= j < n, n <= 0xffff_ffff;
}

/// Law: every entry is the transform's defining formula, with sizes up to
/// `u32::MAX`:
/// - DST-I: `sqrt(2 / (n + 1)) · sin(π (i + 1)(j + 1) / (n + 1))`;
/// - DST-II: `sqrt(2 / n) · sin(π (2j + 1)(i + 1) / (2n))`, with `sqrt(1 / n)`
///   on the last row;
/// - DST-III: `sqrt(2 / n) · sin(π (2i + 1)(j + 1) / (2n))`, and in the last
///   column `± sqrt(1 / n)` (that is `sqrt(1 / n) · sin(π / 2)`), negative on odd
///   rows;
/// - DST-IV: `sqrt(2 / n) · sin(π (2i + 1)(2j + 1) / (4n))`.
pub proof fn lemma_dst_formulas(n: int, i: int, j: int)
    requires
        1 <= n <= u32::MAX,
        0 <= i < n,
        0 <= j < n,
    ensures
        sine_of(dst_entry(1, n, i, j), (i + 1) * (j + 1), n + 1),
        scale_of(dst_entry(1, n, i, j), 2, n + 1),
        sine_of(dst_entry(2, n, i, j), (2 * j + 1) * (i + 1), 2 * n),
        scale_of(dst_entry(2, n, i, j), if i == n - 1 { 1 } else { 2 }, n),
        j < n - 1 ==> sine_of(dst_entry(3, n, i, j), (2 * i + 1) * (j + 1), 2 * n),
        j < n - 1 ==> scale_of(dst_entry(3, n, i, j), 2, n),
        j == n - 1 ==> scale_of(dst_entry(3, n, i, j), 1, n)
            && dst_entry(3, n, i, j).arg_num * 2 == dst_entry(3, n, i, j).arg_den
            && dst_entry(3, n, i, j).negative == (i % 2 == 1),
        sine_of(dst_entry(4, n, i, j), (2 * i + 1) * (2 * j + 1), 4 * n),
        scale_of(dst_entry(4, n, i, j), 2, n),
{
    lemma_index_products(n, i, j);
    let e2 = dst_entry(2, n, i, j);
    assert(e2.arg_num == (2 * j + 1) * (i + 1) && e2.arg_den == 2 * n);
    assert(e2.arg_num * (2 * n) == ((2 * j + 1) * (i + 1)) * e2.arg_den);
    if j < n - 1 {
        let e3 = dst_entry(3, n, i, j);
        assert(e3.arg_num == (2 * i + 1) * (j + 1) && e3.arg_den == 2 * n);
        assert(e3.arg_num * (2 * n) == ((2 * i + 1) * (j + 1)) * e3.arg_den);
    }
}

/// Law: a DST-II entry whose sine argument `π (2j + 1)(i + 1) / (2n)` lies
/// below `π` is positive; so the whole first row of DST-II, and the whole first
/// column of DST-III, is positive.
pub proof fn lemma_dst_positive_entries(n: int, i: int, j: int)
    requires
        1 <= n <= u32::MAX,
        0 <= i < n,
        0 <= j < n,
    ensures
        (2 * j + 1) * (i + 1) < 2 * n ==> positive_entry(dst_entry(2, n, i, j)),
        positive_entry(dst_entry(2, n, 0, j)),
        positive_entry(dst_entry(3, n, j, 0)),
{
    lemma_index_products(n, i, j);
    lemma_index_products(n, 0, j);
    lemma_index_products(n, j, 0);
}

} // verus!
