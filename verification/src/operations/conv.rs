//! Direct (full) convolution of integer sequences.
use vstd::prelude::*;
use crate::arith::{conv, conv_coef, conv_fits, conv_step_fits, conv_hi, conv_len, conv_lo, conv_sum, in_i64, ints};

verus! {

/// Full convolution `y[k] = Σ_j a[k - j] * b[j]`, of length `a.len() + b.len() - 1`
/// (or zero when both are empty), each coefficient accumulated in increasing `j`.
pub fn convolve_direct(a: &[i64], b: &[i64]) -> (y: Vec<i64>)
    requires
        a@.len() + b@.len() <= usize::MAX,
        conv_fits(ints(a@), ints(b@)),
    ensures
        ints(y@) == conv(ints(a@), ints(b@)),
{
    let ghost ai = ints(a@);
    let ghost bi = ints(b@);
    let n = a.len();
    let m = b.len();
    let y_len: usize = if n == 0 && m == 0 {
        0
    } else {
        if n >= 1 { (n - 1) + m } else { m - 1 }
    };
    let mut y: Vec<i64> = Vec::new();
    let mut k: usize = 0;
    while k < y_len
        invariant
            ai == ints(a@),
            bi == ints(b@),
            n == a@.len(),
            m == b@.len(),
            y_len == conv_len(n as int, m as int),
            conv_fits(ai, bi),
            k <= y_len,
            y@.len() == k,
            forall|i: int| 0 <= i < k ==> y@[i] as int == conv_coef(ai, bi, i),
        decreases y_len - k,
    {
        let lo: usize = if k + 1 > n { k + 1 - n } else { 0 };
        let hi: usize = if m < k + 1 { m } else { k + 1 };
        let mut acc: i64 = 0;
        let mut j: usize = lo;
        while j < hi
            invariant
                ai == ints(a@),
                bi == ints(b@),
                n == a@.len(),
                m == b@.len(),
                k < y_len,
                y_len == conv_len(n as int, m as int),
                conv_fits(ai, bi),
                lo == conv_lo(n as int, k as int),
                hi == conv_hi(m as int, k as int),
                lo <= j <= hi,
                acc as int == conv_sum(ai, bi, k as int, lo as int, j as int),
            decreases hi - j,
        {
            assert(conv_step_fits(ai, bi, k as int, j as int));
            let p = a[k - j] * b[j];
            acc = acc + p;
            j += 1;
        }
        y.push(acc);
        k += 1;
    }
    assert(ints(y@) =~= conv(ai, bi));
    y
}

/// The direct convolution of `a` and `b`, where every product and running
/// sum it forms fits in an `i64`; `None` where one would not fit.
pub fn convolve_checked(a: &[i64], b: &[i64]) -> (y: Option<Vec<i64>>)
    requires
        a@.len() + b@.len() <= usize::MAX,
    ensures
        y is Some <==> conv_fits(ints(a@), ints(b@)),
        y is Some ==> ints(y->0@) == conv(ints(a@), ints(b@)),
{
    let ghost ai = ints(a@);
    let ghost bi = ints(b@);
    let n = a.len();
    let m = b.len();
    let y_len: usize = if n == 0 && m == 0 {
        0
    } else {
        if n >= 1 { (n - 1) + m } else { m - 1 }
    };
    let mut y: Vec<i64> = Vec::new();
    let mut k: usize = 0;
    while k < y_len
        invariant
            y@.len() == k,
            forall|i: int| 0 <= i < k ==> y@[i] as int == conv_coef(ai, bi, i),
            ai == ints(a@),
            bi == ints(b@),
            n == a@.len(),
            m == b@.len(),
            y_len == conv_len(n as int, m as int),
            k <= y_len,
            forall|k2: int, j: int| 0 <= k2 < k && conv_lo(n as int, k2) <= j < conv_hi(m as int, k2)
                ==> #[trigger] conv_step_fits(ai, bi, k2, j),
        decreases y_len - k,
    {
        let lo: usize = if k + 1 > n { k + 1 - n } else { 0 };
        let hi: usize = if m < k + 1 { m } else { k + 1 };
        let mut acc: i64 = 0;
        let mut j: usize = lo;
        while j < hi
            invariant
                ai == ints(a@),
                bi == ints(b@),
                n == a@.len(),
                m == b@.len(),
                k < y_len,
                y_len == conv_len(n as int, m as int),
                lo == conv_lo(n as int, k as int),
                hi == conv_hi(m as int, k as int),
                lo <= j <= hi,
                acc as int == conv_sum(ai, bi, k as int, lo as int, j as int),
                forall|k2: int, j2: int| 0 <= k2 < k && conv_lo(n as int, k2) <= j2 < conv_hi(m as int, k2)
                    ==> #[trigger] conv_step_fits(ai, bi, k2, j2),
                forall|j2: int| lo <= j2 < j ==> #[trigger] conv_step_fits(ai, bi, k as int, j2),
            decreases hi - j,
        {
            let p: i64 = match a[k - j].checked_mul(b[j]) {
                Some(p) => p,
                None => {
                    assert(!conv_step_fits(ai, bi, k as int, j as int));
                    return None;
                },
            };
            acc = match acc.checked_add(p) {
                Some(v) => v,
                None => {
                    assert(!conv_step_fits(ai, bi, k as int, j as int));
                    return None;
                },
            };
            j += 1;
        }
        y.push(acc);
        k += 1;
    }
    assert(conv_fits(ai, bi));
    assert(ints(y@) =~= conv(ai, bi));
    Some(y)
}

/// Sequences that can be convolved with `Rhs`.
pub trait Conv<T1, T2, Rhs>: Sized {
    /// The element type of the result.
    type OutputT;
    /// The result.
    type Output;

    /// Inputs whose convolution can be computed.
    spec fn conv_requires(self, rhs: Rhs) -> bool;

    /// The convolution of `self` and `rhs`.
    spec fn conv_ensures(self, rhs: Rhs, out: Self::Output) -> bool;

    /// The full convolution of `self` and `rhs`.
    fn conv(self, rhs: Rhs) -> (out: Self::Output)
        requires
            self.conv_requires(rhs),
        ensures
            self.conv_ensures(rhs, out);
}

impl Conv<i64, i64, Vec<i64>> for Vec<i64> {
    type OutputT = i64;
    type Output = Vec<i64>;

    open spec fn conv_requires(self, rhs: Vec<i64>) -> bool {
        self@.len() + rhs@.len() <= usize::MAX && conv_fits(ints(self@), ints(rhs@))
    }

    open spec fn conv_ensures(self, rhs: Vec<i64>, out: Vec<i64>) -> bool {
        ints(out@) == conv(ints(self@), ints(rhs@))
    }

    fn conv(self, rhs: Vec<i64>) -> (out: Vec<i64>) {
        convolve_direct(self.as_slice(), rhs.as_slice())
    }
}

impl<'a, 'b> Conv<i64, i64, &'b [i64]> for &'a [i64] {
    type OutputT = i64;
    type Output = Vec<i64>;

    open spec fn conv_requires(self, rhs: &'b [i64]) -> bool {
        self@.len() + rhs@.len() <= usize::MAX && conv_fits(ints(self@), ints(rhs@))
    }

    open spec fn conv_ensures(self, rhs: &'b [i64], out: Vec<i64>) -> bool {
        ints(out@) == conv(ints(self@), ints(rhs@))
    }

    fn conv(self, rhs: &'b [i64]) -> (out: Vec<i64>) {
        convolve_direct(self, rhs)
    }
}

impl<const N: usize, const M: usize> Conv<i64, i64, [i64; M]> for [i64; N] {
    type OutputT = i64;
    type Output = Vec<i64>;

    open spec fn conv_requires(self, rhs: [i64; M]) -> bool {
        N + M <= usize::MAX && conv_fits(ints(self@), ints(rhs@))
    }

    open spec fn conv_ensures(self, rhs: [i64; M], out: Vec<i64>) -> bool {
        ints(out@) == conv(ints(self@), ints(rhs@))
    }

    fn conv(self, rhs: [i64; M]) -> (out: Vec<i64>) {
        convolve_direct(self.as_slice(), rhs.as_slice())
    }
}

impl Conv<i64, i64, Vec<i64>> for Vec<Vec<i64>> {
    type OutputT = i64;
    type Output = Vec<Vec<i64>>;

    open spec fn conv_requires(self, rhs: Vec<i64>) -> bool {
        forall|i: int| 0 <= i < self@.len() ==> #[trigger] self@[i]@.len() + rhs@.len() <= usize::MAX
            && conv_fits(ints(self@[i]@), ints(rhs@))
    }

    open spec fn conv_ensures(self, rhs: Vec<i64>, out: Vec<Vec<i64>>) -> bool {
        &&& out@.len() == self@.len()
        &&& forall|i: int| 0 <= i < self@.len() ==> #[trigger] ints(out@[i]@) == conv(ints(self@[i]@), ints(rhs@))
    }

    fn conv(self, rhs: Vec<i64>) -> (out: Vec<Vec<i64>>) {
        let mut out: Vec<Vec<i64>> = Vec::new();
        let mut i: usize = 0;
        while i < self.len()
            invariant
                forall|i: int| 0 <= i < self@.len() ==> #[trigger] self@[i]@.len() + rhs@.len() <= usize::MAX
                    && conv_fits(ints(self@[i]@), ints(rhs@)),
                i <= self@.len(),
                out@.len() == i,
                forall|k: int| 0 <= k < i ==> #[trigger] ints(out@[k]@) == conv(ints(self@[k]@), ints(rhs@)),
            decreases self@.len() - i,
        {
            assert(self@[i as int]@.len() + rhs@.len() <= usize::MAX && conv_fits(ints(self@[i as int]@), ints(rhs@)));
            out.push(convolve_direct(self[i].as_slice(), rhs.as_slice()));
            i += 1;
        }
        out
    }
}

} // verus!
