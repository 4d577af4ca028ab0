//! Exact mathematics of coefficient sequences.
//!
//! Polynomials are stored with the highest power first: the sequence
//! `[c0, c1, ..., c(n-1)]` stands for `c0 x^(n-1) + c1 x^(n-2) + ... + c(n-1)`.
use vstd::prelude::*;
use vstd::arithmetic::power::pow;

verus! {

/// The sequence of mathematical integers held by a slice of `i64`.
pub open spec fn ints(s: Seq<i64>) -> Seq<int> {
    Seq::new(s.len(), |i: int| s[i] as int)
}

/// Whether `v` is representable as an `i64`.
pub open spec fn in_i64(v: int) -> bool {
    i64::MIN <= v <= i64::MAX
}

/// Horner evaluation of a highest-power-first coefficient sequence at `x`.
pub open spec fn eval(s: Seq<int>, x: int) -> int
    decreases s.len(),
{
    if s.len() == 0 {
        0
    } else {
        eval(s.drop_last(), x) * x + s.last()
    }
}

/// `Σ_{j = lo}^{hi - 1} a[k - j] * b[j]`, accumulated in increasing `j`.
pub open spec fn conv_sum(a: Seq<int>, b: Seq<int>, k: int, lo: int, hi: int) -> int
    decreases hi - lo,
{
    if hi <= lo {
        0
    } else {
        conv_sum(a, b, k, lo, hi - 1) + a[k - (hi - 1)] * b[hi - 1]
    }
}

/// First index of `b` that meets `a` in coefficient `k` of the convolution.
pub open spec fn conv_lo(n: int, k: int) -> int {
    if k + 1 - n > 0 { k + 1 - n } else { 0 }
}

/// One past the last index of `b` that meets `a` in coefficient `k`.
pub open spec fn conv_hi(m: int, k: int) -> int {
    if m < k + 1 { m } else { k + 1 }
}

/// Length of the convolution of sequences of lengths `n` and `m`.
pub open spec fn conv_len(n: int, m: int) -> int {
    if n + m >= 1 { n + m - 1 } else { 0 }
}

/// Coefficient `k` of the direct convolution of `a` and `b`.
pub open spec fn conv_coef(a: Seq<int>, b: Seq<int>, k: int) -> int {
    conv_sum(a, b, k, conv_lo(a.len() as int, k), conv_hi(b.len() as int, k))
}

/// The direct (full) convolution of `a` and `b`.
pub open spec fn conv(a: Seq<int>, b: Seq<int>) -> Seq<int> {
    Seq::new(conv_len(a.len() as int, b.len() as int) as nat, |k: int| conv_coef(a, b, k))
}

/// The product and the running sum that step `j` of coefficient `k` of the
/// direct convolution forms both fit in `i64`.
pub open spec fn conv_step_fits(a: Seq<int>, b: Seq<int>, k: int, j: int) -> bool {
    in_i64(a[k - j] * b[j]) && in_i64(conv_sum(a, b, k, conv_lo(a.len() as int, k), j + 1))
}

/// Every product and every running sum that the direct convolution forms fits in `i64`.
pub open spec fn conv_fits(a: Seq<int>, b: Seq<int>) -> bool {
    forall|k: int, j: int|
        0 <= k < conv_len(a.len() as int, b.len() as int)
        && conv_lo(a.len() as int, k) <= j < conv_hi(b.len() as int, k)
        ==> #[trigger] conv_step_fits(a, b, k, j)
}

pub open spec fn abs(v: int) -> int {
    if v < 0 { -v } else { v }
}

/// Sum of absolute values of `s[lo..hi)`.
pub open spec fn abs_sum(s: Seq<int>, lo: int, hi: int) -> int
    decreases hi - lo,
{
    if hi <= lo {
        0
    } else {
        abs_sum(s, lo, hi - 1) + abs(s[hi - 1])
    }
}

/// Sum of absolute values of the coefficients (the `l1` norm).
pub open spec fn l1(s: Seq<int>) -> int {
    abs_sum(s, 0, s.len() as int)
}

/// `s` with every leading zero removed.
pub open spec fn trim_zeros_front(s: Seq<int>) -> Seq<int>
    decreases s.len(),
{
    if s.len() == 0 {
        s
    } else if s[0] == 0 {
        trim_zeros_front(s.drop_first())
    } else {
        s
    }
}

/// `s` with `len - s.len()` zeros put in front (or `s` itself when it is longer).
pub open spec fn pad_front(s: Seq<int>, len: int) -> Seq<int> {
    if s.len() >= len {
        s
    } else {
        Seq::new((len - s.len()) as nat, |i: int| 0int) + s
    }
}

/// Pushing a sample onto a sequence of `i64` pushes its value onto the integers.
pub proof fn lemma_ints_push(s: Seq<i64>, v: i64)
    ensures
        ints(s.push(v)) == ints(s).push(v as int),
{
    assert(ints(s.push(v)) =~= ints(s).push(v as int));
}

// ---------------------------------------------------------------------------
// Lemmas on evaluation
// ---------------------------------------------------------------------------

pub proof fn lemma_eval_push(s: Seq<int>, v: int, x: int)
    ensures
        eval(s.push(v), x) == eval(s, x) * x + v,
{
    assert(s.push(v).drop_last() =~= s);
}

/// A sequence of zeros evaluates to zero.
pub proof fn lemma_eval_zeros(s: Seq<int>, x: int)
    requires
        forall|i: int| 0 <= i < s.len() ==> s[i] == 0,
    ensures
        eval(s, x) == 0,
    decreases s.len(),
{
    if s.len() > 0 {
        lemma_eval_zeros(s.drop_last(), x);
    }
}

/// Evaluation is additive on sequences of equal length.
pub proof fn lemma_eval_add(s: Seq<int>, t: Seq<int>, u: Seq<int>, x: int)
    requires
        s.len() == t.len(),
        s.len() == u.len(),
        forall|i: int| 0 <= i < s.len() ==> s[i] == t[i] + u[i],
    ensures
        eval(s, x) == eval(t, x) + eval(u, x),
    decreases s.len(),
{
    if s.len() > 0 {
        lemma_eval_add(s.drop_last(), t.drop_last(), u.drop_last(), x);
        assert(eval(s, x) == eval(s.drop_last(), x) * x + s.last());
        assert((eval(t.drop_last(), x) + eval(u.drop_last(), x)) * x
            == eval(t.drop_last(), x) * x + eval(u.drop_last(), x) * x) by (nonlinear_arith);
    }
}

/// Evaluation is linear in a scalar factor.
pub proof fn lemma_eval_scale(s: Seq<int>, t: Seq<int>, c: int, x: int)
    requires
        s.len() == t.len(),
        forall|i: int| 0 <= i < s.len() ==> s[i] == c * t[i],
    ensures
        eval(s, x) == c * eval(t, x),
    decreases s.len(),
{
    if s.len() > 0 {
        lemma_eval_scale(s.drop_last(), t.drop_last(), c, x);
        let e = eval(t.drop_last(), x);
        assert((c * e) * x + c * t.last() == c * (e * x + t.last())) by (nonlinear_arith);
    }
}

/// Leading zeros do not change the value of a polynomial.
pub proof fn lemma_eval_leading_zeros(s: Seq<int>, z: nat, x: int)
    requires
        z <= s.len(),
        forall|i: int| 0 <= i < z ==> s[i] == 0,
    ensures
        eval(s, x) == eval(s.subrange(z as int, s.len() as int), x),
    decreases s.len(),
{
    if s.len() == z {
        lemma_eval_zeros(s, x);
    } else {
        lemma_eval_leading_zeros(s.drop_last(), z, x);
        let t = s.subrange(z as int, s.len() as int);
        assert(t.drop_last() =~= s.drop_last().subrange(z as int, s.len() - 1));
    }
}

/// Negation commutes with evaluation.
pub proof fn lemma_eval_neg(s: Seq<int>, t: Seq<int>, x: int)
    requires
        s.len() == t.len(),
        forall|i: int| 0 <= i < s.len() ==> s[i] == -t[i],
    ensures
        eval(s, x) == -eval(t, x),
{
    lemma_eval_scale(s, t, -1, x);
}

// ---------------------------------------------------------------------------
// Lemmas on the convolution sum
// ---------------------------------------------------------------------------

/// The convolution sum reads `a` and `b` only inside its range.
pub proof fn lemma_conv_sum_ext(a: Seq<int>, b: Seq<int>, a2: Seq<int>, b2: Seq<int>, k: int, lo: int, hi: int)
    requires
        forall|i: int| k - hi < i <= k - lo ==> #[trigger] a[i] == a2[i],
        forall|j: int| lo <= j < hi ==> #[trigger] b[j] == b2[j],
    ensures
        conv_sum(a, b, k, lo, hi) == conv_sum(a2, b2, k, lo, hi),
    decreases hi - lo,
{
    if hi > lo {
        lemma_conv_sum_ext(a, b, a2, b2, k, lo, hi - 1);
    }
}

/// A convolution sum over terms that are all zero is zero.
pub proof fn lemma_conv_sum_zero(a: Seq<int>, b: Seq<int>, k: int, lo: int, hi: int)
    requires
        forall|j: int| lo <= j < hi ==> a[k - j] * b[j] == 0,
    ensures
        conv_sum(a, b, k, lo, hi) == 0,
    decreases hi - lo,
{
    if hi > lo {
        lemma_conv_sum_zero(a, b, k, lo, hi - 1);
    }
}

/// Scaling one factor scales the sum.
pub proof fn lemma_conv_sum_scale(a: Seq<int>, b: Seq<int>, ca: Seq<int>, c: int, k: int, lo: int, hi: int)
    requires
        forall|i: int| k - hi < i <= k - lo ==> #[trigger] ca[i] == c * a[i],
    ensures
        conv_sum(ca, b, k, lo, hi) == c * conv_sum(a, b, k, lo, hi),
    decreases hi - lo,
{
    if hi > lo {
        lemma_conv_sum_scale(a, b, ca, c, k, lo, hi - 1);
        let s = conv_sum(a, b, k, lo, hi - 1);
        let p = a[k - (hi - 1)];
        let q = b[hi - 1];
        assert(c * s + (c * p) * q == c * (s + p * q)) by (nonlinear_arith);
    }
}

/// Appending the coefficient `c` to `b` (multiplying it by `x` and adding `c`)
/// shifts the convolution and adds `c * a` at its low end.
pub proof fn lemma_conv_push(a: Seq<int>, b: Seq<int>, c: int, k: int)
    requires
        a.len() >= 1,
        0 <= k < a.len() + b.len(),
    ensures
        conv_coef(a, b.push(c), k)
            == (if k < conv_len(a.len() as int, b.len() as int) { conv_coef(a, b, k) } else { 0 })
                + (if b.len() <= k { c * a[k - b.len()] } else { 0 }),
{
    let n = a.len() as int;
    let m = b.len() as int;
    let b2 = b.push(c);
    let lo = conv_lo(n, k);
    assert forall|j: int| lo <= j < m implies #[trigger] b[j] == b2[j] by {}
    if k < m {
        // The new coefficient is out of reach: both sums run over [lo, k + 1).
        assert(conv_hi(m + 1, k) == k + 1);
        assert(conv_hi(m, k) == k + 1);
        lemma_conv_sum_ext(a, b2, a, b, k, lo, k + 1);
    } else {
        assert(conv_hi(m + 1, k) == m + 1);
        lemma_conv_sum_ext(a, b2, a, b, k, lo, m);
        assert(b2[m] == c);
        let t = a[k - m];
        assert(t * c == c * t) by (nonlinear_arith);
        if k < n + m - 1 {
            assert(conv_hi(m, k) == m);
        } else {
            // k == n + m - 1: the old sum is empty.
            assert(lo == m);
        }
    }
}

/// Evaluation turns convolution into multiplication.
pub proof fn lemma_eval_conv(a: Seq<int>, b: Seq<int>, x: int)
    ensures
        eval(conv(a, b), x) == eval(a, x) * eval(b, x),
    decreases b.len(),
{
    let n = a.len() as int;
    if n == 0 {
        assert forall|k: int| 0 <= k < conv(a, b).len() implies conv(a, b)[k] == 0 by {
            lemma_conv_sum_zero(a, b, k, conv_lo(n, k), conv_hi(b.len() as int, k));
        }
        lemma_eval_zeros(conv(a, b), x);
    } else if b.len() == 0 {
        assert forall|k: int| 0 <= k < conv(a, b).len() implies conv(a, b)[k] == 0 by {
            lemma_conv_sum_zero(a, b, k, conv_lo(n, k), conv_hi(0, k));
        }
        lemma_eval_zeros(conv(a, b), x);
    } else {
        let m = b.len() as int;
        let bp = b.drop_last();
        let c = b.last();
        assert(bp.push(c) =~= b);
        lemma_eval_conv(a, bp, x);
        let old = conv(a, bp);
        let new = conv(a, b);
        // new = old.push(0) + (zeros(m - 1) ++ c * a)
        let shifted = old.push(0);
        let tail = Seq::new((n + m - 1) as nat, |k: int| if m - 1 <= k { c * a[k - (m - 1)] } else { 0 });
        assert(new.len() == n + m - 1);
        assert(shifted.len() == n + m - 1);
        assert forall|k: int| 0 <= k < new.len() implies new[k] == shifted[k] + tail[k] by {
            lemma_conv_push(a, bp, c, k);
        }
        lemma_eval_add(new, shifted, tail, x);
        lemma_eval_push(old, 0, x);
        let ca = Seq::new(n as nat, |i: int| c * a[i]);
        assert(tail.subrange(m - 1, n + m - 1) =~= ca);
        lemma_eval_leading_zeros(tail, (m - 1) as nat, x);
        lemma_eval_scale(ca, a, c, x);
        lemma_eval_push(bp, c, x);
        let ea = eval(a, x);
        let eb = eval(bp, x);
        assert((ea * eb) * x + c * ea == ea * (eb * x + c)) by (nonlinear_arith);
    }
}

// ---------------------------------------------------------------------------
// Lemmas on the l1 norm
// ---------------------------------------------------------------------------

pub proof fn lemma_abs_sum_nonneg(s: Seq<int>, lo: int, hi: int)
    ensures
        abs_sum(s, lo, hi) >= 0,
    decreases hi - lo,
{
    if hi > lo {
        lemma_abs_sum_nonneg(s, lo, hi - 1);
    }
}

/// Widening the range does not decrease a sum of absolute values.
pub proof fn lemma_abs_sum_mono(s: Seq<int>, lo: int, hi: int, lo2: int, hi2: int)
    requires
        lo2 <= lo,
        lo <= hi,
        hi <= hi2,
    ensures
        abs_sum(s, lo, hi) <= abs_sum(s, lo2, hi2),
    decreases hi2 - lo2,
{
    if hi2 > hi {
        lemma_abs_sum_mono(s, lo, hi, lo2, hi2 - 1);
    } else if lo2 < lo {
        lemma_abs_sum_split(s, lo2, lo, hi);
        lemma_abs_sum_nonneg(s, lo2, lo);
    }
}

pub proof fn lemma_abs_sum_split(s: Seq<int>, lo: int, mid: int, hi: int)
    requires
        lo <= mid <= hi,
    ensures
        abs_sum(s, lo, hi) == abs_sum(s, lo, mid) + abs_sum(s, mid, hi),
    decreases hi - mid,
{
    if hi > mid {
        lemma_abs_sum_split(s, lo, mid, hi - 1);
    }
}

/// Every coefficient is bounded by the l1 norm.
pub proof fn lemma_abs_le_l1(s: Seq<int>, i: int)
    requires
        0 <= i < s.len(),
    ensures
        abs(s[i]) <= l1(s),
{
    assert(abs_sum(s, i, i + 1) == abs_sum(s, i, i) + abs(s[i]));
    lemma_abs_sum_mono(s, i, i + 1, 0, s.len() as int);
}

/// A running convolution sum is bounded by `l1(a)` times the absolute sum of `b` over its range.
pub proof fn lemma_conv_sum_bound(a: Seq<int>, b: Seq<int>, k: int, lo: int, hi: int)
    requires
        0 <= lo,
        hi <= b.len(),
        lo <= hi ==> 0 <= k - (hi - 1) && k - lo < a.len(),
    ensures
        abs(conv_sum(a, b, k, lo, hi)) <= l1(a) * abs_sum(b, lo, hi),
    decreases hi - lo,
{
    if hi > lo {
        if hi - 1 > lo {
            lemma_conv_sum_bound(a, b, k, lo, hi - 1);
        }
        lemma_abs_le_l1(a, k - (hi - 1));
        let p = a[k - (hi - 1)];
        let q = b[hi - 1];
        let la = l1(a);
        let s = conv_sum(a, b, k, lo, hi - 1);
        let t = abs_sum(b, lo, hi - 1);
        assert(abs(p * q) <= la * abs(q)) by (nonlinear_arith)
            requires abs(p) <= la;
        assert(la * t + la * abs(q) == la * (t + abs(q))) by (nonlinear_arith);
    }
}

/// Convolution never overflows when the product of the l1 norms fits in `i64`.
pub proof fn lemma_conv_fits_l1(a: Seq<int>, b: Seq<int>)
    requires
        l1(a) * l1(b) <= i64::MAX,
    ensures
        conv_fits(a, b),
{
    let n = a.len() as int;
    let m = b.len() as int;
    assert forall|k: int, j: int|
        0 <= k < conv_len(n, m) && conv_lo(n, k) <= j < conv_hi(m, k)
        implies #[trigger] conv_step_fits(a, b, k, j) by {
        let lo = conv_lo(n, k);
        lemma_conv_sum_bound(a, b, k, lo, j + 1);
        lemma_abs_sum_mono(b, lo, j + 1, 0, m);
        lemma_abs_sum_nonneg(b, lo, j + 1);
        lemma_abs_le_l1(a, k - j);
        lemma_abs_le_l1(b, j);
        let la = l1(a);
        let lb = l1(b);
        let u = abs_sum(b, lo, j + 1);
        assert(la * u <= la * lb) by (nonlinear_arith)
            requires u <= lb, la >= 0;
        let p = a[k - j];
        let q = b[j];
        assert(abs(p * q) <= la * lb) by (nonlinear_arith)
            requires abs(p) <= la, abs(q) <= lb;
    }
}

/// The l1 norm is subadditive on pointwise sums.
pub proof fn lemma_l1_add(s: Seq<int>, t: Seq<int>, u: Seq<int>)
    requires
        s.len() == t.len(),
        s.len() == u.len(),
        forall|i: int| 0 <= i < s.len() ==> s[i] == t[i] + u[i],
    ensures
        l1(s) <= l1(t) + l1(u),
    decreases s.len(),
{
    if s.len() > 0 {
        lemma_l1_add(s.drop_last(), t.drop_last(), u.drop_last());
        lemma_abs_sum_ext(s.drop_last(), s, 0, s.len() - 1);
        lemma_abs_sum_ext(t.drop_last(), t, 0, s.len() - 1);
        lemma_abs_sum_ext(u.drop_last(), u, 0, s.len() - 1);
    }
}

pub proof fn lemma_abs_sum_ext(s: Seq<int>, t: Seq<int>, lo: int, hi: int)
    requires
        forall|i: int| lo <= i < hi ==> s[i] == t[i],
    ensures
        abs_sum(s, lo, hi) == abs_sum(t, lo, hi),
    decreases hi - lo,
{
    if hi > lo {
        lemma_abs_sum_ext(s, t, lo, hi - 1);
    }
}

/// Scaling by `c` scales the l1 norm by `|c|`.
pub proof fn lemma_l1_scale(s: Seq<int>, t: Seq<int>, c: int)
    requires
        s.len() == t.len(),
        forall|i: int| 0 <= i < s.len() ==> s[i] == c * t[i],
    ensures
        l1(s) == abs(c) * l1(t),
    decreases s.len(),
{
    if s.len() > 0 {
        lemma_l1_scale(s.drop_last(), t.drop_last(), c);
        lemma_abs_sum_ext(s.drop_last(), s, 0, s.len() - 1);
        lemma_abs_sum_ext(t.drop_last(), t, 0, s.len() - 1);
        let v = t.last();
        let r = l1(t.drop_last());
        assert(abs(c * v) == abs(c) * abs(v)) by (nonlinear_arith);
        assert(abs(c) * r + abs(c) * abs(v) == abs(c) * (r + abs(v))) by (nonlinear_arith);
    }
}

/// Zeros contribute nothing to the l1 norm.
pub proof fn lemma_l1_zeros(s: Seq<int>, lo: int, hi: int)
    requires
        forall|i: int| lo <= i < hi ==> s[i] == 0,
    ensures
        abs_sum(s, lo, hi) == 0,
    decreases hi - lo,
{
    if hi > lo {
        lemma_l1_zeros(s, lo, hi - 1);
    }
}

/// The l1 norm of a convolution is at most the product of the l1 norms.
pub proof fn lemma_l1_conv(a: Seq<int>, b: Seq<int>)
    ensures
        l1(conv(a, b)) <= l1(a) * l1(b),
    decreases b.len(),
{
    let n = a.len() as int;
    lemma_abs_sum_nonneg(a, 0, n);
    lemma_abs_sum_nonneg(b, 0, b.len() as int);
    if n == 0 || b.len() == 0 {
        assert forall|k: int| 0 <= k < conv(a, b).len() implies conv(a, b)[k] == 0 by {
            lemma_conv_sum_zero(a, b, k, conv_lo(n, k), conv_hi(b.len() as int, k));
        }
        lemma_l1_zeros(conv(a, b), 0, conv(a, b).len() as int);
        assert(l1(a) * l1(b) >= 0) by (nonlinear_arith)
            requires l1(a) >= 0, l1(b) >= 0;
    } else {
        let m = b.len() as int;
        let bp = b.drop_last();
        let c = b.last();
        assert(bp.push(c) =~= b);
        lemma_l1_conv(a, bp);
        let old = conv(a, bp);
        let new = conv(a, b);
        let shifted = old.push(0);
        let tail = Seq::new((n + m - 1) as nat, |k: int| if m - 1 <= k { c * a[k - (m - 1)] } else { 0 });
        assert forall|k: int| 0 <= k < new.len() implies new[k] == shifted[k] + tail[k] by {
            lemma_conv_push(a, bp, c, k);
        }
        lemma_l1_add(new, shifted, tail);
        lemma_abs_sum_ext(shifted, old, 0, old.len() as int);
        let ca = Seq::new(n as nat, |i: int| c * a[i]);
        lemma_abs_sum_split(tail, 0, m - 1, n + m - 1);
        lemma_l1_zeros(tail, 0, m - 1);
        lemma_abs_sum_shift(tail, ca, m - 1, n);
        lemma_l1_scale(ca, a, c);
        lemma_abs_sum_ext(bp, b, 0, m - 1);
        let la = l1(a);
        let lb = l1(bp);
        assert(la * lb + abs(c) * la == la * (lb + abs(c))) by (nonlinear_arith);
    }
}

/// `abs_sum` of a suffix equals `l1` of the shifted sequence.
pub proof fn lemma_abs_sum_shift(s: Seq<int>, t: Seq<int>, off: int, len: int)
    requires
        0 <= off,
        len == t.len(),
        off + len <= s.len(),
        forall|i: int| 0 <= i < len ==> s[off + i] == t[i],
    ensures
        abs_sum(s, off, off + len) == l1(t),
    decreases len,
{
    if len > 0 {
        lemma_abs_sum_shift(s, t.drop_last(), off, len - 1);
        lemma_abs_sum_ext(t.drop_last(), t, 0, len - 1);
    }
}

// ---------------------------------------------------------------------------
// Commutativity of convolution
// ---------------------------------------------------------------------------

/// The first term of a convolution sum can be split off.
pub proof fn lemma_conv_sum_first(a: Seq<int>, b: Seq<int>, k: int, lo: int, hi: int)
    requires
        lo < hi,
    ensures
        conv_sum(a, b, k, lo, hi) == a[k - lo] * b[lo] + conv_sum(a, b, k, lo + 1, hi),
    decreases hi - lo,
{
    if hi - 1 > lo {
        lemma_conv_sum_first(a, b, k, lo, hi - 1);
        assert(conv_sum(a, b, k, lo + 1, hi) == conv_sum(a, b, k, lo + 1, hi - 1) + a[k - (hi - 1)] * b[hi - 1]);
    } else {
        assert(conv_sum(a, b, k, lo, hi - 1) == 0);
        assert(conv_sum(a, b, k, lo + 1, hi) == 0);
    }
}

/// Summing `a[k - j] * b[j]` over `j` equals summing `b[k - i] * a[i]` over `i = k - j`.
pub proof fn lemma_conv_sum_swap(a: Seq<int>, b: Seq<int>, k: int, lo: int, hi: int)
    ensures
        conv_sum(a, b, k, lo, hi) == conv_sum(b, a, k, k - hi + 1, k - lo + 1),
    decreases hi - lo,
{
    if hi > lo {
        lemma_conv_sum_swap(a, b, k, lo, hi - 1);
        // conv_sum(b, a, k, k - hi + 1, k - lo + 1)
        //   == b[k - (k - hi + 1)] * a[k - hi + 1] + conv_sum(b, a, k, k - hi + 2, k - lo + 1)
        lemma_conv_sum_first(b, a, k, k - hi + 1, k - lo + 1);
        let p = a[k - (hi - 1)];
        let q = b[hi - 1];
        assert(p * q == q * p) by (nonlinear_arith);
    }
}

/// Law: convolution is commutative.
pub proof fn lemma_conv_comm(a: Seq<int>, b: Seq<int>)
    ensures
        conv(a, b) == conv(b, a),
{
    let n = a.len() as int;
    let m = b.len() as int;
    assert forall|k: int| 0 <= k < conv(a, b).len() implies #[trigger] conv(a, b)[k] == conv(b, a)[k] by {
        lemma_conv_sum_swap(a, b, k, conv_lo(n, k), conv_hi(m, k));
    }
    assert(conv(a, b) =~= conv(b, a));
}

} // verus!
