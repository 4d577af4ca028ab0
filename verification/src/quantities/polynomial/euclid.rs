//! Long division of polynomials.
//!
//! The divisor's leading zeros are skipped; each step divides the leading
//! coefficient of the running remainder by the divisor's leading coefficient
//! (rounding towards zero), takes that multiple of the divisor away, and drops
//! the leading coefficient. The remainder is padded with leading zeros back to
//! the dividend's length.
use vstd::prelude::*;
use vstd::arithmetic::power::pow;
use crate::arith::{conv, conv_coef, conv_hi, conv_len, conv_lo, conv_sum, eval, in_i64, ints,
    lemma_eval_add, lemma_eval_scale, lemma_eval_push, lemma_ints_push, pad_front, trim_zeros_front};
use crate::quantities::polynomial::{Polynomial, lemma_trim_skip};

verus! {

/// `x / c` rounded towards zero.
pub open spec fn tdiv(x: int, c: int) -> int {
    let q = (if x >= 0 { x } else { -x }) / (if c >= 0 { c } else { -c });
    if x == 0 || (x > 0) == (c > 0) { q } else { -q }
}

/// The running remainder after one step that takes `s0` times the divisor `b`
/// away from `r` and drops the leading coefficient.
pub open spec fn div_step_rem(r: Seq<int>, b: Seq<int>, s0: int) -> Seq<int> {
    Seq::new((r.len() - 1) as nat, |i: int| if i + 1 < b.len() { r[i + 1] - s0 * b[i + 1] } else { r[i + 1] })
}

/// Quotient and remainder of the long division of `r` by `b`, whose leading
/// coefficient is not zero.
pub open spec fn long_div(r: Seq<int>, b: Seq<int>) -> (Seq<int>, Seq<int>)
    decreases r.len(),
{
    if r.len() < b.len() || b.len() == 0 {
        (Seq::empty(), r)
    } else {
        let s0 = tdiv(r[0], b[0]);
        let (q, rf) = long_div(div_step_rem(r, b, s0), b);
        (seq![s0] + q, rf)
    }
}

/// Whether every quotient and every intermediate coefficient of the long
/// division of `r` by `b` fits in an `i64`.
pub open spec fn long_div_fits(r: Seq<int>, b: Seq<int>) -> bool
    decreases r.len(),
{
    if r.len() < b.len() || b.len() == 0 {
        true
    } else {
        let s0 = tdiv(r[0], b[0]);
        &&& !(r[0] == i64::MIN && b[0] == -1)
        &&& forall|k: int| 1 <= k < b.len() ==> in_i64(s0 * #[trigger] b[k]) && in_i64(r[k] - s0 * b[k])
        &&& long_div_fits(div_step_rem(r, b, s0), b)
    }
}

/// Whether every step of the long division of `r` by `b` divides exactly, so
/// that the dropped leading coefficient is zero.
pub open spec fn long_div_exact(r: Seq<int>, b: Seq<int>) -> bool
    decreases r.len(),
{
    if r.len() < b.len() || b.len() == 0 {
        true
    } else {
        let s0 = tdiv(r[0], b[0]);
        &&& s0 * b[0] == r[0]
        &&& long_div_exact(div_step_rem(r, b, s0), b)
    }
}

/// Result of dividing `a` by `b`: `None` where `b` is all zeros, else the
/// quotient without its first terms, one for each leading zero of `b`, and
/// the remainder padded to the length of `a`.
pub open spec fn deconvolve_spec(a: Seq<int>, b: Seq<int>) -> Option<(Seq<int>, Seq<int>)> {
    let bt = trim_zeros_front(b);
    let lag = b.len() - bt.len();
    if bt.len() == 0 {
        None
    } else {
        let (q, rf) = long_div(a, bt);
        Some((q.subrange(lag, q.len() as int), pad_front(rf, a.len() as int)))
    }
}

/// The quotient has one coefficient per step, the remainder is shorter than
/// the divisor.
pub proof fn lemma_long_div_len(r: Seq<int>, b: Seq<int>)
    requires
        b.len() >= 1,
    ensures
        long_div(r, b).0.len() == if r.len() < b.len() { 0 } else { r.len() - b.len() + 1 },
        long_div(r, b).1.len() == if r.len() < b.len() { r.len() as int } else { b.len() - 1 },
    decreases r.len(),
{
    if r.len() >= b.len() {
        lemma_long_div_len(div_step_rem(r, b, tdiv(r[0], b[0])), b);
    }
}

/// A divisor whose leading coefficient is `1` or `-1` divides exactly.
pub proof fn lemma_long_div_exact_unit(r: Seq<int>, b: Seq<int>)
    requires
        b.len() >= 1,
        b[0] == 1 || b[0] == -1,
    ensures
        long_div_exact(r, b),
    decreases r.len(),
{
    if r.len() >= b.len() {
        lemma_long_div_exact_unit(div_step_rem(r, b, tdiv(r[0], b[0])), b);
    }
}

/// The leading term of a polynomial, split off.
pub proof fn lemma_eval_first(s: Seq<int>, x: int)
    requires
        s.len() >= 1,
    ensures
        eval(s, x) == s[0] * pow(x, (s.len() - 1) as nat) + eval(s.drop_first(), x),
    decreases s.len(),
{
    if s.len() == 1 {
        assert(s.drop_last() =~= Seq::<int>::empty());
        assert(s.drop_first() =~= Seq::<int>::empty());
        assert(pow(x, 0) == 1) by { reveal(pow); }
    } else {
        let dl = s.drop_last();
        lemma_eval_first(dl, x);
        assert(s.drop_first().drop_last() =~= dl.drop_first());
        let p = pow(x, (dl.len() - 1) as nat);
        assert(pow(x, (s.len() - 1) as nat) == x * p) by { reveal(pow); }
        let e = eval(dl.drop_first(), x);
        assert((s[0] * p + e) * x + s.last() == s[0] * (x * p) + (e * x + s.last())) by (nonlinear_arith);
    }
}

/// Zeros pushed at the end multiply the value by a power of `x`.
pub proof fn lemma_eval_trailing_zeros(b: Seq<int>, k: nat, x: int)
    ensures
        eval(b + Seq::new(k, |i: int| 0int), x) == eval(b, x) * pow(x, k),
    decreases k,
{
    if k == 0 {
        assert(b + Seq::new(0, |i: int| 0int) =~= b);
        assert(pow(x, 0) == 1) by { reveal(pow); }
    } else {
        let z = Seq::new(k, |i: int| 0int);
        let z1 = Seq::new((k - 1) as nat, |i: int| 0int);
        lemma_eval_trailing_zeros(b, (k - 1) as nat, x);
        assert(b + z =~= (b + z1).push(0));
        lemma_eval_push(b + z1, 0, x);
        assert(pow(x, k) == x * pow(x, (k - 1) as nat)) by { reveal(pow); }
        let e = eval(b, x);
        let p = pow(x, (k - 1) as nat);
        assert((e * p) * x == e * (x * p)) by (nonlinear_arith);
    }
}

/// One exact step: `r` is `s0 x^(len r - len b)` times `b` plus the next
/// running remainder.
pub proof fn lemma_div_step_eval(r: Seq<int>, b: Seq<int>, s0: int, x: int)
    requires
        1 <= b.len() <= r.len(),
        s0 * b[0] == r[0],
    ensures
        eval(r, x) == s0 * pow(x, (r.len() - b.len()) as nat) * eval(b, x)
            + eval(div_step_rem(r, b, s0), x),
{
    let len = r.len();
    let k = (r.len() - b.len()) as nat;
    let bb = b + Seq::new(k, |i: int| 0int);
    let sbb = Seq::new(len, |i: int| s0 * bb[i]);
    let t = Seq::new(len, |i: int| r[i] - sbb[i]);
    lemma_eval_add(r, t, sbb, x);
    lemma_eval_scale(sbb, bb, s0, x);
    lemma_eval_trailing_zeros(b, k, x);
    lemma_eval_first(t, x);
    assert forall|i: int| 0 <= i < len - 1 implies #[trigger] t.drop_first()[i] == div_step_rem(r, b, s0)[i] by {
        if i + 1 >= b.len() {
            assert(bb[i + 1] == 0);
            assert(s0 * 0 == 0);
        }
    }
    assert(t.drop_first() =~= div_step_rem(r, b, s0));
    assert(t[0] == 0);
    assert(t[0] * pow(x, (len - 1) as nat) == 0) by (nonlinear_arith)
        requires t[0] == 0;
    assert(eval(sbb, x) == s0 * eval(bb, x));
    let e = eval(b, x);
    let p = pow(x, k);
    assert(s0 * (e * p) == s0 * p * e) by (nonlinear_arith);
}

/// Law: for an exact division, the dividend is the quotient times the
/// divisor plus the remainder, wherever they are evaluated.
pub proof fn lemma_long_div_eval(r: Seq<int>, b: Seq<int>, x: int)
    requires
        b.len() >= 1,
        b[0] != 0,
        long_div_exact(r, b),
    ensures
        eval(r, x) == eval(long_div(r, b).0, x) * eval(b, x) + eval(long_div(r, b).1, x),
    decreases r.len(),
{
    if r.len() < b.len() {
        assert(eval(Seq::<int>::empty(), x) == 0);
    } else {
        let s0 = tdiv(r[0], b[0]);
        let r2 = div_step_rem(r, b, s0);
        lemma_long_div_eval(r2, b, x);
        lemma_div_step_eval(r, b, s0, x);
        let q2 = long_div(r2, b).0;
        let q = seq![s0] + q2;
        lemma_long_div_len(r2, b);
        lemma_eval_first(q, x);
        assert(q.drop_first() =~= q2);
        assert(q2.len() == r.len() - b.len());
        let p = pow(x, q2.len());
        let e = eval(b, x);
        let eq2 = eval(q2, x);
        assert((s0 * p + eq2) * e == s0 * p * e + eq2 * e) by (nonlinear_arith);
    }
}

/// `x / c` rounded towards zero, as Rust's `/` on integers rounds.
pub fn div_trunc(x: i64, c: i64) -> (q: i64)
    requires
        c != 0,
        !(x == i64::MIN && c == -1),
    ensures
        q == tdiv(x as int, c as int),
{
    let ux: u64 = if x >= 0 { x as u64 } else { (0 - (x as i128)) as u64 };
    let uc: u64 = if c >= 0 { c as u64 } else { (0 - (c as i128)) as u64 };
    let uq: u64 = ux / uc;
    assert(uq <= ux) by (nonlinear_arith)
        requires uq == ux / uc, uc >= 1;
    assert(ux >= 1 && uq == ux ==> uc == 1) by (nonlinear_arith)
        requires uq == ux / uc, uc >= 1;
    if x == 0 || (x > 0) == (c > 0) {
        uq as i64
    } else {
        (0 - (uq as i128)) as i64
    }
}

/// The number of leading zeros of `s`.
pub fn leading_zeros(s: &[i64]) -> (k: usize)
    ensures
        k <= s@.len(),
        trim_zeros_front(ints(s@)) == ints(s@).subrange(k as int, s@.len() as int),
{
    let n: usize = s.len();
    let mut k: usize = 0;
    while k < n && s[k] == 0
        invariant
            n == s@.len(),
            k <= n,
            forall|j: int| 0 <= j < k ==> s@[j] == 0,
        decreases n - k,
    {
        k += 1;
    }
    proof {
        lemma_trim_skip(ints(s@), k as int);
    }
    k
}

/// The coefficients of `s` from index `k` on.
pub fn tail_from(s: &[i64], k: usize) -> (t: Vec<i64>)
    requires
        k <= s@.len(),
    ensures
        t@ == s@.subrange(k as int, s@.len() as int),
{
    let n: usize = s.len();
    let mut t: Vec<i64> = Vec::new();
    let mut i: usize = k;
    while i < n
        invariant
            n == s@.len(),
            k <= i <= n,
            t@ == s@.subrange(k as int, i as int),
        decreases n - i,
    {
        t.push(s[i]);
        i += 1;
        assert(t@ =~= s@.subrange(k as int, i as int));
    }
    t
}

/// Quotient and remainder of the long division of `a` by `b`, whose leading
/// coefficient is not zero.
pub fn long_division(a: &[i64], b: &[i64]) -> (res: (Vec<i64>, Vec<i64>))
    requires
        b@.len() >= 1,
        b@[0] != 0,
        long_div_fits(ints(a@), ints(b@)),
    ensures
        (ints(res.0@), ints(res.1@)) == long_div(ints(a@), ints(b@)),
{
    let ghost bi = ints(b@);
    let nb: usize = b.len();
    let c: i64 = b[0];
    let mut q: Vec<i64> = Vec::new();
    let mut r: Vec<i64> = tail_from(a, 0);
    assert(r@ =~= a@);
    while r.len() >= nb
        invariant
            bi == ints(b@),
            nb == b@.len() >= 1,
            c == b@[0],
            c != 0,
            long_div_fits(ints(r@), bi),
            long_div(ints(a@), bi) == (ints(q@) + long_div(ints(r@), bi).0, long_div(ints(r@), bi).1),
        decreases r@.len(),
    {
        let ghost ri = ints(r@);
        assert(ri[0] == r@[0] && bi[0] == b@[0]);
        assert(!(r@[0] == i64::MIN && c == -1));
        let s0: i64 = div_trunc(r[0], c);
        let ghost next = div_step_rem(ri, bi, s0 as int);
        let nr: usize = r.len();
        let mut r2: Vec<i64> = Vec::new();
        let mut i: usize = 0;
        while i + 1 < nr
            invariant
                bi == ints(b@),
                nb == b@.len(),
                ri == ints(r@),
                nr == r@.len() >= nb >= 1,
                s0 == tdiv(ri[0], bi[0]),
                long_div_fits(ri, bi),
                next == div_step_rem(ri, bi, s0 as int),
                i + 1 <= nr,
                ints(r2@) == next.subrange(0, i as int),
            decreases nr - i,
        {
            let v: i64 = if i + 1 < nb {
                assert(in_i64(s0 * bi[i + 1]) && in_i64(ri[i + 1] - s0 * bi[i + 1]));
                r[i + 1] - s0 * b[i + 1]
            } else {
                r[i + 1]
            };
            proof { lemma_ints_push(r2@, v); }
            r2.push(v);
            assert(next.subrange(0, i + 1) =~= next.subrange(0, i as int).push(next[i as int]));
            i += 1;
        }
        assert(next.subrange(0, i as int) =~= next);
        assert(ri[0] == r@[0]);
        assert(long_div(ri, bi) == (seq![s0 as int] + long_div(next, bi).0, long_div(next, bi).1));
        let ghost q_old = ints(q@);
        proof { lemma_ints_push(q@, s0); }
        q.push(s0);
        assert(q_old + (seq![s0 as int] + long_div(next, bi).0) =~= ints(q@) + long_div(next, bi).0);
        r = r2;
    }
    (q, r)
}

/// Divides `a` by `b`: `None` where `b` is all zeros, else the quotient and
/// the remainder padded with leading zeros to the length of `a`. For each
/// leading zero of `b` one leading term of the quotient is left out.
pub fn deconvolve_direct(a: &[i64], b: &[i64]) -> (res: Option<(Vec<i64>, Vec<i64>)>)
    requires
        trim_zeros_front(ints(b@)).len() > 0 ==> {
            let bt = trim_zeros_front(ints(b@));
            &&& long_div_fits(ints(a@), bt)
            &&& b@.len() - bt.len() <= long_div(ints(a@), bt).0.len()
        },
    ensures
        match res {
            Some((q, r)) => deconvolve_spec(ints(a@), ints(b@)) == Some((ints(q@), ints(r@))),
            None => deconvolve_spec(ints(a@), ints(b@)) is None,
        },
{
    let lag: usize = leading_zeros(b);
    if lag == b.len() {
        return None;
    }
    let bt: Vec<i64> = tail_from(b, lag);
    assert(ints(bt@) =~= trim_zeros_front(ints(b@)));
    assert(bt@[0] != 0) by {
        assert(ints(bt@)[0] == bt@[0]);
        lemma_trim_front_nonzero(ints(b@));
    }
    let (q, r) = long_division(a, bt.as_slice());
    let q2: Vec<i64> = tail_from(q.as_slice(), lag);
    let n: usize = a.len();
    let mut r2: Vec<i64> = Vec::new();
    proof { lemma_long_div_len(ints(a@), ints(bt@)); }
    let pad: usize = n - r.len();
    let mut i: usize = 0;
    while i < n
        invariant
            n == a@.len(),
            r@.len() <= n,
            pad == n - r@.len(),
            i <= n,
            ints(r2@) == pad_front(ints(r@), n as int).subrange(0, i as int),
        decreases n - i,
    {
        let v: i64 = if i < pad { 0 } else { r[i - pad] };
        assert(v as int == pad_front(ints(r@), n as int)[i as int]);
        proof { lemma_ints_push(r2@, v); }
        r2.push(v);
        assert(pad_front(ints(r@), n as int).subrange(0, i + 1)
            =~= pad_front(ints(r@), n as int).subrange(0, i as int).push(v as int));
        i += 1;
    }
    assert(pad_front(ints(r@), n as int).subrange(0, n as int) =~= pad_front(ints(r@), n as int));
    assert(ints(q2@) =~= ints(q@).subrange(lag as int, q@.len() as int));
    Some((q2, r2))
}

/// `s` without its leading zeros.
pub fn trim_front(s: &[i64]) -> (t: Vec<i64>)
    ensures
        ints(t@) == trim_zeros_front(ints(s@)),
{
    let k: usize = leading_zeros(s);
    let t = tail_from(s, k);
    assert(ints(t@) =~= ints(s@).subrange(k as int, s@.len() as int));
    t
}

/// What division of `a` by `b` may ask: `b` is not all zeros, every step
/// fits in an `i64`, and `b` has no more leading zeros than the quotient has
/// terms.
pub open spec fn div_rem_ok(a: Seq<int>, b: Seq<int>) -> bool {
    let bt = trim_zeros_front(b);
    &&& bt.len() > 0
    &&& long_div_fits(a, bt)
    &&& b.len() - bt.len() <= long_div(a, bt).0.len()
}

/// Quotient and remainder of `a` by `b`, each without leading zeros.
pub open spec fn div_rem_spec(a: Seq<int>, b: Seq<int>) -> (Seq<int>, Seq<int>) {
    let (q, r) = deconvolve_spec(a, b).unwrap();
    (trim_zeros_front(q), trim_zeros_front(r))
}

impl Polynomial<i64, Vec<i64>> {
    /// Quotient and remainder of the division by `v`, each without leading
    /// zeros.
    pub fn div_rem_euclid(&self, v: &Self) -> (res: (Self, Self))
        requires
            div_rem_ok(ints(self@), ints(v@)),
        ensures
            (ints(res.0@), ints(res.1@)) == div_rem_spec(ints(self@), ints(v@)),
    {
        let a: &[i64] = self.as_view().into_inner();
        let b: &[i64] = v.as_view().into_inner();
        let (q, r) = deconvolve_direct(a, b).unwrap();
        (Polynomial::new(trim_front(q.as_slice())), Polynomial::new(trim_front(r.as_slice())))
    }

    /// The quotient of the division by `v`, without leading zeros.
    pub fn div_euclid(&self, v: &Self) -> (q: Self)
        requires
            div_rem_ok(ints(self@), ints(v@)),
        ensures
            ints(q@) == div_rem_spec(ints(self@), ints(v@)).0,
    {
        let (q, _r) = self.div_rem_euclid(v);
        q
    }

    /// The remainder of the division by `v`, without leading zeros.
    pub fn rem_euclid(&self, v: &Self) -> (r: Self)
        requires
            div_rem_ok(ints(self@), ints(v@)),
        ensures
            ints(r@) == div_rem_spec(ints(self@), ints(v@)).1,
    {
        let (_q, r) = self.div_rem_euclid(v);
        r
    }

    /// The quotient of the division by `rhs`, without leading zeros.
    pub fn div(self, rhs: Self) -> (q: Self)
        requires
            div_rem_ok(ints(self@), ints(rhs@)),
        ensures
            ints(q@) == div_rem_spec(ints(self@), ints(rhs@)).0,
    {
        self.div_euclid(&rhs)
    }

    /// The remainder of the division by `rhs`, without leading zeros.
    pub fn rem(self, rhs: Self) -> (r: Self)
        requires
            div_rem_ok(ints(self@), ints(rhs@)),
        ensures
            ints(r@) == div_rem_spec(ints(self@), ints(rhs@)).1,
    {
        self.rem_euclid(&rhs)
    }
}

impl Polynomial<i64, Vec<i64>> {
    /// Every coefficient divided by `rhs`, rounded towards zero.
    pub fn div_scalar(self, rhs: i64) -> (p: Self)
        requires
            rhs != 0,
            rhs == -1 ==> forall|i: int| 0 <= i < self@.len() ==> self@[i] != i64::MIN,
        ensures
            p@.len() == self@.len(),
            forall|i: int| 0 <= i < self@.len() ==> p@[i] == tdiv(self@[i] as int, rhs as int),
    {
        let c: &[i64] = self.as_view().into_inner();
        let n: usize = c.len();
        let mut out: Vec<i64> = Vec::new();
        let mut i: usize = 0;
        while i < n
            invariant
                n == c@.len(),
                c@ == self@,
                rhs != 0,
                rhs == -1 ==> forall|i: int| 0 <= i < self@.len() ==> self@[i] != i64::MIN,
                i <= n,
                out@.len() == i,
                forall|k: int| 0 <= k < i ==> out@[k] == tdiv(self@[k] as int, rhs as int),
            decreases n - i,
        {
            out.push(div_trunc(c[i], rhs));
            i += 1;
        }
        Polynomial::new(out)
    }
}

/// Law: dividing by a polynomial with a non-zero leading coefficient, where
/// every step divides exactly (always so for a leading coefficient of `1` or
/// `-1`), the dividend is the quotient times the divisor plus the remainder,
/// and the remainder has a lower degree than the divisor.
pub proof fn lemma_div_rem_euclid(a: Seq<int>, b: Seq<int>, x: int)
    requires
        b.len() >= 1,
        b[0] != 0,
        long_div_exact(a, b),
    ensures
        deconvolve_spec(a, b) is Some,
        eval(a, x) == eval(div_rem_spec(a, b).0, x) * eval(b, x) + eval(div_rem_spec(a, b).1, x),
        div_rem_spec(a, b).1.len() < b.len(),
{
    assert(trim_zeros_front(b) == b);
    let (q, rf) = long_div(a, b);
    assert(q.subrange(0, q.len() as int) =~= q);
    lemma_long_div_eval(a, b, x);
    lemma_long_div_len(a, b);
    crate::quantities::polynomial::lemma_eval_trim(q, x);
    let pr = pad_front(rf, a.len() as int);
    crate::quantities::polynomial::sub::lemma_eval_pad_front(rf, a.len() as int, x);
    crate::quantities::polynomial::lemma_eval_trim(pr, x);
    lemma_trim_pad_front(rf, a.len() as int);
    lemma_trim_len(rf);
}

/// Dividing an exact multiple by the divisor rounds nothing away.
pub proof fn lemma_tdiv_exact(a: int, c: int)
    requires
        c != 0,
    ensures
        tdiv(a * c, c) == a,
{
    let ac = if a * c >= 0 { a * c } else { -(a * c) };
    let cc = if c >= 0 { c } else { -c };
    let aa = if a >= 0 { a } else { -a };
    assert(ac == aa * cc) by (nonlinear_arith)
        requires
            ac == (if a * c >= 0 { a * c } else { -(a * c) }),
            cc == (if c >= 0 { c } else { -c }),
            aa == (if a >= 0 { a } else { -a });
    vstd::arithmetic::div_mod::lemma_div_by_multiple(aa, cc);
    assert((a * c > 0) == ((a > 0) == (c > 0)) || a == 0) by (nonlinear_arith)
        requires c != 0;
    assert(a * c == 0 ==> a == 0) by (nonlinear_arith)
        requires c != 0;
}

/// A convolution sum over `a` equals the one over `a` without its first
/// coefficient, one place back, where the first coefficient is not reached.
pub proof fn lemma_conv_sum_shift(a: Seq<int>, b: Seq<int>, k: int, lo: int, hi: int)
    requires
        a.len() >= 1,
        hi <= k,
        k - lo < a.len(),
    ensures
        conv_sum(a, b, k, lo, hi) == conv_sum(a.drop_first(), b, k - 1, lo, hi),
    decreases hi - lo,
{
    if hi > lo {
        lemma_conv_sum_shift(a, b, k, lo, hi - 1);
        assert(a[k - (hi - 1)] == a.drop_first()[k - 1 - (hi - 1)]);
    }
}

/// Coefficient `k` of `a * b` is `a[0] b[k]` plus coefficient `k - 1` of
/// `a' * b`, `a'` being `a` without its first coefficient.
pub proof fn lemma_conv_coef_first(a: Seq<int>, b: Seq<int>, k: int)
    requires
        a.len() >= 1,
        0 <= k,
    ensures
        conv_coef(a, b, k) == (if k < b.len() { a[0] * b[k] } else { 0 })
            + (if k >= 1 { conv_coef(a.drop_first(), b, k - 1) } else { 0 }),
{
    let n = a.len() as int;
    let m = b.len() as int;
    let lo = conv_lo(n, k);
    let hi = conv_hi(m, k);
    let hi2 = conv_hi(m, k - 1);
    assert(conv_lo(n - 1, k - 1) == lo);
    if k < m {
        assert(hi == k + 1 && hi2 == k);
        assert(conv_sum(a, b, k, lo, hi) == conv_sum(a, b, k, lo, k) + a[0] * b[k]);
        lemma_conv_sum_shift(a, b, k, lo, k);
        if k == 0 {
            assert(conv_sum(a, b, k, lo, k) == 0);
        }
    } else {
        assert(hi == m && hi2 == m);
        lemma_conv_sum_shift(a, b, k, lo, m);
    }
}

/// One step of dividing `a * b` by `b` leaves `a' * b`.
pub proof fn lemma_div_step_conv(a: Seq<int>, b: Seq<int>)
    requires
        a.len() >= 1,
        b.len() >= 1,
        b[0] != 0,
    ensures
        conv(a, b).len() >= b.len(),
        tdiv(conv(a, b)[0], b[0]) == a[0],
        div_step_rem(conv(a, b), b, a[0]) == conv(a.drop_first(), b),
{
    let c = conv(a, b);
    let ap = a.drop_first();
    lemma_conv_coef_first(a, b, 0);
    lemma_tdiv_exact(a[0], b[0]);
    let next = div_step_rem(c, b, a[0]);
    assert(next.len() == conv(ap, b).len());
    assert forall|i: int| 0 <= i < next.len() implies #[trigger] next[i] == conv(ap, b)[i] by {
        lemma_conv_coef_first(a, b, i + 1);
    }
    assert(next =~= conv(ap, b));
}

/// Law: dividing a product by one of its factors, whose leading coefficient
/// is not zero, gives back the other factor and leaves nothing over.
pub proof fn lemma_div_undoes_mul(a: Seq<int>, b: Seq<int>)
    requires
        b.len() >= 1,
        b[0] != 0,
    ensures
        long_div(conv(a, b), b) == (a, Seq::new((b.len() - 1) as nat, |i: int| 0int)),
        div_rem_spec(conv(a, b), b) == (trim_zeros_front(a), Seq::<int>::empty()),
    decreases a.len(),
{
    let z = Seq::new((b.len() - 1) as nat, |i: int| 0int);
    let c = conv(a, b);
    if a.len() == 0 {
        assert forall|k: int| 0 <= k < c.len() implies #[trigger] c[k] == 0 by {
            assert(conv_lo(0, k) == k + 1);
        }
        assert(c =~= z);
        assert(long_div(c, b) == (Seq::<int>::empty(), c));
    } else {
        lemma_div_step_conv(a, b);
        lemma_div_undoes_mul(a.drop_first(), b);
        assert(seq![a[0]] + a.drop_first() =~= a);
    }
    assert(trim_zeros_front(b) == b);
    let (q, rf) = long_div(c, b);
    assert(q.subrange(0, q.len() as int) =~= q);
    lemma_trim_pad_front(rf, c.len() as int);
    lemma_trim_zeros(z);
}

/// Trimming twice trims no more than once.
pub proof fn lemma_trim_idempotent(s: Seq<int>)
    ensures
        trim_zeros_front(trim_zeros_front(s)) == trim_zeros_front(s),
    decreases s.len(),
{
    if s.len() > 0 && s[0] == 0 {
        lemma_trim_idempotent(s.drop_first());
    }
}

/// A sequence of zeros trims to nothing.
pub proof fn lemma_trim_zeros(s: Seq<int>)
    requires
        forall|i: int| 0 <= i < s.len() ==> s[i] == 0,
    ensures
        trim_zeros_front(s) == Seq::<int>::empty(),
    decreases s.len(),
{
    if s.len() > 0 {
        lemma_trim_zeros(s.drop_first());
    }
}

/// Padding with leading zeros does not change the trimmed sequence.
pub proof fn lemma_trim_pad_front(s: Seq<int>, len: int)
    ensures
        trim_zeros_front(pad_front(s, len)) == trim_zeros_front(s),
    decreases len - s.len(),
{
    if s.len() < len {
        let p = pad_front(s, len);
        let p1 = pad_front(s, len - 1);
        assert(p[0] == 0);
        assert(p.drop_first() =~= p1);
        lemma_trim_pad_front(s, len - 1);
    }
}

/// Trimming never lengthens a sequence.
pub proof fn lemma_trim_len(s: Seq<int>)
    ensures
        trim_zeros_front(s).len() <= s.len(),
    decreases s.len(),
{
    if s.len() > 0 && s[0] == 0 {
        lemma_trim_len(s.drop_first());
    }
}

/// A trimmed sequence that is not empty starts with a non-zero coefficient.
pub proof fn lemma_trim_front_nonzero(s: Seq<int>)
    ensures
        trim_zeros_front(s).len() > 0 ==> trim_zeros_front(s)[0] != 0,
    decreases s.len(),
{
    if s.len() > 0 && s[0] == 0 {
        lemma_trim_front_nonzero(s.drop_first());
    }
}

} // verus!
