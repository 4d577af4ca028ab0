//! Filtering a row of samples through a rational transfer function, in
//! direct form II, with an explicit state.
//!
//! Both coefficient lists are taken without their leading zeros; the
//! feedback coefficients after the first are divided by the first, and the
//! filter is applied only where each of these divisions is exact, so that
//! the integer filter is the rational one. For every sample `x` the
//! intermediate value
//! `w0 = x - Σ a[k + 1] / a[0] · w[k]` is formed, the output is
//! `b[0] · w0 + Σ b[k + 1] · w[k]`, and `w0` is shifted into the state. A
//! state of fewer than two values is not shifted.
//!
//! Before filtering, the state is cut or lengthened with zeros to the order
//! of the filter: the longer of the two coefficient lists, as given, less
//! one. With several numerator rows over one denominator, the state holds the
//! rows' states one after another, and every row filters the same samples.
use vstd::prelude::*;
use crate::arith::{conv, conv_coef, conv_hi, conv_lo, conv_sum, ints, in_i64, lemma_ints_push, trim_zeros_front};
use crate::quantities::polynomial::euclid::{tdiv, div_trunc, trim_front};

verus! {

/// `Σ_{k < n} w[k] · c[k]`.
pub open spec fn dot(w: Seq<int>, c: Seq<int>, n: int) -> int
    decreases n,
{
    if n <= 0 { 0 } else { dot(w, c, n - 1) + w[n - 1] * c[n - 1] }
}

/// The feedback coefficients after the first, divided by the first, of the
/// trimmed denominator `at` (none where `at` is empty). The filter is applied
/// only where these divisions are exact (see `step_fits`).
pub open spec fn feedback(at: Seq<int>) -> Seq<int> {
    if at.len() == 0 {
        Seq::empty()
    } else {
        Seq::new((at.len() - 1) as nat, |j: int| tdiv(at[j + 1], at[0]))
    }
}

/// The first coefficient of the trimmed numerator `bt`, or zero.
pub open spec fn lead(bt: Seq<int>) -> int {
    if bt.len() == 0 { 0 } else { bt[0] }
}

/// The numerator coefficients after the first.
pub open spec fn rest(bt: Seq<int>) -> Seq<int> {
    if bt.len() == 0 { Seq::empty() } else { bt.drop_first() }
}

/// The smaller of two lengths.
pub open spec fn min_len(a: int, b: int) -> int {
    if a < b { a } else { b }
}

/// The intermediate value for the sample `x` in the state `w`.
pub open spec fn inner_value(at: Seq<int>, w: Seq<int>, x: int) -> int {
    x - dot(w, feedback(at), min_len(feedback(at).len() as int, w.len() as int))
}

/// The output for the sample `x` in the state `w`.
pub open spec fn output_value(bt: Seq<int>, at: Seq<int>, w: Seq<int>, x: int) -> int {
    inner_value(at, w, x) * lead(bt) + dot(w, rest(bt), min_len(rest(bt).len() as int, w.len() as int))
}

/// The state after the sample `x`: the intermediate value shifted in, unless
/// the state holds fewer than two values.
pub open spec fn next_state(at: Seq<int>, w: Seq<int>, x: int) -> Seq<int> {
    if w.len() <= 1 { w } else { seq![inner_value(at, w, x)] + w.take(w.len() - 1) }
}

/// Outputs and final state of filtering the samples `xs` from the state `w`.
pub open spec fn run(bt: Seq<int>, at: Seq<int>, w: Seq<int>, xs: Seq<int>) -> (Seq<int>, Seq<int>)
    decreases xs.len(),
{
    if xs.len() == 0 {
        (Seq::empty(), w)
    } else {
        let (ys, wf) = run(bt, at, next_state(at, w, xs[0]), xs.drop_first());
        (seq![output_value(bt, at, w, xs[0])] + ys, wf)
    }
}

/// `c` divides `x` exactly.
pub open spec fn divides(c: int, x: int) -> bool {
    tdiv(x, c) * c == x
}

/// Every feedback coefficient divides exactly by the first, and every value
/// formed for the sample `x` in the state `w` fits in an `i64`.
pub open spec fn step_fits(bt: Seq<int>, at: Seq<int>, w: Seq<int>, x: int) -> bool {
    let f = feedback(at);
    let r = rest(bt);
    let na = min_len(f.len() as int, w.len() as int);
    let nb = min_len(r.len() as int, w.len() as int);
    &&& forall|j: int| 1 <= j < at.len() ==> !(#[trigger] at[j] == i64::MIN && at[0] == -1) && divides(at[0], at[j])
    &&& forall|k: int| 0 <= k < na ==> in_i64(w[k] * #[trigger] f[k]) && in_i64(x - dot(w, f, k + 1))
    &&& in_i64(inner_value(at, w, x) * lead(bt))
    &&& forall|k: int| 0 <= k < nb ==> in_i64(w[k] * #[trigger] r[k])
        && in_i64(inner_value(at, w, x) * lead(bt) + dot(w, r, k + 1))
}

/// Every feedback coefficient divides exactly by the first (where there is a
/// sample to filter), and every value formed while filtering `xs` from the
/// state `w` fits in an `i64`.
pub open spec fn run_fits(bt: Seq<int>, at: Seq<int>, w: Seq<int>, xs: Seq<int>) -> bool
    decreases xs.len(),
{
    if xs.len() == 0 {
        true
    } else {
        step_fits(bt, at, w, xs[0]) && run_fits(bt, at, next_state(at, w, xs[0]), xs.drop_first())
    }
}

/// Filtering gives one output per sample.
pub proof fn lemma_run_len(bt: Seq<int>, at: Seq<int>, w: Seq<int>, xs: Seq<int>)
    ensures
        run(bt, at, w, xs).0.len() == xs.len(),
    decreases xs.len(),
{
    if xs.len() > 0 {
        lemma_run_len(bt, at, next_state(at, w, xs[0]), xs.drop_first());
    }
}

// ---------------------------------------------------------------------------
// The filter state
// ---------------------------------------------------------------------------

/// The larger of two lengths.
pub open spec fn max_len(a: int, b: int) -> int {
    if a < b { b } else { a }
}

/// `a - b`, or zero where `b` is larger.
pub open spec fn sat_sub(a: int, b: int) -> int {
    if a < b { 0 } else { a - b }
}

/// The length of the filter state: the longer coefficient list, less one.
pub open spec fn state_len(b: Seq<int>, a: Seq<int>) -> int {
    sat_sub(max_len(b.len() as int, a.len() as int), 1)
}

/// `s` cut or lengthened with zeros to `n` values.
pub open spec fn resize_zeros(s: Seq<int>, n: int) -> Seq<int> {
    Seq::new(n as nat, |i: int| if i < s.len() { s[i] } else { 0 })
}

/// `s` cut or lengthened with zeros to `n` values.
pub fn resize_with_zeros(s: &[i64], n: usize) -> (r: Vec<i64>)
    ensures
        ints(r@) == resize_zeros(ints(s@), n as int),
{
    let mut r: Vec<i64> = Vec::new();
    let mut i: usize = 0;
    while i < n
        invariant
            i <= n,
            r@.len() == i,
            forall|k: int| 0 <= k < i ==> #[trigger] r@[k] as int == resize_zeros(ints(s@), n as int)[k],
        decreases n - i,
    {
        let v: i64 = if i < s.len() { s[i] } else { 0 };
        r.push(v);
        i += 1;
    }
    assert(ints(r@) =~= resize_zeros(ints(s@), n as int));
    r
}

/// Shifts `w0` into the state `w`, unless the state holds fewer than two values.
fn shift_in(w: &mut Vec<i64>, w0: i64)
    ensures
        ints(final(w)@) == (if old(w)@.len() <= 1 { ints(old(w)@) } else {
            seq![w0 as int] + ints(old(w)@).take(old(w)@.len() - 1) }),
{
    let ghost wi = ints(w@);
    let nw: usize = w.len();
    if nw >= 2 {
        let mut carry: i64 = w0;
        let mut i: usize = 0;
        while i < nw
            invariant
                nw == w@.len() >= 2,
                wi.len() == nw,
                i <= nw,
                forall|j: int| i <= j < nw ==> w@[j] == wi[j],
                forall|j: int| 1 <= j < i ==> w@[j] == wi[j - 1],
                i >= 1 ==> w@[0] == w0,
                i >= 1 ==> carry == wi[i - 1],
                i == 0 ==> carry == w0,
            decreases nw - i,
        {
            let old_v: i64 = w[i];
            w.set(i, carry);
            carry = old_v;
            i += 1;
        }
        assert(ints(w@) =~= seq![w0 as int] + wi.take(nw - 1));
    }
}

/// Filters one sample: returns the output and updates the state.
fn filter_sample(bt: &[i64], at: &[i64], w: &mut Vec<i64>, x: i64) -> (y: i64)
    requires
        ints(bt@) == trim_zeros_front(ints(bt@)),
        ints(at@) == trim_zeros_front(ints(at@)),
        step_fits(ints(bt@), ints(at@), ints(old(w)@), x as int),
    ensures
        y == output_value(ints(bt@), ints(at@), ints(old(w)@), x as int),
        ints(final(w)@) == next_state(ints(at@), ints(old(w)@), x as int),
{
    let ghost bi = ints(bt@);
    let ghost ai = ints(at@);
    let ghost wi = ints(w@);
    let ghost f = feedback(ai);
    let ghost r = rest(bi);
    let nw: usize = w.len();
    let mut w0: i64 = x;
    if at.len() > 0 {
        let a0: i64 = at[0];
        let na: usize = if at.len() - 1 < nw { at.len() - 1 } else { nw };
        let mut k: usize = 0;
        while k < na
            invariant
                ai == ints(at@),
                ai == trim_zeros_front(ai),
                wi == ints(w@),
                f == feedback(ai),
                at@.len() >= 1,
                a0 == at@[0],
                nw == w@.len(),
                na == min_len(f.len() as int, nw as int),
                step_fits(bi, ai, wi, x as int),
                k <= na,
                w0 == x - dot(wi, f, k as int),
            decreases na - k,
        {
            assert(f[k as int] == tdiv(ai[k + 1], ai[0]));
            assert(a0 != 0) by {
                crate::quantities::polynomial::euclid::lemma_trim_front_nonzero(ai);
            }
            assert(!(ai[k + 1] == i64::MIN && ai[0] == -1));
            let q: i64 = div_trunc(at[k + 1], a0);
            assert(in_i64(wi[k as int] * f[k as int]));
            assert(in_i64(x - dot(wi, f, k + 1)));
            w0 = w0 - w[k] * q;
            k += 1;
        }
    }
    assert(w0 == inner_value(ai, wi, x as int));
    let mut y: i64 = 0;
    if bt.len() > 0 {
        y = w0 * bt[0];
        let nb: usize = if bt.len() - 1 < nw { bt.len() - 1 } else { nw };
        let mut k: usize = 0;
        while k < nb
            invariant
                bi == ints(bt@),
                wi == ints(w@),
                r == rest(bi),
                bt@.len() >= 1,
                nw == w@.len(),
                nb == min_len(r.len() as int, nw as int),
                step_fits(bi, ai, wi, x as int),
                w0 == inner_value(ai, wi, x as int),
                k <= nb,
                y == w0 * lead(bi) + dot(wi, r, k as int),
            decreases nb - k,
        {
            assert(r[k as int] == bt@[k + 1]);
            assert(in_i64(wi[k as int] * r[k as int]));
            assert(in_i64(w0 * lead(bi) + dot(wi, r, k + 1)));
            y = y + w[k] * bt[k + 1];
            k += 1;
        }
    }
    if bt.len() == 0 {
        assert(w0 * lead(bi) == 0) by (nonlinear_arith)
            requires lead(bi) == 0;
    }
    assert(y == output_value(bi, ai, wi, x as int));
    shift_in(w, w0);
    y
}

/// Filters the samples `x`, starting from the state `w` as it is and leaving
/// the final state in `w`.
pub(crate) fn filter_from_state(b: &[i64], a: &[i64], w: &mut Vec<i64>, x: &[i64]) -> (y: Vec<i64>)
    requires
        run_fits(trim_zeros_front(ints(b@)), trim_zeros_front(ints(a@)), ints(old(w)@), ints(x@)),
    ensures
        (ints(y@), ints(final(w)@)) == run(trim_zeros_front(ints(b@)), trim_zeros_front(ints(a@)),
            ints(old(w)@), ints(x@)),
{
    let bt: Vec<i64> = trim_front(b);
    let at: Vec<i64> = trim_front(a);
    let ghost bi = ints(bt@);
    let ghost ai = ints(at@);
    proof {
        crate::quantities::polynomial::euclid::lemma_trim_idempotent(ints(b@));
        crate::quantities::polynomial::euclid::lemma_trim_idempotent(ints(a@));
    }
    let ghost w_init = ints(w@);
    let ghost xs = ints(x@);
    let mut y: Vec<i64> = Vec::new();
    let mut i: usize = 0;
    assert(xs.skip(0) =~= xs);
    assert(ints(y@) + run(bi, ai, w_init, xs).0 =~= run(bi, ai, w_init, xs).0);
    while i < x.len()
        invariant
            bi == ints(bt@),
            ai == ints(at@),
            bi == trim_zeros_front(bi),
            ai == trim_zeros_front(ai),
            xs == ints(x@),
            i <= x@.len(),
            run_fits(bi, ai, ints(w@), xs.skip(i as int)),
            run(bi, ai, w_init, xs) == (ints(y@) + run(bi, ai, ints(w@), xs.skip(i as int)).0,
                run(bi, ai, ints(w@), xs.skip(i as int)).1),
        decreases x@.len() - i,
    {
        let ghost rest_xs = xs.skip(i as int);
        let ghost wc = ints(w@);
        assert(rest_xs[0] == x@[i as int]);
        assert(rest_xs.drop_first() =~= xs.skip(i + 1));
        let v: i64 = filter_sample(bt.as_slice(), at.as_slice(), w, x[i]);
        let ghost y_old = ints(y@);
        proof { lemma_ints_push(y@, v); }
        y.push(v);
        assert(y_old + (seq![v as int] + run(bi, ai, ints(w@), xs.skip(i + 1)).0)
            =~= ints(y@) + run(bi, ai, ints(w@), xs.skip(i + 1)).0);
        i += 1;
    }
    assert(xs.skip(i as int) =~= Seq::<int>::empty());
    assert(ints(y@) + Seq::<int>::empty() =~= ints(y@));
    y
}

/// Filtering keeps the length of the state.
pub proof fn lemma_run_state_len(bt: Seq<int>, at: Seq<int>, w: Seq<int>, xs: Seq<int>)
    ensures
        run(bt, at, w, xs).1.len() == w.len(),
    decreases xs.len(),
{
    if xs.len() > 0 {
        lemma_run_state_len(bt, at, next_state(at, w, xs[0]), xs.drop_first());
    }
}

/// Filters the samples `x` through `b / a`. The state `w` is first cut or
/// lengthened with zeros to the filter's order (the longer of `b` and `a`,
/// less one); the final state is left in `w`. Every feedback coefficient must
/// divide exactly by the first, and every value formed fit in an `i64`
/// (`filter_row_checked` tests both).
pub fn filter_row(b: &[i64], a: &[i64], w: &mut Vec<i64>, x: &[i64]) -> (y: Vec<i64>)
    requires
        run_fits(trim_zeros_front(ints(b@)), trim_zeros_front(ints(a@)),
            resize_zeros(ints(old(w)@), state_len(ints(b@), ints(a@))), ints(x@)),
    ensures
        final(w)@.len() == state_len(ints(b@), ints(a@)),
        (ints(y@), ints(final(w)@)) == run(trim_zeros_front(ints(b@)), trim_zeros_front(ints(a@)),
            resize_zeros(ints(old(w)@), state_len(ints(b@), ints(a@))), ints(x@)),
{
    let n: usize = if b.len() < a.len() { a.len() } else { b.len() };
    let nw: usize = if n == 0 { 0 } else { n - 1 };
    let r: Vec<i64> = resize_with_zeros(w.as_slice(), nw);
    *w = r;
    let y = filter_from_state(b, a, w, x);
    proof {
        lemma_run_state_len(trim_zeros_front(ints(b@)), trim_zeros_front(ints(a@)),
            resize_zeros(ints(old(w)@), state_len(ints(b@), ints(a@))), ints(x@));
    }
    y
}

/// Filters one sample where every feedback division is exact and every value
/// formed fits in an `i64`: returns the output and updates the state; returns
/// `None`, leaving the state as it is, otherwise.
fn filter_sample_checked(bt: &[i64], at: &[i64], w: &mut Vec<i64>, x: i64) -> (y: Option<i64>)
    requires
        ints(bt@) == trim_zeros_front(ints(bt@)),
        ints(at@) == trim_zeros_front(ints(at@)),
    ensures
        y is Some <==> step_fits(ints(bt@), ints(at@), ints(old(w)@), x as int),
        y is Some ==> y->0 == output_value(ints(bt@), ints(at@), ints(old(w)@), x as int)
            && ints(final(w)@) == next_state(ints(at@), ints(old(w)@), x as int),
        y is None ==> final(w)@ == old(w)@,
{
    let ghost bi = ints(bt@);
    let ghost ai = ints(at@);
    let ghost wi = ints(w@);
    let ghost f = feedback(ai);
    let ghost r = rest(bi);
    let nw: usize = w.len();
    let mut w0: i64 = x;
    if at.len() > 0 {
        let a0: i64 = at[0];
        assert(a0 != 0) by {
            crate::quantities::polynomial::euclid::lemma_trim_front_nonzero(ai);
        }
        let mut j: usize = 1;
        while j < at.len()
            invariant
                ai == ints(at@),
                at@.len() >= 1,
                a0 == at@[0],
                1 <= j <= at@.len(),
                a0 != 0,
                forall|jj: int| 1 <= jj < j ==> !(#[trigger] ai[jj] == i64::MIN && ai[0] == -1) && divides(ai[0], ai[jj]),
            decreases at@.len() - j,
        {
            if at[j] == i64::MIN && a0 == -1 {
                assert(ai[j as int] == i64::MIN && ai[0] == -1);
                return None;
            }
            let q: i64 = div_trunc(at[j], a0);
            let exact: bool = match q.checked_mul(a0) {
                Some(p) => p == at[j],
                None => false,
            };
            if !exact {
                assert(!divides(ai[0], ai[j as int]));
                return None;
            }
            j += 1;
        }
        let na: usize = if at.len() - 1 < nw { at.len() - 1 } else { nw };
        let mut k: usize = 0;
        while k < na
            invariant
                ai == ints(at@),
                ai == trim_zeros_front(ai),
                wi == ints(w@),
                f == feedback(ai),
                at@.len() >= 1,
                a0 == at@[0],
                a0 != 0,
                nw == w@.len(),
                na == min_len(f.len() as int, nw as int),
                forall|jj: int| 1 <= jj < at@.len() ==> !(#[trigger] ai[jj] == i64::MIN && ai[0] == -1) && divides(ai[0], ai[jj]),
                forall|kk: int| 0 <= kk < k ==> in_i64(wi[kk] * #[trigger] f[kk]) && in_i64(x - dot(wi, f, kk + 1)),
                k <= na,
                w0 == x - dot(wi, f, k as int),
            decreases na - k,
        {
            assert(f[k as int] == tdiv(ai[k + 1], ai[0]));
            assert(!(ai[k + 1] == i64::MIN && ai[0] == -1));
            let q: i64 = div_trunc(at[k + 1], a0);
            let p: i64 = match w[k].checked_mul(q) {
                Some(p) => p,
                None => {
                    assert(!in_i64(wi[k as int] * f[k as int]));
                    return None;
                },
            };
            w0 = match w0.checked_sub(p) {
                Some(v) => v,
                None => {
                    assert(!in_i64(x - dot(wi, f, k + 1)));
                    assert(f[k as int] == q);
                    return None;
                },
            };
            k += 1;
        }
    }
    assert(w0 == inner_value(ai, wi, x as int));
    let mut y: i64 = 0;
    if bt.len() > 0 {
        y = match w0.checked_mul(bt[0]) {
            Some(v) => v,
            None => return None,
        };
        let nb: usize = if bt.len() - 1 < nw { bt.len() - 1 } else { nw };
        let mut k: usize = 0;
        while k < nb
            invariant
                ai == ints(at@),
                bi == ints(bt@),
                wi == ints(w@),
                r == rest(bi),
                bt@.len() >= 1,
                nw == w@.len(),
                nb == min_len(r.len() as int, nw as int),
                w0 == inner_value(ai, wi, x as int),
                in_i64(inner_value(ai, wi, x as int) * lead(bi)),
                forall|kk: int| 0 <= kk < k ==> in_i64(wi[kk] * #[trigger] r[kk])
                    && in_i64(inner_value(ai, wi, x as int) * lead(bi) + dot(wi, r, kk + 1)),
                k <= nb,
                y == w0 * lead(bi) + dot(wi, r, k as int),
            decreases nb - k,
        {
            assert(r[k as int] == bt@[k + 1]);
            let p: i64 = match w[k].checked_mul(bt[k + 1]) {
                Some(p) => p,
                None => {
                    assert(!step_fits(bi, ai, wi, x as int)) by {
                        assert(!in_i64(wi[k as int] * r[k as int]));
                    }
                    return None;
                },
            };
            y = match y.checked_add(p) {
                Some(v) => v,
                None => {
                    assert(!step_fits(bi, ai, wi, x as int)) by {
                        assert(r[k as int] == bt@[k + 1]);
                        assert(!in_i64(inner_value(ai, wi, x as int) * lead(bi) + dot(wi, r, k + 1)));
                    }
                    return None;
                },
            };
            k += 1;
        }
    } else {
        assert(w0 * lead(bi) == 0) by (nonlinear_arith)
            requires lead(bi) == 0;
    }
    assert(step_fits(bi, ai, wi, x as int));
    assert(y == output_value(bi, ai, wi, x as int));
    shift_in(w, w0);
    Some(y)
}

/// Filters the samples `x` through `b / a` as `filter_row` does, where every
/// feedback coefficient divides exactly by the first and every value formed
/// fits in an `i64`; returns `None`, leaving the state as it was, where some
/// division is not exact or some value would not fit.
pub fn filter_row_checked(b: &[i64], a: &[i64], w: &mut Vec<i64>, x: &[i64]) -> (y: Option<Vec<i64>>)
    ensures
        y is Some <==> run_fits(trim_zeros_front(ints(b@)), trim_zeros_front(ints(a@)),
            resize_zeros(ints(old(w)@), state_len(ints(b@), ints(a@))), ints(x@)),
        y is Some ==> final(w)@.len() == state_len(ints(b@), ints(a@))
            && (ints(y->0@), ints(final(w)@)) == run(trim_zeros_front(ints(b@)), trim_zeros_front(ints(a@)),
                resize_zeros(ints(old(w)@), state_len(ints(b@), ints(a@))), ints(x@)),
        y is None ==> final(w)@ == old(w)@,
{
    let bt: Vec<i64> = trim_front(b);
    let at: Vec<i64> = trim_front(a);
    let ghost bi = ints(bt@);
    let ghost ai = ints(at@);
    proof {
        crate::quantities::polynomial::euclid::lemma_trim_idempotent(ints(b@));
        crate::quantities::polynomial::euclid::lemma_trim_idempotent(ints(a@));
    }
    let n: usize = if b.len() < a.len() { a.len() } else { b.len() };
    let nw: usize = if n == 0 { 0 } else { n - 1 };
    let mut wc: Vec<i64> = resize_with_zeros(w.as_slice(), nw);
    let ghost w_init = ints(wc@);
    let ghost xs = ints(x@);
    proof { lemma_run_state_len(bi, ai, w_init, xs); }
    let mut y: Vec<i64> = Vec::new();
    let mut i: usize = 0;
    assert(xs.skip(0) =~= xs);
    assert(ints(y@) + run(bi, ai, w_init, xs).0 =~= run(bi, ai, w_init, xs).0);
    while i < x.len()
        invariant
            bi == ints(bt@),
            ai == ints(at@),
            bi == trim_zeros_front(bi),
            ai == trim_zeros_front(ai),
            xs == ints(x@),
            i <= x@.len(),
            bi == trim_zeros_front(ints(b@)),
            ai == trim_zeros_front(ints(a@)),
            w_init == resize_zeros(ints(old(w)@), state_len(ints(b@), ints(a@))),
            w_init.len() == state_len(ints(b@), ints(a@)),
            run(bi, ai, w_init, xs).1.len() == w_init.len(),
            run_fits(bi, ai, w_init, xs) == run_fits(bi, ai, ints(wc@), xs.skip(i as int)),
            run(bi, ai, w_init, xs) == (ints(y@) + run(bi, ai, ints(wc@), xs.skip(i as int)).0,
                run(bi, ai, ints(wc@), xs.skip(i as int)).1),
        decreases x@.len() - i,
    {
        let ghost rest_xs = xs.skip(i as int);
        assert(rest_xs[0] == x@[i as int]);
        assert(rest_xs.drop_first() =~= xs.skip(i + 1));
        let v: i64 = match filter_sample_checked(bt.as_slice(), at.as_slice(), &mut wc, x[i]) {
            Some(v) => v,
            None => {
                assert(!run_fits(bi, ai, ints(wc@), rest_xs));
                return None;
            },
        };
        let ghost y_old = ints(y@);
        proof { lemma_ints_push(y@, v); }
        y.push(v);
        assert(y_old + (seq![v as int] + run(bi, ai, ints(wc@), xs.skip(i + 1)).0)
            =~= ints(y@) + run(bi, ai, ints(wc@), xs.skip(i + 1)).0);
        i += 1;
    }
    assert(xs.skip(i as int) =~= Seq::<int>::empty());
    assert(ints(y@) + Seq::<int>::empty() =~= ints(y@));
    *w = wc;
    Some(y)
}

/// The coefficient rows of `b` as integer sequences.
pub open spec fn int_rows(b: Seq<Vec<i64>>) -> Seq<Seq<int>> {
    Seq::new(b.len(), |k: int| ints(b[k]@))
}

/// Where the state of numerator row `k` begins: the states of the rows before
/// it, one after another.
pub open spec fn state_offset(bs: Seq<Seq<int>>, a: Seq<int>, k: int) -> int
    decreases k,
{
    if k <= 0 { 0 } else { state_offset(bs, a, k - 1) + state_len(bs[k - 1], a) }
}

/// The state of numerator row `k` within the whole state `w`.
pub open spec fn row_state(bs: Seq<Seq<int>>, a: Seq<int>, w: Seq<int>, k: int) -> Seq<int> {
    w.subrange(state_offset(bs, a, k), state_offset(bs, a, k + 1))
}

/// The state, cut or lengthened with zeros to hold one state per numerator row.
pub open spec fn sized_state(bs: Seq<Seq<int>>, a: Seq<int>, w: Seq<int>) -> Seq<int> {
    resize_zeros(w, state_offset(bs, a, bs.len() as int))
}

/// Outputs and final state of numerator row `k` filtering `xs`.
pub open spec fn row_run(bs: Seq<Seq<int>>, a: Seq<int>, w: Seq<int>, xs: Seq<int>, k: int) -> (Seq<int>, Seq<int>) {
    run(trim_zeros_front(bs[k]), trim_zeros_front(a), row_state(bs, a, sized_state(bs, a, w), k), xs)
}

/// State offsets never decrease.
pub proof fn lemma_state_offset_mono(bs: Seq<Seq<int>>, a: Seq<int>, j: int, k: int)
    requires
        0 <= j <= k,
    ensures
        state_offset(bs, a, j) <= state_offset(bs, a, k),
    decreases k,
{
    if j < k {
        lemma_state_offset_mono(bs, a, j, k - 1);
    }
}

/// Appending the state of numerator row `k` to the states of the rows before
/// it keeps those states and places the new one at row `k`.
proof fn lemma_append_row_state(bs: Seq<Seq<int>>, a: Seq<int>, prev: Seq<int>, seg: Seq<int>, k: int)
    requires
        0 <= k,
        prev.len() == state_offset(bs, a, k),
        seg.len() == state_len(bs[k], a),
    ensures
        forall|j: int| 0 <= j < k ==> #[trigger] row_state(bs, a, prev + seg, j) == row_state(bs, a, prev, j),
        row_state(bs, a, prev + seg, k) == seg,
{
    assert forall|j: int| 0 <= j < k implies #[trigger] row_state(bs, a, prev + seg, j) == row_state(bs, a, prev, j) by {
        lemma_state_offset_mono(bs, a, j + 1, k);
        lemma_state_offset_mono(bs, a, j, j + 1);
        lemma_state_offset_mono(bs, a, 0, j);
        assert(row_state(bs, a, prev + seg, j) =~= row_state(bs, a, prev, j));
    }
    assert(row_state(bs, a, prev + seg, k) =~= seg);
}

/// The samples `s[lo..hi]`.
fn copy_range(s: &[i64], lo: usize, hi: usize) -> (r: Vec<i64>)
    requires
        lo <= hi <= s@.len(),
    ensures
        r@ == s@.subrange(lo as int, hi as int),
{
    let mut r: Vec<i64> = Vec::new();
    let mut i: usize = lo;
    while i < hi
        invariant
            lo <= i <= hi <= s@.len(),
            r@ == s@.subrange(lo as int, i as int),
        decreases hi - i,
    {
        r.push(s[i]);
        i += 1;
        assert(r@ =~= s@.subrange(lo as int, i as int));
    }
    r
}

/// Filters `x` through `b / a` from the state `w[off..off + nk]`: the
/// outputs and the final state.
fn filter_segment(b: &[i64], a: &[i64], w: &[i64], off: usize, nk: usize, x: &[i64]) -> (r: (Vec<i64>, Vec<i64>))
    requires
        off + nk <= w@.len(),
        run_fits(trim_zeros_front(ints(b@)), trim_zeros_front(ints(a@)), ints(w@).subrange(off as int, off + nk),
            ints(x@)),
    ensures
        (ints(r.0@), ints(r.1@)) == run(trim_zeros_front(ints(b@)), trim_zeros_front(ints(a@)),
            ints(w@).subrange(off as int, off + nk), ints(x@)),
        r.1@.len() == nk,
{
    let wl: usize = w.len();
    let mut seg: Vec<i64> = copy_range(w, off, off + nk);
    assert(ints(seg@) =~= ints(w@).subrange(off as int, off + nk));
    let y: Vec<i64> = filter_from_state(b, a, &mut seg, x);
    proof {
        lemma_run_state_len(trim_zeros_front(ints(b@)), trim_zeros_front(ints(a@)),
            ints(w@).subrange(off as int, off + nk), ints(x@));
    }
    (y, seg)
}

/// Appends the samples of `s` to `v`.
fn append_all(v: &mut Vec<i64>, s: &[i64])
    ensures
        final(v)@ == old(v)@ + s@,
{
    let ghost prev = v@;
    let mut i: usize = 0;
    while i < s.len()
        invariant
            i <= s@.len(),
            v@ == prev + s@.subrange(0, i as int),
        decreases s@.len() - i,
    {
        v.push(s[i]);
        i += 1;
        assert(v@ =~= prev + s@.subrange(0, i as int));
    }
    assert(s@.subrange(0, s@.len() as int) =~= s@);
}

/// Filters the samples `x` through every numerator row of `b` over the common
/// denominator `a`, one output row per numerator row. The state `w` holds the
/// rows' states one after another; it is first cut or lengthened with zeros
/// to their total length, and the final states are left in it.
#[verifier::rlimit(30)]
pub fn filter_mut(b: &Vec<Vec<i64>>, a: &[i64], w: &mut Vec<i64>, x: &[i64]) -> (y: Vec<Vec<i64>>)
    requires
        state_offset(int_rows(b@), ints(a@), b@.len() as int) <= usize::MAX,
        forall|k: int| 0 <= k < b@.len() ==> run_fits(trim_zeros_front(#[trigger] int_rows(b@)[k]),
            trim_zeros_front(ints(a@)), row_state(int_rows(b@), ints(a@), sized_state(int_rows(b@), ints(a@),
            ints(old(w)@)), k), ints(x@)),
    ensures
        y@.len() == b@.len(),
        final(w)@.len() == state_offset(int_rows(b@), ints(a@), b@.len() as int),
        forall|k: int| 0 <= k < b@.len() ==> ints(#[trigger] y@[k]@)
            == row_run(int_rows(b@), ints(a@), ints(old(w)@), ints(x@), k).0,
        forall|k: int| 0 <= k < b@.len() ==> #[trigger] row_state(int_rows(b@), ints(a@), ints(final(w)@), k)
            == row_run(int_rows(b@), ints(a@), ints(old(w)@), ints(x@), k).1,
{
    let ghost bs = int_rows(b@);
    let ghost ai = ints(a@);
    let ghost w_old = ints(w@);
    let ghost xs = ints(x@);
    let rows: usize = b.len();
    let mut total: usize = 0;
    let mut k: usize = 0;
    while k < rows
        invariant
            rows == b@.len(),
            bs == int_rows(b@),
            ai == ints(a@),
            k <= rows,
            total == state_offset(bs, ai, k as int),
            state_offset(bs, ai, rows as int) <= usize::MAX,
        decreases rows - k,
    {
        proof { lemma_state_offset_mono(bs, ai, k + 1, rows as int); }
        let lb: usize = b[k].len();
        let n: usize = if lb < a.len() { a.len() } else { lb };
        let nk: usize = if n == 0 { 0 } else { n - 1 };
        assert(bs[k as int].len() == lb);
        total = total + nk;
        k += 1;
    }
    let w0: Vec<i64> = resize_with_zeros(w.as_slice(), total);
    let ghost ws = ints(w0@);
    assert(ws == sized_state(bs, ai, w_old));
    let mut out: Vec<Vec<i64>> = Vec::new();
    let mut neww: Vec<i64> = Vec::new();
    let mut off: usize = 0;
    let mut k: usize = 0;
    while k < rows
        invariant
            rows == b@.len(),
            bs == int_rows(b@),
            ai == ints(a@),
            xs == ints(x@),
            ws == ints(w0@),
            ws == sized_state(bs, ai, w_old),
            total == state_offset(bs, ai, rows as int),
            w0@.len() == total,
            forall|j: int| 0 <= j < rows ==> run_fits(trim_zeros_front(#[trigger] bs[j]), trim_zeros_front(ai),
                row_state(bs, ai, ws, j), xs),
            k <= rows,
            off == state_offset(bs, ai, k as int),
            out@.len() == k,
            neww@.len() == off,
            forall|j: int| 0 <= j < k ==> ints(#[trigger] out@[j]@) == row_run(bs, ai, w_old, xs, j).0,
            forall|j: int| 0 <= j < k ==> #[trigger] row_state(bs, ai, ints(neww@), j) == row_run(bs, ai, w_old, xs, j).1,
        decreases rows - k,
    {
        proof {
            lemma_state_offset_mono(bs, ai, k + 1, rows as int);
        }
        let lb: usize = b[k].len();
        let n: usize = if lb < a.len() { a.len() } else { lb };
        let nk: usize = if n == 0 { 0 } else { n - 1 };
        assert(bs[k as int].len() == lb);
        assert(state_offset(bs, ai, k + 1) == off + nk);
        assert(ints(w0@).subrange(off as int, off + nk) == row_state(bs, ai, ws, k as int));
        let (yk, seg) = filter_segment(b[k].as_slice(), a, w0.as_slice(), off, nk, x);
        assert(ints(seg@) == row_run(bs, ai, w_old, xs, k as int).1);
        out.push(yk);
        let ghost prev = neww@;
        append_all(&mut neww, seg.as_slice());
        proof {
            assert(ints(neww@) =~= ints(prev) + ints(seg@));
            lemma_append_row_state(bs, ai, ints(prev), ints(seg@), k as int);
        }
        assert forall|j: int| 0 <= j <= k implies ints(#[trigger] out@[j]@) == row_run(bs, ai, w_old, xs, j).0 by {
            if j == k { assert(out@[j] == yk); }
        }
        off = off + nk;
        k += 1;
    }
    *w = neww;
    out
}

/// Each numerator row filters as `filter_row` would on its own: row `k` of
/// `filter_mut` gives the outputs and final state of `filter_row` on row `k`,
/// the denominator, and row `k`'s part of the sized state.
pub proof fn lemma_filter_mut_rows_are_filter_rows(bs: Seq<Seq<int>>, a: Seq<int>, w: Seq<int>, xs: Seq<int>, k: int)
    requires
        0 <= k < bs.len(),
    ensures
        row_run(bs, a, w, xs, k) == run(trim_zeros_front(bs[k]), trim_zeros_front(a),
            resize_zeros(row_state(bs, a, sized_state(bs, a, w), k), state_len(bs[k], a)), xs),
{
    lemma_state_offset_mono(bs, a, 0, k);
    lemma_state_offset_mono(bs, a, k + 1, bs.len() as int);
    let seg = row_state(bs, a, sized_state(bs, a, w), k);
    assert(seg.len() == state_len(bs[k], a));
    lemma_resize_own_len(seg);
}

// ---------------------------------------------------------------------------
// Carrying the state over, and linearity
// ---------------------------------------------------------------------------

/// Filtering `x1` and then `x2` from the state that `x1` left gives the
/// outputs and the final state of filtering `x1` and `x2` joined.
pub proof fn lemma_run_concat(bt: Seq<int>, at: Seq<int>, w: Seq<int>, x1: Seq<int>, x2: Seq<int>)
    ensures
        run(bt, at, w, x1 + x2) == (run(bt, at, w, x1).0 + run(bt, at, run(bt, at, w, x1).1, x2).0,
            run(bt, at, run(bt, at, w, x1).1, x2).1),
    decreases x1.len(),
{
    if x1.len() == 0 {
        assert(x1 + x2 =~= x2);
        assert(run(bt, at, w, x1).0 + run(bt, at, w, x2).0 =~= run(bt, at, w, x2).0);
    } else {
        let w1 = next_state(at, w, x1[0]);
        assert((x1 + x2)[0] == x1[0]);
        assert((x1 + x2).drop_first() =~= x1.drop_first() + x2);
        lemma_run_concat(bt, at, w1, x1.drop_first(), x2);
        let mid = run(bt, at, w1, x1.drop_first()).1;
        assert(seq![output_value(bt, at, w, x1[0])] + (run(bt, at, w1, x1.drop_first()).0
            + run(bt, at, mid, x2).0) =~= (seq![output_value(bt, at, w, x1[0])]
            + run(bt, at, w1, x1.drop_first()).0) + run(bt, at, mid, x2).0);
    }
}

/// A sequence cut or lengthened to its own length is itself.
pub proof fn lemma_resize_own_len(s: Seq<int>)
    ensures
        resize_zeros(s, s.len() as int) == s,
{
    assert(resize_zeros(s, s.len() as int) =~= s);
}

/// The state carries over exactly between calls: filtering `x1` and then `x2`
/// through `b / a`, each call sizing the state it is handed, gives the outputs
/// and the final state of one call on `x1` and `x2` joined.
pub proof fn lemma_filter_state_carries_over(b: Seq<int>, a: Seq<int>, w: Seq<int>, x1: Seq<int>, x2: Seq<int>)
    ensures
        ({
            let bt = trim_zeros_front(b);
            let at = trim_zeros_front(a);
            let n = state_len(b, a);
            let first = run(bt, at, resize_zeros(w, n), x1);
            let second = run(bt, at, resize_zeros(first.1, n), x2);
            run(bt, at, resize_zeros(w, n), x1 + x2) == (first.0 + second.0, second.1)
        }),
{
    let bt = trim_zeros_front(b);
    let at = trim_zeros_front(a);
    let n = state_len(b, a);
    let w0 = resize_zeros(w, n);
    lemma_run_concat(bt, at, w0, x1, x2);
    lemma_run_state_len(bt, at, w0, x1);
    lemma_resize_own_len(run(bt, at, w0, x1).1);
}

/// `α · s + β · t`, sample by sample.
pub open spec fn combine(alpha: int, s: Seq<int>, beta: int, t: Seq<int>) -> Seq<int> {
    Seq::new(s.len(), |i: int| alpha * s[i] + beta * t[i])
}

/// A dot product is linear in the state.
pub proof fn lemma_dot_linear(alpha: int, w1: Seq<int>, beta: int, w2: Seq<int>, c: Seq<int>, n: int)
    requires
        w1.len() == w2.len(),
        n <= w1.len(),
        n <= c.len(),
    ensures
        dot(combine(alpha, w1, beta, w2), c, n) == alpha * dot(w1, c, n) + beta * dot(w2, c, n),
    decreases n,
{
    if n > 0 {
        lemma_dot_linear(alpha, w1, beta, w2, c, n - 1);
        let (p, q, r) = (w1[n - 1], w2[n - 1], c[n - 1]);
        let (d1, d2) = (dot(w1, c, n - 1), dot(w2, c, n - 1));
        let (pr, qr) = (p * r, q * r);
        assert((alpha * p + beta * q) * r == alpha * pr + beta * qr) by (nonlinear_arith)
            requires pr == p * r, qr == q * r;
        assert(alpha * (d1 + pr) == alpha * d1 + alpha * pr) by (nonlinear_arith);
        assert(beta * (d2 + qr) == beta * d2 + beta * qr) by (nonlinear_arith);
    }
}

/// One step of the filter is linear in the state and the sample.
pub proof fn lemma_step_linear(bt: Seq<int>, at: Seq<int>, alpha: int, w1: Seq<int>, x1: int,
    beta: int, w2: Seq<int>, x2: int)
    requires
        w1.len() == w2.len(),
    ensures
        inner_value(at, combine(alpha, w1, beta, w2), alpha * x1 + beta * x2)
            == alpha * inner_value(at, w1, x1) + beta * inner_value(at, w2, x2),
        output_value(bt, at, combine(alpha, w1, beta, w2), alpha * x1 + beta * x2)
            == alpha * output_value(bt, at, w1, x1) + beta * output_value(bt, at, w2, x2),
        next_state(at, combine(alpha, w1, beta, w2), alpha * x1 + beta * x2)
            == combine(alpha, next_state(at, w1, x1), beta, next_state(at, w2, x2)),
{
    let w = combine(alpha, w1, beta, w2);
    let f = feedback(at);
    let r = rest(bt);
    let na = min_len(f.len() as int, w1.len() as int);
    let nb = min_len(r.len() as int, w1.len() as int);
    lemma_dot_linear(alpha, w1, beta, w2, f, na);
    lemma_dot_linear(alpha, w1, beta, w2, r, nb);
    let (d1, d2) = (dot(w1, f, na), dot(w2, f, na));
    assert(alpha * x1 + beta * x2 - (alpha * d1 + beta * d2) == alpha * (x1 - d1) + beta * (x2 - d2))
        by (nonlinear_arith);
    assert(w.len() == w1.len());
    let (i1, i2) = (inner_value(at, w1, x1), inner_value(at, w2, x2));
    let l = lead(bt);
    assert((alpha * i1 + beta * i2) * l == alpha * (i1 * l) + beta * (i2 * l)) by (nonlinear_arith);
    let (e1, e2) = (dot(w1, r, nb), dot(w2, r, nb));
    assert(alpha * (i1 * l) + beta * (i2 * l) + (alpha * e1 + beta * e2)
        == alpha * (i1 * l + e1) + beta * (i2 * l + e2)) by (nonlinear_arith);
    assert(inner_value(at, w, alpha * x1 + beta * x2) == alpha * i1 + beta * i2);
    if w1.len() > 1 {
        assert(next_state(at, w, alpha * x1 + beta * x2)
            =~= combine(alpha, next_state(at, w1, x1), beta, next_state(at, w2, x2)));
    }
}

/// Filtering is linear in the state and the samples: filtering `α · x1 + β · x2`
/// from the state `α · w1 + β · w2` gives `α` times the outputs and final
/// state from `w1` and `x1` plus `β` times those from `w2` and `x2`.
pub proof fn lemma_run_linear(bt: Seq<int>, at: Seq<int>, alpha: int, w1: Seq<int>, x1: Seq<int>,
    beta: int, w2: Seq<int>, x2: Seq<int>)
    requires
        w1.len() == w2.len(),
        x1.len() == x2.len(),
    ensures
        run(bt, at, combine(alpha, w1, beta, w2), combine(alpha, x1, beta, x2))
            == (combine(alpha, run(bt, at, w1, x1).0, beta, run(bt, at, w2, x2).0),
                combine(alpha, run(bt, at, w1, x1).1, beta, run(bt, at, w2, x2).1)),
    decreases x1.len(),
{
    let w = combine(alpha, w1, beta, w2);
    let x = combine(alpha, x1, beta, x2);
    lemma_run_len(bt, at, w1, x1);
    lemma_run_len(bt, at, w2, x2);
    if x1.len() == 0 {
        assert(combine(alpha, run(bt, at, w1, x1).0, beta, run(bt, at, w2, x2).0) =~= Seq::<int>::empty());
    } else {
        lemma_step_linear(bt, at, alpha, w1, x1[0], beta, w2, x2[0]);
        let n1 = next_state(at, w1, x1[0]);
        let n2 = next_state(at, w2, x2[0]);
        assert(x.drop_first() =~= combine(alpha, x1.drop_first(), beta, x2.drop_first()));
        lemma_next_state_len(at, w1, x1[0]);
        lemma_next_state_len(at, w2, x2[0]);
        lemma_run_linear(bt, at, alpha, n1, x1.drop_first(), beta, n2, x2.drop_first());
        lemma_run_len(bt, at, n1, x1.drop_first());
        lemma_run_len(bt, at, n2, x2.drop_first());
        assert(run(bt, at, w, x).0 =~= combine(alpha, run(bt, at, w1, x1).0, beta, run(bt, at, w2, x2).0));
    }
}

/// One step keeps the length of the state.
pub proof fn lemma_next_state_len(at: Seq<int>, w: Seq<int>, x: int)
    ensures
        next_state(at, w, x).len() == w.len(),
{
}

/// A filter that starts from a zero state is linear: filtering
/// `α · x1 + β · x2` through `b / a` gives `α` times the outputs for `x1` plus
/// `β` times the outputs for `x2`, and likewise for the final states.
pub proof fn lemma_filter_linear_from_zero(b: Seq<int>, a: Seq<int>, alpha: int, x1: Seq<int>, beta: int,
    x2: Seq<int>)
    requires
        x1.len() == x2.len(),
    ensures
        ({
            let bt = trim_zeros_front(b);
            let at = trim_zeros_front(a);
            let z = resize_zeros(Seq::empty(), state_len(b, a));
            run(bt, at, z, combine(alpha, x1, beta, x2))
                == (combine(alpha, run(bt, at, z, x1).0, beta, run(bt, at, z, x2).0),
                    combine(alpha, run(bt, at, z, x1).1, beta, run(bt, at, z, x2).1))
        }),
{
    let bt = trim_zeros_front(b);
    let at = trim_zeros_front(a);
    let z = resize_zeros(Seq::empty(), state_len(b, a));
    assert(combine(alpha, z, beta, z) =~= z);
    lemma_run_linear(bt, at, alpha, z, x1, beta, z, x2);
}

// ---------------------------------------------------------------------------
// The difference equation
// ---------------------------------------------------------------------------

/// `Σ_{i < n} g(i)`.
pub open spec fn sum(n: int, g: spec_fn(int) -> int) -> int
    decreases n,
{
    if n <= 0 { 0 } else { sum(n - 1, g) + g(n - 1) }
}

/// Sample `i` of `s`, or zero outside it.
pub open spec fn zext(s: Seq<int>, i: int) -> int {
    if 0 <= i < s.len() { s[i] } else { 0 }
}

/// The terms `c[j] · s[n - j]`.
pub open spec fn wterm(c: Seq<int>, s: Seq<int>, n: int) -> spec_fn(int) -> int {
    |j: int| c[j] * zext(s, n - j)
}

/// `Σ_j c[j] · s[n - j]`, samples outside `s` being zero.
pub open spec fn wsum(c: Seq<int>, s: Seq<int>, n: int) -> int {
    sum(c.len() as int, wterm(c, s, n))
}

/// The terms `w[k] · c[k]`.
pub open spec fn dterm(w: Seq<int>, c: Seq<int>) -> spec_fn(int) -> int {
    |k: int| w[k] * c[k]
}

/// The terms of `g` from index one on.
pub open spec fn shifted(g: spec_fn(int) -> int) -> spec_fn(int) -> int {
    |k: int| g(k + 1)
}

/// Row `j` of a double sum: the terms `f(j, k)`.
pub open spec fn row_fn(f: spec_fn(int, int) -> int, j: int) -> spec_fn(int) -> int {
    |k: int| f(j, k)
}

/// Column `k` of a double sum: the terms `f(j, k)`.
pub open spec fn col_fn(f: spec_fn(int, int) -> int, k: int) -> spec_fn(int) -> int {
    |j: int| f(j, k)
}

/// The row sums `Σ_k f(j, k)` of a double sum.
pub open spec fn row_sums(f: spec_fn(int, int) -> int, b: int) -> spec_fn(int) -> int {
    |j: int| sum(b, row_fn(f, j))
}

/// The column sums `Σ_j f(j, k)` of a double sum.
pub open spec fn col_sums(f: spec_fn(int, int) -> int, a: int) -> spec_fn(int) -> int {
    |k: int| sum(a, col_fn(f, k))
}

/// The sum of two term sequences.
pub open spec fn plus(g: spec_fn(int) -> int, h: spec_fn(int) -> int) -> spec_fn(int) -> int {
    |i: int| g(i) + h(i)
}

/// The intermediate values of filtering `xs` from the state `w`.
pub open spec fn inner_run(at: Seq<int>, w: Seq<int>, xs: Seq<int>) -> Seq<int>
    decreases xs.len(),
{
    if xs.len() == 0 {
        Seq::empty()
    } else {
        seq![inner_value(at, w, xs[0])] + inner_run(at, next_state(at, w, xs[0]), xs.drop_first())
    }
}

/// Sums agree where their terms agree.
pub proof fn lemma_sum_ext(n: int, g: spec_fn(int) -> int, h: spec_fn(int) -> int)
    requires
        forall|i: int| 0 <= i < n ==> #[trigger] g(i) == h(i),
    ensures
        sum(n, g) == sum(n, h),
    decreases n,
{
    if n > 0 {
        lemma_sum_ext(n - 1, g, h);
    }
}

/// A sum of sums is the sum of the two sums.
pub proof fn lemma_sum_add(n: int, g: spec_fn(int) -> int, h: spec_fn(int) -> int)
    ensures
        sum(n, plus(g, h)) == sum(n, g) + sum(n, h),
    decreases n,
{
    if n > 0 {
        lemma_sum_add(n - 1, g, h);
        assert(plus(g, h)(n - 1) == g(n - 1) + h(n - 1));
    }
}

/// A sum of zeros is zero.
pub proof fn lemma_sum_zero(n: int, g: spec_fn(int) -> int)
    requires
        forall|i: int| 0 <= i < n ==> #[trigger] g(i) == 0,
    ensures
        sum(n, g) == 0,
    decreases n,
{
    if n > 0 {
        lemma_sum_zero(n - 1, g);
    }
}

/// A double sum can be taken in either order.
pub proof fn lemma_sum_swap(a: int, b: int, f: spec_fn(int, int) -> int)
    ensures
        sum(a, row_sums(f, b)) == sum(b, col_sums(f, a)),
    decreases a,
{
    if a <= 0 {
        assert forall|k: int| 0 <= k < b implies #[trigger] col_sums(f, a)(k) == 0 by {
            assert(col_sums(f, a)(k) == sum(a, col_fn(f, k)));
        }
        lemma_sum_zero(b, col_sums(f, a));
    } else {
        lemma_sum_swap(a - 1, b, f);
        assert(sum(a, row_sums(f, b)) == sum(a - 1, row_sums(f, b)) + row_sums(f, b)(a - 1));
        let h = row_fn(f, a - 1);
        lemma_sum_add(b, col_sums(f, a - 1), h);
        assert forall|k: int| 0 <= k < b implies #[trigger] col_sums(f, a)(k) == plus(col_sums(f, a - 1), h)(k) by {
            assert(col_sums(f, a)(k) == sum(a, col_fn(f, k)));
            assert(sum(a, col_fn(f, k)) == sum(a - 1, col_fn(f, k)) + col_fn(f, k)(a - 1));
            assert(col_sums(f, a - 1)(k) == sum(a - 1, col_fn(f, k)));
        }
        lemma_sum_ext(b, col_sums(f, a), plus(col_sums(f, a - 1), h));
        assert(row_sums(f, b)(a - 1) == sum(b, h));
    }
}

/// The first term of a sum can be split off.
pub proof fn lemma_sum_first(n: int, g: spec_fn(int) -> int)
    requires
        n >= 1,
    ensures
        sum(n, g) == g(0) + sum(n - 1, shifted(g)),
    decreases n,
{
    assert(sum(n, g) == sum(n - 1, g) + g(n - 1));
    if n > 1 {
        lemma_sum_first(n - 1, g);
        assert(sum(n - 1, shifted(g)) == sum(n - 2, shifted(g)) + shifted(g)(n - 2));
        assert(shifted(g)(n - 2) == g(n - 1));
    } else {
        assert(sum(0, g) == 0);
        assert(sum(0, shifted(g)) == 0);
    }
}

/// `dot` is a sum.
pub proof fn lemma_dot_sum(w: Seq<int>, c: Seq<int>, n: int)
    ensures
        dot(w, c, n) == sum(n, dterm(w, c)),
    decreases n,
{
    if n > 0 {
        lemma_dot_sum(w, c, n - 1);
        assert(sum(n, dterm(w, c)) == sum(n - 1, dterm(w, c)) + dterm(w, c)(n - 1));
    }
}

/// The state holds the last intermediate values, most recent first.
pub open spec fn state_holds(w: Seq<int>, p: Seq<int>) -> bool {
    forall|k: int| 0 <= k < w.len() ==> #[trigger] w[k] == zext(p, p.len() - 1 - k)
}

/// With the history `p` held in the state `w`, `Σ_k c[k] · w[k]` for the
/// coefficients `c` after a leading `c0` makes, with `c0` times the value
/// `v0` that follows `p`, the weighted sum over `p` and `v0`.
pub proof fn lemma_step_sum(c0: int, c: Seq<int>, w: Seq<int>, p: Seq<int>, q: Seq<int>, v0: int)
    requires
        w.len() >= c.len(),
        state_holds(w, p),
        q.len() > p.len(),
        q[p.len() as int] == v0,
        forall|i: int| 0 <= i < p.len() ==> #[trigger] q[i] == p[i],
    ensures
        wsum(seq![c0] + c, q, p.len() as int) == c0 * v0 + dot(w, c, c.len() as int),
{
    let m = p.len() as int;
    let cc = seq![c0] + c;
    let g = wterm(cc, q, m);
    lemma_dot_sum(w, c, c.len() as int);
    lemma_sum_first(cc.len() as int, g);
    assert forall|k: int| 0 <= k < c.len() implies #[trigger] shifted(g)(k) == dterm(w, c)(k) by {
        assert(shifted(g)(k) == cc[k + 1] * zext(q, m - (k + 1)));
        assert(cc[k + 1] == c[k]);
        assert(zext(q, m - 1 - k) == zext(p, m - 1 - k));
        assert(w[k] == zext(p, m - 1 - k));
        let a = c[k];
        let b = w[k];
        assert(a * b == b * a) by (nonlinear_arith);
    }
    assert(cc.len() - 1 == c.len());
    lemma_sum_ext(c.len() as int, shifted(g), dterm(w, c));
    assert(g(0) == c0 * v0);
}

/// From a state holding the history `p`, every intermediate value solves the
/// feedback equation and every output is the numerator applied to the
/// intermediate values.
pub proof fn lemma_run_history(bt: Seq<int>, at: Seq<int>, w: Seq<int>, p: Seq<int>, xs: Seq<int>)
    requires
        w.len() >= 2,
        w.len() >= feedback(at).len(),
        w.len() >= rest(bt).len(),
        state_holds(w, p),
    ensures
        inner_run(at, w, xs).len() == xs.len(),
        run(bt, at, w, xs).0.len() == xs.len(),
        forall|n: int| 0 <= n < xs.len() ==>
            #[trigger] wsum(seq![1int] + feedback(at), p + inner_run(at, w, xs), p.len() + n) == xs[n],
        forall|n: int| 0 <= n < xs.len() ==>
            #[trigger] run(bt, at, w, xs).0[n] == wsum(bt, p + inner_run(at, w, xs), p.len() + n),
    decreases xs.len(),
{
    if xs.len() > 0 {
        let f = feedback(at);
        let af = seq![1int] + f;
        let r = rest(bt);
        let v0 = inner_value(at, w, xs[0]);
        let w1 = next_state(at, w, xs[0]);
        let p1 = p.push(v0);
        let xs1 = xs.drop_first();
        assert forall|k: int| 0 <= k < w1.len() implies #[trigger] w1[k] == zext(p1, p1.len() - 1 - k) by {
            if k >= 1 {
                assert(w1[k] == w[k - 1]);
            }
        }
        lemma_run_history(bt, at, w1, p1, xs1);
        let v = inner_run(at, w, xs);
        let v1 = inner_run(at, w1, xs1);
        assert(v == seq![v0] + v1);
        let q = p + v;
        assert(q =~= p1 + v1);
        let m = p.len() as int;
        assert(wsum(af, q, m) == xs[0]) by {
            lemma_step_sum(1, f, w, p, q, v0);
            assert(min_len(f.len() as int, w.len() as int) == f.len());
        }
        assert(run(bt, at, w, xs).0[0] == wsum(bt, q, m)) by {
            if bt.len() == 0 {
                assert(v0 * lead(bt) == 0) by (nonlinear_arith)
                    requires lead(bt) == 0;
                assert(wsum(bt, q, m) == 0);
                assert(dot(w, r, 0) == 0);
            } else {
                assert(bt =~= seq![bt[0]] + r);
                lemma_step_sum(bt[0], r, w, p, q, v0);
                assert(min_len(r.len() as int, w.len() as int) == r.len());
                assert(v0 * lead(bt) == bt[0] * v0) by (nonlinear_arith)
                    requires lead(bt) == bt[0];
            }
        }
        assert forall|n: int| 0 <= n < xs.len() implies
            #[trigger] wsum(af, q, m + n) == xs[n] by {
            if n >= 1 {
                assert(wsum(af, p1 + v1, p1.len() + (n - 1)) == xs1[n - 1]);
            }
        }
        assert forall|n: int| 0 <= n < xs.len() implies
            #[trigger] run(bt, at, w, xs).0[n] == wsum(bt, q, m + n) by {
            if n >= 1 {
                assert(run(bt, at, w1, xs1).0[n - 1] == wsum(bt, p1 + v1, p1.len() + (n - 1)));
            }
        }
    }
}

/// Every term of `g` times `c`.
pub open spec fn scaled(c: int, g: spec_fn(int) -> int) -> spec_fn(int) -> int {
    |i: int| c * g(i)
}

/// A factor common to every term comes out of a sum.
pub proof fn lemma_sum_scale(n: int, c: int, g: spec_fn(int) -> int)
    ensures
        sum(n, scaled(c, g)) == c * sum(n, g),
    decreases n,
{
    if n > 0 {
        lemma_sum_scale(n - 1, c, g);
        let s = sum(n - 1, g);
        let t = g(n - 1);
        assert(scaled(c, g)(n - 1) == c * t);
        assert(c * s + c * t == c * (s + t)) by (nonlinear_arith);
    }
}

/// A weighted sum that reaches only samples before the start is zero.
pub proof fn lemma_wsum_before(c: Seq<int>, s: Seq<int>, n: int)
    requires
        n < 0,
    ensures
        wsum(c, s, n) == 0,
{
    assert forall|j: int| 0 <= j < c.len() implies #[trigger] wterm(c, s, n)(j) == 0 by {
        assert(zext(s, n - j) == 0);
        assert(c[j] * 0 == 0);
    }
    lemma_sum_zero(c.len() as int, wterm(c, s, n));
}

/// The products `a[j] · b[k] · v[n - j - k]`.
pub open spec fn product_terms(a: Seq<int>, b: Seq<int>, v: Seq<int>, n: int) -> spec_fn(int, int) -> int {
    |j: int, k: int| a[j] * (b[k] * zext(v, n - j - k))
}

/// `Σ_j a[j] · s(n - j)` where `s(m) = Σ_k b[k] · v[m - k]`, as a double sum.
pub proof fn lemma_nested_wsum(a: Seq<int>, b: Seq<int>, v: Seq<int>, n: int, s: Seq<int>)
    requires
        forall|m: int| m <= n ==> #[trigger] zext(s, m) == wsum(b, v, m),
    ensures
        wsum(a, s, n) == sum(a.len() as int, row_sums(product_terms(a, b, v, n), b.len() as int)),
{
    let f = product_terms(a, b, v, n);
    assert forall|j: int| 0 <= j < a.len() implies
        #[trigger] wterm(a, s, n)(j) == row_sums(f, b.len() as int)(j) by {
        assert(zext(s, n - j) == wsum(b, v, n - j));
        lemma_sum_scale(b.len() as int, a[j], wterm(b, v, n - j));
        assert forall|k: int| 0 <= k < b.len() implies
            #[trigger] scaled(a[j], wterm(b, v, n - j))(k) == row_fn(f, j)(k) by {
            assert(n - j - k == (n - j) - k);
        }
        lemma_sum_ext(b.len() as int, scaled(a[j], wterm(b, v, n - j)), row_fn(f, j));
        assert(row_sums(f, b.len() as int)(j) == sum(b.len() as int, row_fn(f, j)));
    }
    lemma_sum_ext(a.len() as int, wterm(a, s, n), row_sums(f, b.len() as int));
}

/// Law: filtering from a zero state of at least two values, long enough for
/// both coefficient lists, solves the difference equation
/// `Σ_j â[j] · y[n - j] = Σ_k b[k] · x[n - k]`, where `b` is the trimmed
/// numerator and `â` is `1` followed by the feedback coefficients (the
/// trimmed denominator after its first coefficient, divided by it), samples
/// before the start being zero.
pub proof fn lemma_filter_difference_equation(bt: Seq<int>, at: Seq<int>, w: Seq<int>, xs: Seq<int>, n: int)
    requires
        w.len() >= 2,
        w.len() >= feedback(at).len(),
        w.len() >= rest(bt).len(),
        forall|k: int| 0 <= k < w.len() ==> #[trigger] w[k] == 0,
        0 <= n < xs.len(),
    ensures
        wsum(seq![1int] + feedback(at), run(bt, at, w, xs).0, n) == wsum(bt, xs, n),
{
    let af = seq![1int] + feedback(at);
    let ys = run(bt, at, w, xs).0;
    let p = Seq::<int>::empty();
    assert(state_holds(w, p));
    lemma_run_history(bt, at, w, p, xs);
    let v = inner_run(at, w, xs);
    assert(p + v =~= v);
    // The outputs and the samples, as sums over the intermediate values.
    assert forall|m: int| m <= n implies #[trigger] zext(ys, m) == wsum(bt, v, m) by {
        if m < 0 {
            lemma_wsum_before(bt, v, m);
        } else {
            assert(ys[m] == wsum(bt, p + v, p.len() + m));
        }
    }
    assert forall|m: int| m <= n implies #[trigger] zext(xs, m) == wsum(af, v, m) by {
        if m < 0 {
            lemma_wsum_before(af, v, m);
        } else {
            assert(wsum(af, p + v, p.len() + m) == xs[m]);
        }
    }
    lemma_nested_wsum(af, bt, v, n, ys);
    let f = product_terms(af, bt, v, n);
    lemma_sum_swap(af.len() as int, bt.len() as int, f);
    // Each column sum is b[k] times the feedback equation at n - k.
    assert forall|k: int| 0 <= k < bt.len() implies
        #[trigger] col_sums(f, af.len() as int)(k) == wterm(bt, xs, n)(k) by {
        lemma_sum_scale(af.len() as int, bt[k], wterm(af, v, n - k));
        assert forall|j: int| 0 <= j < af.len() implies
            #[trigger] col_fn(f, k)(j) == scaled(bt[k], wterm(af, v, n - k))(j) by {
            let x = af[j];
            let y = bt[k];
            let z = zext(v, n - j - k);
            assert(n - k - j == n - j - k);
            assert(x * (y * z) == y * (x * z)) by (nonlinear_arith);
        }
        lemma_sum_ext(af.len() as int, col_fn(f, k), scaled(bt[k], wterm(af, v, n - k)));
        assert(col_sums(f, af.len() as int)(k) == sum(af.len() as int, col_fn(f, k)));
        assert(zext(xs, n - k) == wsum(af, v, n - k));
    }
    lemma_sum_ext(bt.len() as int, col_sums(f, af.len() as int), wterm(bt, xs, n));
}

/// The first `m` terms `b[j] · x[n - j]` sum to the convolution sum over `j < m`.
pub proof fn lemma_wsum_prefix_conv(b: Seq<int>, x: Seq<int>, n: int, m: int)
    requires
        0 <= n < x.len(),
        0 <= m <= b.len(),
        m <= n + 1,
    ensures
        sum(m, wterm(b, x, n)) == conv_sum(x, b, n, 0, m),
    decreases m,
{
    if m > 0 {
        lemma_wsum_prefix_conv(b, x, n, m - 1);
        let p = b[m - 1];
        let q = x[n - (m - 1)];
        assert(wterm(b, x, n)(m - 1) == p * q);
        assert(p * q == q * p) by (nonlinear_arith);
    }
}

/// Terms that reach before the first sample add nothing.
pub proof fn lemma_wsum_tail_zero(b: Seq<int>, x: Seq<int>, n: int, m: int)
    requires
        0 <= n,
        n + 1 <= m <= b.len(),
    ensures
        sum(m, wterm(b, x, n)) == sum(n + 1, wterm(b, x, n)),
    decreases m,
{
    if m > n + 1 {
        lemma_wsum_tail_zero(b, x, n, m - 1);
        assert(zext(x, n - (m - 1)) == 0);
        assert(b[m - 1] * 0 == 0);
    }
}

/// Law: filtering from a zero state of at least two values through the
/// numerator `b` alone (the denominator `[1]`) gives the leading samples of
/// the convolution of the row with `b`.
pub proof fn lemma_fir_filter_is_convolution(bt: Seq<int>, w: Seq<int>, xs: Seq<int>, n: int)
    requires
        w.len() >= 2,
        w.len() >= rest(bt).len(),
        forall|k: int| 0 <= k < w.len() ==> #[trigger] w[k] == 0,
        0 <= n < xs.len(),
        n < conv(xs, bt).len(),
    ensures
        run(bt, seq![1int], w, xs).0[n] == conv(xs, bt)[n],
{
    let at = seq![1int];
    assert(feedback(at) =~= Seq::<int>::empty());
    lemma_filter_difference_equation(bt, at, w, xs, n);
    let ys = run(bt, at, w, xs).0;
    lemma_run_len(bt, at, w, xs);
    let af = seq![1int] + feedback(at);
    assert(af =~= seq![1int]);
    assert(wsum(af, ys, n) == ys[n]) by {
        assert(sum(1, wterm(af, ys, n)) == sum(0, wterm(af, ys, n)) + wterm(af, ys, n)(0));
        assert(wterm(af, ys, n)(0) == 1 * zext(ys, n));
    }
    // The right side is the convolution coefficient.
    let m = bt.len() as int;
    let hi = conv_hi(m, n);
    assert(conv_lo(xs.len() as int, n) == 0);
    if m <= n + 1 {
        lemma_wsum_prefix_conv(bt, xs, n, m);
        assert(hi == m);
    } else {
        lemma_wsum_tail_zero(bt, xs, n, m);
        lemma_wsum_prefix_conv(bt, xs, n, n + 1);
        assert(hi == n + 1);
    }
    assert(conv(xs, bt)[n] == conv_coef(xs, bt, n));
}

/// The state carries over exactly between calls of `filter_mut`: where `w1`
/// is the state that filtering `x1` from `w` leaves (as `filter_mut` states
/// it), filtering `x2` from `w1` continues every numerator row's outputs and
/// state as filtering `x1` and `x2` joined from `w` does.
pub proof fn lemma_filter_mut_state_carries_over(bs: Seq<Seq<int>>, a: Seq<int>, w: Seq<int>, w1: Seq<int>,
    x1: Seq<int>, x2: Seq<int>)
    requires
        w1.len() == state_offset(bs, a, bs.len() as int),
        forall|k: int| 0 <= k < bs.len() ==> #[trigger] row_state(bs, a, w1, k) == row_run(bs, a, w, x1, k).1,
    ensures
        forall|k: int| 0 <= k < bs.len() ==> #[trigger] row_run(bs, a, w, x1 + x2, k)
            == (row_run(bs, a, w, x1, k).0 + row_run(bs, a, w1, x2, k).0, row_run(bs, a, w1, x2, k).1),
{
    lemma_resize_own_len(w1);
    assert forall|k: int| 0 <= k < bs.len() implies #[trigger] row_run(bs, a, w, x1 + x2, k)
        == (row_run(bs, a, w, x1, k).0 + row_run(bs, a, w1, x2, k).0, row_run(bs, a, w1, x2, k).1) by {
        let bt = trim_zeros_front(bs[k]);
        let at = trim_zeros_front(a);
        let s0 = row_state(bs, a, sized_state(bs, a, w), k);
        assert(sized_state(bs, a, w1) == w1);
        lemma_run_concat(bt, at, s0, x1, x2);
    }
}

/// Filtering through every numerator row from a zero state is linear: each
/// row's outputs and final state for `α · x1 + β · x2` are `α` times those for
/// `x1` plus `β` times those for `x2`.
pub proof fn lemma_filter_mut_linear_from_zero(bs: Seq<Seq<int>>, a: Seq<int>, alpha: int, x1: Seq<int>, beta: int,
    x2: Seq<int>)
    requires
        x1.len() == x2.len(),
    ensures
        forall|k: int| 0 <= k < bs.len() ==> #[trigger] row_run(bs, a, Seq::empty(), combine(alpha, x1, beta, x2), k)
            == (combine(alpha, row_run(bs, a, Seq::empty(), x1, k).0, beta, row_run(bs, a, Seq::empty(), x2, k).0),
                combine(alpha, row_run(bs, a, Seq::empty(), x1, k).1, beta, row_run(bs, a, Seq::empty(), x2, k).1)),
{
    assert forall|k: int| 0 <= k < bs.len() implies #[trigger] row_run(bs, a, Seq::empty(), combine(alpha, x1, beta, x2), k)
        == (combine(alpha, row_run(bs, a, Seq::empty(), x1, k).0, beta, row_run(bs, a, Seq::empty(), x2, k).0),
            combine(alpha, row_run(bs, a, Seq::empty(), x1, k).1, beta, row_run(bs, a, Seq::empty(), x2, k).1)) by {
        let z = row_state(bs, a, sized_state(bs, a, Seq::empty()), k);
        lemma_state_offset_mono(bs, a, 0, k);
        lemma_state_offset_mono(bs, a, k, k + 1);
        lemma_state_offset_mono(bs, a, k + 1, bs.len() as int);
        assert forall|i: int| 0 <= i < z.len() implies #[trigger] combine(alpha, z, beta, z)[i] == z[i] by {
            assert(z[i] == 0);
            assert(alpha * 0 + beta * 0 == 0) by (nonlinear_arith);
        }
        assert(combine(alpha, z, beta, z) =~= z);
        lemma_run_linear(trim_zeros_front(bs[k]), trim_zeros_front(a), alpha, z, x1, beta, z, x2);
    }
}

} // verus!
