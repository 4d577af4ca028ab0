//! Zero-phase (forward-backward) filtering.
//!
//! Before a row of samples is run forwards and backwards through a filter,
//! it is lengthened at both ends by an odd reflection about its end samples,
//! so that the transients of the filter settle outside the row; each pass
//! starts from the filter's steady state for the first sample it meets, and
//! after the two passes the reflected parts are cut off again. The steady
//! state rests on the gain `Σ b / Σ a`: where `Σ a` is not zero, the row is
//! filtered only where that gain is an integer, so that the start state is the
//! steady state itself.
use vstd::prelude::*;
use crate::arith::{ints, in_i64, lemma_ints_push, trim_zeros_front};
use crate::operations::filter_mut::{divides, filter_from_state, filter_row_checked, int_rows, lemma_resize_own_len,
    lemma_run_len, max_len, resize_with_zeros, resize_zeros, run, run_fits, sat_sub, state_len};
use crate::quantities::polynomial::euclid::{tdiv, div_trunc};

verus! {

/// How many samples are reflected at each end of a row of `xl` samples, for a
/// filter with `lb` numerator and `la` denominator coefficients: three times
/// the filter order, but never more than the row minus its end sample.
pub open spec fn reflection_len_spec(lb: int, la: int, xl: int) -> int {
    let lrefl = 3 * sat_sub(max_len(lb, la), 1);
    let cap = sat_sub(xl, 1);
    if lrefl < cap { lrefl } else { cap }
}

/// Law: a row is lengthened at each end by three times the order of the filter
/// (the longer of numerator and denominator, less one, the order that also
/// sizes the filter's state), as far as the row allows: never more than the
/// row less its end sample. The numerator and the denominator count alike.
pub proof fn lemma_reflection_len(b: Seq<int>, a: Seq<int>, xl: int)
    requires
        xl >= 1,
    ensures
        0 <= reflection_len_spec(b.len() as int, a.len() as int, xl) <= xl - 1,
        reflection_len_spec(b.len() as int, a.len() as int, xl) <= 3 * state_len(b, a),
        reflection_len_spec(b.len() as int, a.len() as int, xl) == 3 * state_len(b, a)
            || reflection_len_spec(b.len() as int, a.len() as int, xl) == xl - 1,
        reflection_len_spec(b.len() as int, a.len() as int, xl) == reflection_len_spec(a.len() as int, b.len() as int, xl),
{
}

/// The row `x` lengthened by `l` samples at each end: before it the samples
/// `2 x[0] - x[l], ..., 2 x[0] - x[1]`, after it the samples
/// `2 x[n-1] - x[n-2], ..., 2 x[n-1] - x[n-1-l]`.
pub open spec fn odd_extension(x: Seq<int>, l: int) -> Seq<int> {
    let n = x.len() as int;
    Seq::new((n + 2 * l) as nat, |i: int|
        if i < l {
            2 * x[0] - x[l - i]
        } else if i < l + n {
            x[i - l]
        } else {
            2 * x[n - 1] - x[n - 2 - (i - l - n)]
        })
}

/// Whether every sample of the odd extension of `x` by `l` fits in an `i64`.
pub open spec fn odd_extension_fits(x: Seq<int>, l: int) -> bool {
    forall|i: int| 0 <= i < odd_extension(x, l).len() ==> in_i64(#[trigger] odd_extension(x, l)[i])
}

/// The number of samples reflected at each end of a row of `xl` samples, for a
/// filter with `lb` numerator and `la` denominator coefficients.
pub fn reflection_len(lb: usize, la: usize, xl: usize) -> (l: usize)
    requires
        3 * sat_sub(max_len(lb as int, la as int), 1) <= usize::MAX,
    ensures
        l == reflection_len_spec(lb as int, la as int, xl as int),
{
    let n: usize = if lb < la { la } else { lb };
    let lrefl: usize = 3 * n.saturating_sub(1);
    let cap: usize = xl.saturating_sub(1);
    if lrefl < cap { lrefl } else { cap }
}

/// The row `x` lengthened at both ends by an odd reflection of `l` samples.
pub fn odd_extend(x: &[i64], l: usize) -> (v: Vec<i64>)
    requires
        1 <= x@.len(),
        l < x@.len(),
        odd_extension_fits(ints(x@), l as int),
    ensures
        ints(v@) == odd_extension(ints(x@), l as int),
{
    let ghost e = odd_extension(ints(x@), l as int);
    let n: usize = x.len();
    let first: i64 = x[0];
    let last: i64 = x[n - 1];
    let mut v: Vec<i64> = Vec::new();
    let mut i: usize = 0;
    while i < l
        invariant
            i <= l < n == x@.len(),
            first == x@[0],
            e == odd_extension(ints(x@), l as int),
            odd_extension_fits(ints(x@), l as int),
            ints(v@) == e.subrange(0, i as int),
        decreases l - i,
    {
        assert(e[i as int] == 2 * x@[0] - x@[l - i]);
        assert(in_i64(odd_extension(ints(x@), l as int)[i as int]));
        let s: i128 = 2 * (first as i128) - (x[l - i] as i128);
        proof { lemma_ints_push(v@, s as i64); }
        v.push(s as i64);
        assert(e.subrange(0, i + 1) =~= e.subrange(0, i as int).push(e[i as int]));
        i += 1;
    }
    let mut j: usize = 0;
    while j < n
        invariant
            l < n == x@.len(),
            e == odd_extension(ints(x@), l as int),
            ints(v@) == e.subrange(0, l + j),
            j <= n,
        decreases n - j,
    {
        assert(e[l + j] == x@[j as int]);
        proof { lemma_ints_push(v@, x@[j as int]); }
        v.push(x[j]);
        assert(e.subrange(0, l + j + 1) =~= e.subrange(0, l + j).push(e[l + j]));
        j += 1;
    }
    let mut t: usize = 0;
    while t < l
        invariant
            t <= l < n == x@.len(),
            last == x@[n - 1],
            e == odd_extension(ints(x@), l as int),
            odd_extension_fits(ints(x@), l as int),
            ints(v@) == e.subrange(0, l + n + t),
        decreases l - t,
    {
        assert(e[l + n + t] == 2 * x@[n - 1] - x@[n - 2 - t]);
        assert(in_i64(odd_extension(ints(x@), l as int)[l + n + t]));
        let s: i128 = 2 * (last as i128) - (x[n - 2 - t] as i128);
        proof { lemma_ints_push(v@, s as i64); }
        v.push(s as i64);
        assert(e.subrange(0, l + n + t + 1) =~= e.subrange(0, l + n + t).push(e[l + n + t]));
        t += 1;
    }
    assert(ints(v@) =~= e);
    v
}

/// The `xl` samples of `v` that follow its first `l` samples: the row, once
/// its reflected ends are cut off again.
pub fn trim_extension(v: &[i64], l: usize, xl: usize) -> (x: Vec<i64>)
    requires
        l + xl <= v@.len(),
    ensures
        x@ == v@.subrange(l as int, l + xl),
{
    let vl: usize = v.len();
    let mut x: Vec<i64> = Vec::new();
    let mut i: usize = 0;
    while i < xl
        invariant
            i <= xl,
            vl == v@.len(),
            l + xl <= vl,
            x@ == v@.subrange(l as int, l + i),
        decreases xl - i,
    {
        assert(l + i < v@.len());
        x.push(v[l + i]);
        i += 1;
        assert(x@ =~= v@.subrange(l as int, l + i));
    }
    x
}

/// Cutting the reflected ends off an odd extension gives back the row.
pub proof fn lemma_trim_odd_extension(x: Seq<int>, l: int)
    requires
        0 <= l,
    ensures
        odd_extension(x, l).len() == x.len() + 2 * l,
        odd_extension(x, l).subrange(l, l + x.len()) == x,
{
    assert(odd_extension(x, l).subrange(l, l + x.len()) =~= x);
}

/// The reflection is odd about the first sample: the sample `k` places before
/// the row and the sample `k` places into it average to the first sample.
pub proof fn lemma_odd_extension_symmetric(x: Seq<int>, l: int, k: int)
    requires
        1 <= k <= l,
        l < x.len(),
    ensures
        odd_extension(x, l)[l - k] + odd_extension(x, l)[l + k] == 2 * x[0],
        odd_extension(x, l)[l + x.len() - 1 + k] + odd_extension(x, l)[l + x.len() - 1 - k]
            == 2 * x[x.len() - 1],
{
}

// ---------------------------------------------------------------------------
// Forward-backward filtering of a row
// ---------------------------------------------------------------------------

/// `Σ_{j < k} s[j]`.
pub open spec fn prefix_sum(s: Seq<int>, k: int) -> int
    decreases k,
{
    if k <= 0 { 0 } else { prefix_sum(s, k - 1) + s[k - 1] }
}

/// `Σ_{j >= k} d[j]`.
pub open spec fn suffix_sum(d: Seq<int>, k: int) -> int
    decreases d.len() - k,
{
    if k >= d.len() { 0 } else { d[k] + suffix_sum(d, k + 1) }
}

/// The numerator and denominator, both lengthened with zeros to the longer
/// of their lengths.
pub open spec fn padded_pair(b: Seq<int>, a: Seq<int>) -> (Seq<int>, Seq<int>) {
    let n = max_len(b.len() as int, a.len() as int);
    (resize_zeros(b, n), resize_zeros(a, n))
}

/// The differences `b[j] - k · a[j]` of the padded coefficients, `k` being
/// the steady-state gain `Σ b / Σ a` (an exact quotient wherever a row is
/// filtered: see `steady_state_fits`).
pub open spec fn gain_residuals(b: Seq<int>, a: Seq<int>) -> Seq<int> {
    let (bb, aa) = padded_pair(b, a);
    let n = bb.len() as int;
    let kdc = tdiv(prefix_sum(bb, n), prefix_sum(aa, n));
    Seq::new(n as nat, |j: int| bb[j] - kdc * aa[j])
}

/// The state, per unit of input, in which the filter starts at its steady
/// state: the sums of the residuals from each coefficient on, or zeros where
/// the denominator sums to zero.
pub open spec fn steady_state(b: Seq<int>, a: Seq<int>) -> Seq<int> {
    let (bb, aa) = padded_pair(b, a);
    if prefix_sum(aa, aa.len() as int) == 0 {
        Seq::new(a.len(), |i: int| 0int)
    } else {
        let d = gain_residuals(b, a);
        Seq::new(d.len(), |k: int| suffix_sum(d, k))
    }
}

/// `s` scaled by `c`, cut or lengthened with zeros to `n` values.
pub open spec fn scaled_state(s: Seq<int>, c: int, n: int) -> Seq<int> {
    resize_zeros(Seq::new(s.len(), |i: int| s[i] * c), n)
}

/// The row after the forward pass, reversed.
pub open spec fn forward_pass(b: Seq<int>, a: Seq<int>, v: Seq<int>) -> Seq<int> {
    let (bb, aa) = padded_pair(b, a);
    let w = scaled_state(steady_state(b, a), v[0], state_len(b, a));
    run(trim_zeros_front(bb), trim_zeros_front(aa), w, v).0.reverse()
}

/// The row after the backward pass, in its own order.
pub open spec fn backward_pass(b: Seq<int>, a: Seq<int>, r: Seq<int>) -> Seq<int> {
    let (bb, aa) = padded_pair(b, a);
    let w = scaled_state(steady_state(b, a), r[r.len() - 1], state_len(b, a));
    run(trim_zeros_front(bb), trim_zeros_front(aa), w, r).0.reverse()
}

/// The row `x` filtered forwards and backwards through `b / a`.
pub open spec fn filtfilt_spec(b: Seq<int>, a: Seq<int>, x: Seq<int>) -> Seq<int> {
    if x.len() == 0 {
        Seq::empty()
    } else {
        let l = reflection_len_spec(b.len() as int, a.len() as int, x.len() as int);
        let v = odd_extension(x, l);
        let r = forward_pass(b, a, v);
        backward_pass(b, a, r).subrange(l, l + x.len())
    }
}

/// The steady-state gain is exact where `Σ a` is not zero, and every value
/// formed while computing the steady state fits in an `i64`.
pub open spec fn steady_state_fits(b: Seq<int>, a: Seq<int>) -> bool {
    let (bb, aa) = padded_pair(b, a);
    let n = bb.len() as int;
    let d = gain_residuals(b, a);
    &&& forall|k: int| 0 <= k <= n ==> in_i64(#[trigger] prefix_sum(bb, k))
    &&& forall|k: int| 0 <= k <= n ==> in_i64(#[trigger] prefix_sum(aa, k))
    &&& prefix_sum(aa, n) != 0 ==> {
        let kdc = tdiv(prefix_sum(bb, n), prefix_sum(aa, n));
        &&& !(prefix_sum(bb, n) == i64::MIN && prefix_sum(aa, n) == -1)
        &&& divides(prefix_sum(aa, n), prefix_sum(bb, n))
        &&& forall|j: int| 0 <= j < n ==> in_i64(kdc * #[trigger] aa[j]) && in_i64(bb[j] - kdc * aa[j])
        &&& forall|k: int| 0 <= k < n ==> in_i64(#[trigger] suffix_sum(d, k))
    }
}

/// Every division formed while filtering `x` forwards and backwards (the
/// steady-state gain and the feedback coefficients) is exact, every value
/// formed fits in an `i64`, and the reflection length fits in a `usize`.
pub open spec fn filtfilt_fits(b: Seq<int>, a: Seq<int>, x: Seq<int>) -> bool {
    let (bb, aa) = padded_pair(b, a);
    let si = steady_state(b, a);
    let l = reflection_len_spec(b.len() as int, a.len() as int, x.len() as int);
    let v = odd_extension(x, l);
    let r = forward_pass(b, a, v);
    &&& 3 * sat_sub(max_len(b.len() as int, a.len() as int), 1) <= usize::MAX
    &&& x.len() >= 1 ==> {
        &&& steady_state_fits(b, a)
        &&& odd_extension_fits(x, l)
        &&& forall|i: int| 0 <= i < si.len() ==> in_i64(#[trigger] si[i] * v[0])
        &&& run_fits(trim_zeros_front(bb), trim_zeros_front(aa),
            scaled_state(si, v[0], state_len(b, a)), v)
        &&& forall|i: int| 0 <= i < si.len() ==> in_i64(#[trigger] si[i] * r[r.len() - 1])
        &&& run_fits(trim_zeros_front(bb), trim_zeros_front(aa),
            scaled_state(si, r[r.len() - 1], state_len(b, a)), r)
    }
}

/// The samples of `s` in reverse order.
pub fn reversed(s: &[i64]) -> (r: Vec<i64>)
    ensures
        ints(r@) == ints(s@).reverse(),
{
    let n: usize = s.len();
    let mut r: Vec<i64> = Vec::new();
    let mut i: usize = 0;
    while i < n
        invariant
            n == s@.len(),
            i <= n,
            r@.len() == i,
            forall|k: int| 0 <= k < i ==> #[trigger] r@[k] == s@[n - 1 - k],
        decreases n - i,
    {
        r.push(s[n - 1 - i]);
        i += 1;
    }
    assert(ints(r@) =~= ints(s@).reverse());
    r
}

/// The sum of the coefficients of `s`.
fn coefficient_sum(s: &[i64]) -> (t: i64)
    requires
        forall|k: int| 0 <= k <= s@.len() ==> in_i64(#[trigger] prefix_sum(ints(s@), k)),
    ensures
        t == prefix_sum(ints(s@), s@.len() as int),
{
    let mut t: i64 = 0;
    let mut i: usize = 0;
    while i < s.len()
        invariant
            i <= s@.len(),
            forall|k: int| 0 <= k <= s@.len() ==> in_i64(#[trigger] prefix_sum(ints(s@), k)),
            t == prefix_sum(ints(s@), i as int),
        decreases s@.len() - i,
    {
        assert(in_i64(prefix_sum(ints(s@), i + 1)));
        t = t + s[i];
        i += 1;
    }
    t
}

/// The steady state, per unit of input, of the filter `bb / aa`, whose
/// coefficient lists have been padded to one length; `la` is the length of
/// the denominator before padding.
fn steady_state_exec(bb: &[i64], aa: &[i64], b: Ghost<Seq<int>>, a: Ghost<Seq<int>>, la: usize) -> (si: Vec<i64>)
    requires
        la == a@.len(),
        (ints(bb@), ints(aa@)) == padded_pair(b@, a@),
        steady_state_fits(b@, a@),
    ensures
        ints(si@) == steady_state(b@, a@),
{
    let n: usize = bb.len();
    let ghost pp = padded_pair(b@, a@);
    assert(ints(bb@) == pp.0 && ints(aa@) == pp.1);
    assert forall|k: int| 0 <= k <= aa@.len() implies in_i64(#[trigger] prefix_sum(ints(aa@), k)) by {
        assert(in_i64(prefix_sum(pp.1, k)));
    }
    assert forall|k: int| 0 <= k <= bb@.len() implies in_i64(#[trigger] prefix_sum(ints(bb@), k)) by {
        assert(in_i64(prefix_sum(pp.0, k)));
    }
    let sb: i64 = coefficient_sum(bb);
    let sa: i64 = coefficient_sum(aa);
    if sa == 0 {
        let mut si: Vec<i64> = Vec::new();
        let mut i: usize = 0;
        while i < la
            invariant
                i <= la,
                si@.len() == i,
                forall|k: int| 0 <= k < i ==> #[trigger] si@[k] == 0,
            decreases la - i,
        {
            si.push(0);
            i += 1;
        }
        assert(ints(si@) =~= steady_state(b@, a@));
        return si;
    }
    assert(prefix_sum(pp.1, n as int) != 0);
    assert(!(sb == i64::MIN && sa == -1));
    let kdc: i64 = div_trunc(sb, sa);
    let ghost d = gain_residuals(b@, a@);
    assert forall|j: int| 0 <= j < n implies
        in_i64(kdc * #[trigger] aa@[j]) && in_i64(bb@[j] - kdc * aa@[j]) by {
        assert(pp.1[j] == aa@[j]);
        assert(pp.0[j] == bb@[j]);
        assert(in_i64(kdc * pp.1[j]) && in_i64(pp.0[j] - kdc * pp.1[j]));
    }
    let mut rev: Vec<i64> = Vec::new();
    let mut s: i64 = 0;
    let mut j: usize = n;
    assert(suffix_sum(d, n as int) == 0);
    while j > 0
        invariant
            n == bb@.len() == aa@.len() == d.len(),
            d == gain_residuals(b@, a@),
            (ints(bb@), ints(aa@)) == padded_pair(b@, a@),
            steady_state_fits(b@, a@),
            prefix_sum(ints(aa@), n as int) != 0,
            kdc == tdiv(prefix_sum(ints(bb@), n as int), prefix_sum(ints(aa@), n as int)),
            forall|j: int| 0 <= j < n ==> in_i64(kdc * #[trigger] aa@[j]) && in_i64(bb@[j] - kdc * aa@[j]),
            j <= n,
            s == suffix_sum(d, j as int),
            rev@.len() == n - j,
            forall|k: int| 0 <= k < n - j ==> #[trigger] rev@[k] == suffix_sum(d, n - 1 - k),
        decreases j,
    {
        j -= 1;
        assert(in_i64(kdc * aa@[j as int]) && in_i64(bb@[j as int] - kdc * aa@[j as int]));
        assert(in_i64(suffix_sum(d, j as int)));
        assert(d[j as int] == bb@[j as int] - kdc * aa@[j as int]);
        let t: i64 = bb[j] - kdc * aa[j];
        s = s + t;
        rev.push(s);
    }
    let si = reversed(rev.as_slice());
    assert(ints(si@) =~= steady_state(b@, a@));
    si
}

/// `si` scaled by `c`, cut or lengthened with zeros to `n` values.
fn scale_state(si: &[i64], c: i64, n: usize) -> (w: Vec<i64>)
    requires
        forall|i: int| 0 <= i < si@.len() ==> in_i64(#[trigger] si@[i] * c),
    ensures
        ints(w@) == scaled_state(ints(si@), c as int, n as int),
{
    let mut w: Vec<i64> = Vec::new();
    let mut i: usize = 0;
    while i < n
        invariant
            i <= n,
            forall|i: int| 0 <= i < si@.len() ==> in_i64(#[trigger] si@[i] * c),
            w@.len() == i,
            forall|k: int| 0 <= k < i ==> #[trigger] w@[k] as int == scaled_state(ints(si@), c as int, n as int)[k],
        decreases n - i,
    {
        let v: i64 = if i < si.len() { si[i] * c } else { 0 };
        w.push(v);
        i += 1;
    }
    assert(ints(w@) =~= scaled_state(ints(si@), c as int, n as int));
    w
}

/// The row `x` filtered forwards and then backwards through `b / a`, after
/// lengthening it by odd reflections and starting each pass at the filter's
/// steady state for the first sample of that pass.
pub fn filtfilt_row(b: &[i64], a: &[i64], x: &[i64]) -> (y: Vec<i64>)
    requires
        filtfilt_fits(ints(b@), ints(a@), ints(x@)),
    ensures
        ints(y@) == filtfilt_spec(ints(b@), ints(a@), ints(x@)),
{
    let xl: usize = x.len();
    if xl == 0 {
        return Vec::new();
    }
    let ghost bi = ints(b@);
    let ghost ai = ints(a@);
    let lb: usize = b.len();
    let la: usize = a.len();
    let n: usize = if lb < la { la } else { lb };
    let bb: Vec<i64> = resize_with_zeros(b, n);
    let aa: Vec<i64> = resize_with_zeros(a, n);
    let si: Vec<i64> = steady_state_exec(bb.as_slice(), aa.as_slice(), Ghost(bi), Ghost(ai), la);
    let nw: usize = if n >= 1 { n - 1 } else { 0 };
    let l: usize = reflection_len(lb, la, xl);
    let v: Vec<i64> = odd_extend(x, l);
    let ghost ss = steady_state(bi, ai);
    let ghost vv = odd_extension(ints(x@), l as int);
    assert forall|i: int| 0 <= i < si@.len() implies in_i64(#[trigger] si@[i] * v@[0]) by {
        assert(ints(si@)[i] == si@[i]);
        assert(ints(v@)[0] == v@[0]);
        assert(in_i64(ss[i] * vv[0]));
    }
    let w1: Vec<i64> = scale_state(si.as_slice(), v[0], nw);
    let mut w: Vec<i64> = w1;
    let y1: Vec<i64> = filter_from_state(bb.as_slice(), aa.as_slice(), &mut w, v.as_slice());
    let r: Vec<i64> = reversed(y1.as_slice());
    let ghost rs = forward_pass(bi, ai, ints(v@));
    assert(ints(r@) == rs);
    let last: i64 = r[r.len() - 1];
    assert forall|i: int| 0 <= i < si@.len() implies in_i64(#[trigger] si@[i] * last) by {
        assert(ints(si@)[i] == si@[i]);
        assert(rs[rs.len() - 1] == last);
        assert(in_i64(ss[i] * rs[rs.len() - 1]));
    }
    let w2: Vec<i64> = scale_state(si.as_slice(), last, nw);
    let mut w: Vec<i64> = w2;
    let y2: Vec<i64> = filter_from_state(bb.as_slice(), aa.as_slice(), &mut w, r.as_slice());
    proof {
        lemma_run_len(trim_zeros_front(ints(bb@)), trim_zeros_front(ints(aa@)), ints(w2@), ints(r@));
        lemma_run_len(trim_zeros_front(ints(bb@)), trim_zeros_front(ints(aa@)), ints(w1@), ints(v@));
    }
    assert(ints(y1@).len() == ints(v@).len());
    assert(y1@.len() == v@.len());
    assert(ints(y2@).len() == ints(r@).len());
    assert(ints(r@).len() == r@.len());
    assert(v@.len() == xl + 2 * l);
    let z: Vec<i64> = reversed(y2.as_slice());
    assert(ints(z@).len() == z@.len());
    let out = trim_extension(z.as_slice(), l, xl);
    assert(ints(out@) =~= filtfilt_spec(bi, ai, ints(x@)));
    out
}

/// Filtering through a constant gain `c` from an empty state scales every sample.
pub proof fn lemma_run_gain(c: int, xs: Seq<int>)
    ensures
        run(trim_zeros_front(seq![c]), trim_zeros_front(seq![1int]), Seq::empty(), xs).0
            == Seq::new(xs.len(), |i: int| xs[i] * c),
    decreases xs.len(),
{
    let bt = trim_zeros_front(seq![c]);
    let at = trim_zeros_front(seq![1int]);
    assert(seq![1int].drop_first() =~= Seq::<int>::empty());
    assert(at == seq![1int]);
    if c != 0 {
        assert(bt == seq![c]);
    } else {
        assert(seq![c].drop_first() =~= Seq::<int>::empty());
        assert(trim_zeros_front(Seq::<int>::empty()) == Seq::<int>::empty());
        assert(bt == Seq::<int>::empty());
    }
    if xs.len() > 0 {
        lemma_run_gain(c, xs.drop_first());
        let w = Seq::<int>::empty();
        assert(crate::operations::filter_mut::next_state(at, w, xs[0]) == w);
        assert(crate::operations::filter_mut::inner_value(at, w, xs[0]) == xs[0]);
        assert(crate::operations::filter_mut::output_value(bt, at, w, xs[0]) == xs[0] * c) by {
            if c == 0 {
                assert(xs[0] * 0 == 0) by (nonlinear_arith);
            }
        }
        assert(run(bt, at, w, xs).0 =~= Seq::new(xs.len(), |i: int| xs[i] * c));
    }
}

/// Law: forward-backward filtering through a constant gain `c` scales every
/// sample by `c` twice; in particular the gain `1` leaves the row unchanged.
pub proof fn lemma_filtfilt_gain(c: int, x: Seq<int>)
    ensures
        filtfilt_spec(seq![c], seq![1int], x) == Seq::new(x.len(), |i: int| (x[i] * c) * c),
{
    if x.len() > 0 {
        let b = seq![c];
        let a = seq![1int];
        let (bb, aa) = padded_pair(b, a);
        assert(bb =~= b);
        assert(aa =~= a);
        assert(prefix_sum(aa, 1) == 1) by {
            assert(prefix_sum(aa, 0) == 0);
        }
        assert(prefix_sum(bb, 1) == c) by {
            assert(prefix_sum(bb, 0) == 0);
        }
        assert(tdiv(c, 1) == c);
        let d = gain_residuals(b, a);
        assert(d[0] == 0);
        assert(state_len(b, a) == 0);
        let l = reflection_len_spec(1, 1, x.len() as int);
        assert(l == 0);
        let v = odd_extension(x, 0);
        assert(v =~= x);
        let e = Seq::<int>::empty();
        assert(scaled_state(steady_state(b, a), v[0], 0) =~= e);
        lemma_run_gain(c, v);
        let r = forward_pass(b, a, v);
        assert(r =~= Seq::new(x.len(), |i: int| x[i] * c).reverse());
        assert(scaled_state(steady_state(b, a), r[r.len() - 1], 0) =~= e);
        lemma_run_gain(c, r);
        let z = backward_pass(b, a, r);
        assert(z =~= Seq::new(x.len(), |i: int| (x[i] * c) * c));
        assert(z.subrange(0, x.len() as int) =~= z);
    }
}

/// Whether every partial sum of the coefficients of `s` fits in an `i64`.
fn prefix_sums_fit(s: &[i64]) -> (ok: bool)
    ensures
        ok <==> forall|k: int| 0 <= k <= s@.len() ==> in_i64(#[trigger] prefix_sum(ints(s@), k)),
{
    let mut t: i64 = 0;
    let mut i: usize = 0;
    while i < s.len()
        invariant
            i <= s@.len(),
            forall|k: int| 0 <= k <= i ==> in_i64(#[trigger] prefix_sum(ints(s@), k)),
            t == prefix_sum(ints(s@), i as int),
        decreases s@.len() - i,
    {
        t = match t.checked_add(s[i]) {
            Some(v) => v,
            None => {
                assert(!in_i64(prefix_sum(ints(s@), i + 1)));
                return false;
            },
        };
        i += 1;
    }
    true
}

/// The steady state of `bb / aa` as `steady_state_exec` forms it, where every
/// value formed fits in an `i64`.
fn steady_state_checked(bb: &[i64], aa: &[i64], b: Ghost<Seq<int>>, a: Ghost<Seq<int>>, la: usize)
    -> (si: Option<Vec<i64>>)
    requires
        la == a@.len(),
        (ints(bb@), ints(aa@)) == padded_pair(b@, a@),
    ensures
        si is Some <==> steady_state_fits(b@, a@),
        si is Some ==> ints(si->0@) == steady_state(b@, a@),
{
    let n: usize = bb.len();
    let ghost pp = padded_pair(b@, a@);
    assert(ints(bb@) == pp.0 && ints(aa@) == pp.1);
    if !prefix_sums_fit(bb) || !prefix_sums_fit(aa) {
        return None;
    }
    let sb: i64 = coefficient_sum(bb);
    let sa: i64 = coefficient_sum(aa);
    if sa == 0 {
        return Some(steady_state_exec(bb, aa, b, a, la));
    }
    if sb == i64::MIN && sa == -1 {
        return None;
    }
    let kdc: i64 = div_trunc(sb, sa);
    let exact: bool = match kdc.checked_mul(sa) {
        Some(p) => p == sb,
        None => false,
    };
    if !exact {
        assert(!divides(prefix_sum(pp.1, n as int), prefix_sum(pp.0, n as int)));
        return None;
    }
    let ghost d = gain_residuals(b@, a@);
    let mut j: usize = 0;
    while j < n
        invariant
            n == bb@.len() == aa@.len() == d.len(),
            d == gain_residuals(b@, a@),
            (ints(bb@), ints(aa@)) == padded_pair(b@, a@),
            kdc == tdiv(prefix_sum(ints(bb@), n as int), prefix_sum(ints(aa@), n as int)),
            prefix_sum(ints(aa@), n as int) != 0,
            j <= n,
            forall|j2: int| 0 <= j2 < j ==> in_i64(kdc * #[trigger] aa@[j2]) && in_i64(bb@[j2] - kdc * aa@[j2]),
        decreases n - j,
    {
        let p: i64 = match kdc.checked_mul(aa[j]) {
            Some(p) => p,
            None => {
                assert(!steady_state_fits(b@, a@)) by {
                    let pp = padded_pair(b@, a@);
                    assert(pp.1[j as int] == aa@[j as int]);
                    assert(!in_i64(kdc * pp.1[j as int]));
                }
                return None;
            },
        };
        if bb[j].checked_sub(p).is_none() {
            assert(!steady_state_fits(b@, a@)) by {
                let pp = padded_pair(b@, a@);
                assert(pp.1[j as int] == aa@[j as int] && pp.0[j as int] == bb@[j as int]);
                assert(!in_i64(pp.0[j as int] - kdc * pp.1[j as int]));
            }
            return None;
        }
        j += 1;
    }
    let mut rev: Vec<i64> = Vec::new();
    let mut s: i64 = 0;
    let mut j: usize = n;
    assert(suffix_sum(d, n as int) == 0);
    while j > 0
        invariant
            rev@.len() == n - j,
            forall|k: int| 0 <= k < n - j ==> #[trigger] rev@[k] == suffix_sum(d, n - 1 - k),
            n == bb@.len() == aa@.len() == d.len(),
            d == gain_residuals(b@, a@),
            (ints(bb@), ints(aa@)) == padded_pair(b@, a@),
            kdc == tdiv(prefix_sum(ints(bb@), n as int), prefix_sum(ints(aa@), n as int)),
            prefix_sum(ints(aa@), n as int) != 0,
            forall|j2: int| 0 <= j2 < n ==> in_i64(kdc * #[trigger] aa@[j2]) && in_i64(bb@[j2] - kdc * aa@[j2]),
            j <= n,
            s == suffix_sum(d, j as int),
            forall|k: int| j <= k < n ==> in_i64(#[trigger] suffix_sum(d, k)),
        decreases j,
    {
        j -= 1;
        assert(in_i64(kdc * aa@[j as int]) && in_i64(bb@[j as int] - kdc * aa@[j as int]));
        assert(d[j as int] == bb@[j as int] - kdc * aa@[j as int]);
        let t: i64 = bb[j] - kdc * aa[j];
        s = match s.checked_add(t) {
            Some(v) => v,
            None => {
                assert(!steady_state_fits(b@, a@)) by {
                    assert(!in_i64(suffix_sum(d, j as int)));
                }
                return None;
            },
        };
        rev.push(s);
    }
    assert(steady_state_fits(b@, a@)) by {
        assert forall|j2: int| 0 <= j2 < n implies in_i64(kdc * #[trigger] pp.1[j2]) && in_i64(pp.0[j2] - kdc * pp.1[j2]) by {
            assert(pp.1[j2] == aa@[j2] && pp.0[j2] == bb@[j2]);
        }
    }
    let si = reversed(rev.as_slice());
    assert(ints(si@) =~= steady_state(b@, a@));
    Some(si)
}

/// The odd extension of `x` by `l`, where every sample fits in an `i64`.
fn odd_extend_checked(x: &[i64], l: usize) -> (v: Option<Vec<i64>>)
    requires
        1 <= x@.len(),
        l < x@.len(),
    ensures
        v is Some <==> odd_extension_fits(ints(x@), l as int),
        v is Some ==> ints(v->0@) == odd_extension(ints(x@), l as int),
{
    let ghost e = odd_extension(ints(x@), l as int);
    let n: usize = x.len();
    let first: i64 = x[0];
    let last: i64 = x[n - 1];
    let mut v: Vec<i64> = Vec::new();
    let mut i: usize = 0;
    while i < l
        invariant
            i <= l < n == x@.len(),
            first == x@[0],
            e == odd_extension(ints(x@), l as int),
            ints(v@) == e.subrange(0, i as int),
            forall|k: int| 0 <= k < i ==> in_i64(#[trigger] e[k]),
        decreases l - i,
    {
        assert(e[i as int] == 2 * x@[0] - x@[l - i]);
        let s: i128 = 2 * (first as i128) - (x[l - i] as i128);
        if s < i64::MIN as i128 || s > i64::MAX as i128 {
            assert(!in_i64(odd_extension(ints(x@), l as int)[i as int]));
            return None;
        }
        proof { lemma_ints_push(v@, s as i64); }
        v.push(s as i64);
        assert(e.subrange(0, i + 1) =~= e.subrange(0, i as int).push(e[i as int]));
        i += 1;
    }
    let mut j: usize = 0;
    while j < n
        invariant
            l < n == x@.len(),
            e == odd_extension(ints(x@), l as int),
            ints(v@) == e.subrange(0, l + j),
            forall|k: int| 0 <= k < l ==> in_i64(#[trigger] e[k]),
            j <= n,
        decreases n - j,
    {
        assert(e[l + j] == x@[j as int]);
        proof { lemma_ints_push(v@, x@[j as int]); }
        v.push(x[j]);
        assert(e.subrange(0, l + j + 1) =~= e.subrange(0, l + j).push(e[l + j]));
        j += 1;
    }
    let mut t: usize = 0;
    while t < l
        invariant
            t <= l < n == x@.len(),
            last == x@[n - 1],
            e == odd_extension(ints(x@), l as int),
            ints(v@) == e.subrange(0, l + n + t),
            forall|k: int| 0 <= k < l ==> in_i64(#[trigger] e[k]),
            forall|k: int| l + n <= k < l + n + t ==> in_i64(#[trigger] e[k]),
        decreases l - t,
    {
        assert(e[l + n + t] == 2 * x@[n - 1] - x@[n - 2 - t]);
        let s: i128 = 2 * (last as i128) - (x[n - 2 - t] as i128);
        if s < i64::MIN as i128 || s > i64::MAX as i128 {
            assert(!in_i64(odd_extension(ints(x@), l as int)[l + n + t]));
            return None;
        }
        proof { lemma_ints_push(v@, s as i64); }
        v.push(s as i64);
        assert(e.subrange(0, l + n + t + 1) =~= e.subrange(0, l + n + t).push(e[l + n + t]));
        t += 1;
    }
    assert(ints(v@) =~= e);
    assert(odd_extension_fits(ints(x@), l as int)) by {
        assert forall|k: int| 0 <= k < e.len() implies in_i64(#[trigger] odd_extension(ints(x@), l as int)[k]) by {
            if l <= k < l + n {
                assert(e[k] == x@[k - l]);
            }
        }
    }
    Some(v)
}

/// Whether `si[i] · c` fits in an `i64` for every `i`.
fn scale_fits(si: &[i64], c: i64) -> (ok: bool)
    ensures
        ok <==> forall|i: int| 0 <= i < si@.len() ==> in_i64(#[trigger] si@[i] * c),
{
    let mut i: usize = 0;
    while i < si.len()
        invariant
            i <= si@.len(),
            forall|k: int| 0 <= k < i ==> in_i64(#[trigger] si@[k] * c),
        decreases si@.len() - i,
    {
        if si[i].checked_mul(c).is_none() {
            assert(!in_i64(si@[i as int] * c));
            return false;
        }
        i += 1;
    }
    true
}

/// The row `x` filtered forwards and then backwards through `b / a` as
/// `filtfilt_row` does, where every division formed is exact and every value
/// formed fits in an `i64`; `None` where some division is not exact or some
/// value would not fit.
pub fn filtfilt_row_checked(b: &[i64], a: &[i64], x: &[i64]) -> (y: Option<Vec<i64>>)
    ensures
        y is Some <==> filtfilt_fits(ints(b@), ints(a@), ints(x@)),
        y is Some ==> ints(y->0@) == filtfilt_spec(ints(b@), ints(a@), ints(x@)),
{
    let ghost bi = ints(b@);
    let ghost ai = ints(a@);
    let ghost xs = ints(x@);
    let lb: usize = b.len();
    let la: usize = a.len();
    let n: usize = if lb < la { la } else { lb };
    let nw: usize = if n >= 1 { n - 1 } else { 0 };
    if nw > usize::MAX / 3 {
        return None;
    }
    let xl: usize = x.len();
    if xl == 0 {
        return Some(Vec::new());
    }
    let bb: Vec<i64> = resize_with_zeros(b, n);
    let aa: Vec<i64> = resize_with_zeros(a, n);
    let ghost bt = trim_zeros_front(ints(bb@));
    let ghost at = trim_zeros_front(ints(aa@));
    let si: Vec<i64> = match steady_state_checked(bb.as_slice(), aa.as_slice(), Ghost(bi), Ghost(ai), la) {
        Some(si) => si,
        None => return None,
    };
    let ghost ss = steady_state(bi, ai);
    let l: usize = reflection_len(lb, la, xl);
    let v: Vec<i64> = match odd_extend_checked(x, l) {
        Some(v) => v,
        None => return None,
    };
    let ghost vv = ints(v@);
    assert(vv.len() == xl + 2 * l);
    assert(vv[0] == v@[0]);
    if !scale_fits(si.as_slice(), v[0]) {
        assert(!(forall|i: int| 0 <= i < ss.len() ==> in_i64(#[trigger] ss[i] * vv[0]))) by {
            let i = choose|i: int| 0 <= i < si@.len() && !in_i64(#[trigger] si@[i] * v@[0]);
            assert(ss[i] == si@[i]);
        }
        return None;
    }
    assert forall|i: int| 0 <= i < ss.len() implies in_i64(#[trigger] ss[i] * vv[0]) by {
        assert(ss[i] == si@[i]);
    }
    let w1: Vec<i64> = scale_state(si.as_slice(), v[0], nw);
    assert(state_len(ints(bb@), ints(aa@)) == nw);
    proof { lemma_resize_own_len(ints(w1@)); }
    let mut w: Vec<i64> = w1;
    let y1: Vec<i64> = match filter_row_checked(bb.as_slice(), aa.as_slice(), &mut w, v.as_slice()) {
        Some(y1) => y1,
        None => return None,
    };
    let r: Vec<i64> = reversed(y1.as_slice());
    let ghost rs = forward_pass(bi, ai, vv);
    assert(ints(r@) == rs);
    proof { lemma_run_len(bt, at, ints(w1@), vv); }
    assert(r@.len() == v@.len());
    let last: i64 = r[r.len() - 1];
    assert(rs[rs.len() - 1] == last);
    if !scale_fits(si.as_slice(), last) {
        assert(!(forall|i: int| 0 <= i < ss.len() ==> in_i64(#[trigger] ss[i] * rs[rs.len() - 1]))) by {
            let i = choose|i: int| 0 <= i < si@.len() && !in_i64(#[trigger] si@[i] * last);
            assert(ss[i] == si@[i]);
        }
        return None;
    }
    assert forall|i: int| 0 <= i < ss.len() implies in_i64(#[trigger] ss[i] * rs[rs.len() - 1]) by {
        assert(ss[i] == si@[i]);
    }
    let w2: Vec<i64> = scale_state(si.as_slice(), last, nw);
    proof { lemma_resize_own_len(ints(w2@)); }
    let mut w: Vec<i64> = w2;
    let y2: Vec<i64> = match filter_row_checked(bb.as_slice(), aa.as_slice(), &mut w, r.as_slice()) {
        Some(y2) => y2,
        None => return None,
    };
    proof {
        lemma_run_len(bt, at, ints(w2@), ints(r@));
    }
    assert(y2@.len() == r@.len());
    let z: Vec<i64> = reversed(y2.as_slice());
    assert(ints(z@).len() == z@.len());
    let out = trim_extension(z.as_slice(), l, xl);
    assert(ints(out@) =~= filtfilt_spec(bi, ai, xs));
    Some(out)
}

/// The denominator that numerator row `k` is paired with: `a`, lengthened
/// with zeros, row after row, to the length of each longer numerator row
/// before row `k`.
pub open spec fn grown_denominator(bs: Seq<Seq<int>>, a: Seq<int>, k: int) -> Seq<int>
    decreases k,
{
    if k <= 0 {
        a
    } else {
        let prev = grown_denominator(bs, a, k - 1);
        resize_zeros(prev, max_len(bs[k - 1].len() as int, prev.len() as int))
    }
}

/// Filters every row of `x` forwards and backwards through every numerator
/// row of `b`, one block of output rows per numerator row. The denominator
/// is lengthened with zeros to each numerator row that is longer, and stays
/// so for the rows after it.
pub fn filtfilt(b: &Vec<Vec<i64>>, a: &[i64], x: &Vec<Vec<i64>>) -> (y: Vec<Vec<Vec<i64>>>)
    requires
        forall|k: int, j: int| 0 <= k < b@.len() && 0 <= j < x@.len() ==> filtfilt_fits(
            #[trigger] int_rows(b@)[k], grown_denominator(int_rows(b@), ints(a@), k), #[trigger] int_rows(x@)[j]),
    ensures
        y@.len() == b@.len(),
        forall|k: int| 0 <= k < b@.len() ==> (#[trigger] y@[k])@.len() == x@.len(),
        forall|k: int, j: int| 0 <= k < b@.len() && 0 <= j < x@.len() ==> ints(#[trigger] y@[k]@[j]@)
            == filtfilt_spec(int_rows(b@)[k], grown_denominator(int_rows(b@), ints(a@), k), int_rows(x@)[j]),
{
    let ghost bs = int_rows(b@);
    let ghost ai = ints(a@);
    let ghost xs = int_rows(x@);
    let mut acur: Vec<i64> = resize_with_zeros(a, a.len());
    assert(ints(acur@) =~= ai);
    let mut y: Vec<Vec<Vec<i64>>> = Vec::new();
    let mut k: usize = 0;
    while k < b.len()
        invariant
            bs == int_rows(b@),
            ai == ints(a@),
            xs == int_rows(x@),
            forall|k: int, j: int| 0 <= k < b@.len() && 0 <= j < x@.len() ==> filtfilt_fits(
                #[trigger] bs[k], grown_denominator(bs, ai, k), #[trigger] xs[j]),
            k <= b@.len(),
            ints(acur@) == grown_denominator(bs, ai, k as int),
            y@.len() == k,
            forall|k2: int| 0 <= k2 < k ==> (#[trigger] y@[k2])@.len() == x@.len(),
            forall|k2: int, j: int| 0 <= k2 < k && 0 <= j < x@.len() ==> ints(#[trigger] y@[k2]@[j]@)
                == filtfilt_spec(bs[k2], grown_denominator(bs, ai, k2), xs[j]),
        decreases b@.len() - k,
    {
        let brow: &Vec<i64> = &b[k];
        assert(ints(brow@) == bs[k as int]);
        let mut block: Vec<Vec<i64>> = Vec::new();
        let mut j: usize = 0;
        while j < x.len()
            invariant
                bs == int_rows(b@),
                xs == int_rows(x@),
                k < b@.len(),
                ints(brow@) == bs[k as int],
                forall|j: int| 0 <= j < x@.len() ==> filtfilt_fits(
                    bs[k as int], ints(acur@), #[trigger] xs[j]),
                j <= x@.len(),
                block@.len() == j,
                forall|j2: int| 0 <= j2 < j ==> ints(#[trigger] block@[j2]@)
                    == filtfilt_spec(bs[k as int], ints(acur@), xs[j2]),
            decreases x@.len() - j,
        {
            assert(ints(x@[j as int]@) == xs[j as int]);
            let row: Vec<i64> = filtfilt_row(brow.as_slice(), acur.as_slice(), x[j].as_slice());
            block.push(row);
            j += 1;
        }
        y.push(block);
        let n: usize = if brow.len() < acur.len() { acur.len() } else { brow.len() };
        acur = resize_with_zeros(acur.as_slice(), n);
        k += 1;
    }
    y
}

} // verus!
