//! Savitzky-Golay smoothing with a set of polynomial fits.
//!
//! A set of `n` filters, each of `n` taps, smooths a row of at least
//! `n` samples. The middle filter (index `n / 2`) is run over the whole row;
//! the first `n / 2` and the last `n - n / 2 - 1` outputs, where that filter
//! would reach past the ends, come from the other filters applied to the first
//! and the last `n` samples.
use vstd::prelude::*;
use crate::arith::{conv, ints, in_i64, lemma_ints_push, trim_zeros_front};
use crate::operations::filter_mut::{dot, filter_row, filter_row_checked, lemma_fir_filter_is_convolution, lemma_run_len,
    max_len, resize_zeros, rest, run, run_fits, sat_sub, state_len};
use crate::operations::filtfilt::reversed;

verus! {

/// Why a set of filters cannot smooth the data.
#[derive(Clone, Copy, Debug, PartialEq, Eq, Structural)]
pub enum SGolayFiltError {
    /// Some filter has another number of taps than there are filters.
    NotSGolay,
    /// Some row has fewer samples than there are filters.
    InsufficientData,
}

impl SGolayFiltError {
    /// A description of the error.
    pub fn message(&self) -> (m: &'static str)
        ensures
            *self == SGolayFiltError::NotSGolay ==> m@
                == "Not a Savitzsky-Golay filter set. Filter count should equal filter length."@,
            *self == SGolayFiltError::InsufficientData ==> m@
                == "Insufficient data for filter. Data sequence length must be larger or equal to filter length."@,
    {
        match self {
            SGolayFiltError::NotSGolay =>
                "Not a Savitzsky-Golay filter set. Filter count should equal filter length.",
            SGolayFiltError::InsufficientData =>
                "Insufficient data for filter. Data sequence length must be larger or equal to filter length.",
        }
    }
}

/// Output sample `i` of a row of `len` samples smoothed by `n` filters, from
/// the middle filter's output `y`, the head fits `y1` and the tail fits `y2`.
pub open spec fn sgolay_sample<Y>(y: Seq<Y>, y1: Seq<Y>, y2: Seq<Y>, n: int, i: int) -> Y {
    let len = y.len() as int;
    let k = n / 2;
    let tail = len + 1 + k - n;
    if i < k {
        y1[i]
    } else if i >= tail {
        y2[i - tail]
    } else {
        y[(i + n - k) % len]
    }
}

/// Puts a smoothed row together: the middle filter's output `y`, delayed by
/// the filter's `n - n / 2` samples of lag, with its first `n / 2` samples
/// taken from `y1` and its last `n - n / 2 - 1` samples taken from `y2`.
pub fn sgolay_assemble<Y: Copy>(y: &[Y], y1: &[Y], y2: &[Y], n: usize) -> (r: Vec<Y>)
    requires
        1 <= n <= y@.len(),
        y1@.len() == n / 2,
        y2@.len() == n - n / 2 - 1,
    ensures
        r@.len() == y@.len(),
        forall|i: int| 0 <= i < y@.len() ==> #[trigger] r@[i] == sgolay_sample(y@, y1@, y2@, n as int, i),
{
    let len: usize = y.len();
    let k: usize = n / 2;
    let tail: usize = len - (n - k - 1);
    let mut r: Vec<Y> = Vec::new();
    let mut i: usize = 0;
    while i < len
        invariant
            1 <= n <= len == y@.len(),
            k == n / 2,
            tail == len + 1 + k - n,
            y1@.len() == k,
            y2@.len() == n - k - 1,
            i <= len,
            r@.len() == i,
            forall|j: int| 0 <= j < i ==> #[trigger] r@[j] == sgolay_sample(y@, y1@, y2@, n as int, j),
        decreases len - i,
    {
        if i < k {
            r.push(y1[i]);
        } else if i >= tail {
            r.push(y2[i - tail]);
        } else {
            let s: usize = i + (n - k);
            let idx: usize = if s < len { s } else { s - len };
            assert(idx as int == (i + n - k) % (len as int)) by (nonlinear_arith)
                requires
                    s == i + n - k,
                    0 <= s < 2 * len,
                    idx == (if s < len { s as int } else { s - len }),
            ;
            r.push(y[idx]);
        }
        i += 1;
    }
    r
}

// ---------------------------------------------------------------------------
// Smoothing rows of samples
// ---------------------------------------------------------------------------

/// The middle filter's output for the row `x`: the row run through the
/// middle filter's taps in reverse order, from a zero state.
pub open spec fn middle_output(h: Seq<Seq<int>>, x: Seq<int>) -> Seq<int> {
    let mid = h[(h.len() / 2) as int].reverse();
    let nw = sat_sub(max_len(1, mid.len() as int), 1);
    run(trim_zeros_front(mid), trim_zeros_front(seq![1int]), Seq::new(nw as nat, |i: int| 0int), x).0
}

/// The fits of the first `n / 2` filters to the first `n` samples.
pub open spec fn head_fits(h: Seq<Seq<int>>, x: Seq<int>) -> Seq<int> {
    let n = h.len() as int;
    Seq::new((n / 2) as nat, |i: int| dot(h[i], x.take(n), n))
}

/// The fits of the last `n - n / 2 - 1` filters to the last `n` samples.
pub open spec fn tail_fits(h: Seq<Seq<int>>, x: Seq<int>) -> Seq<int> {
    let n = h.len() as int;
    let k = n / 2;
    Seq::new((n - k - 1) as nat, |i: int| dot(h[i + k + 1], x.subrange(x.len() - n, x.len() as int), n))
}

/// The smoothed row `x`.
pub open spec fn sgolay_row_spec(h: Seq<Seq<int>>, x: Seq<int>) -> Seq<int> {
    let yf = middle_output(h, x);
    let y1 = head_fits(h, x);
    let y2 = tail_fits(h, x);
    Seq::new(x.len(), |i: int| sgolay_sample(yf, y1, y2, h.len() as int, i))
}

/// The result of smoothing the rows `xs` with the filter set `h`: the filter
/// set is checked first, then the rows.
pub open spec fn sgolay_spec(h: Seq<Seq<int>>, xs: Seq<Seq<int>>) -> Result<Seq<Seq<int>>, SGolayFiltError> {
    let n = h.len();
    if exists|i: int| 0 <= i < n && #[trigger] h[i].len() != n {
        Err(SGolayFiltError::NotSGolay)
    } else if exists|j: int| 0 <= j < xs.len() && #[trigger] xs[j].len() < n {
        Err(SGolayFiltError::InsufficientData)
    } else {
        Ok(Seq::new(xs.len(), |j: int| sgolay_row_spec(h, xs[j])))
    }
}

/// Every value formed while fitting `h` to the `n` samples `x` fits in an `i64`.
pub open spec fn fit_fits(h: Seq<int>, x: Seq<int>, n: int) -> bool {
    forall|m: int| 0 <= m < n ==> in_i64(#[trigger] h[m] * x[m]) && in_i64(dot(h, x, m + 1))
}

/// Every value formed while smoothing the row `x` fits in an `i64`.
pub open spec fn sgolay_row_fits(h: Seq<Seq<int>>, x: Seq<int>) -> bool {
    let n = h.len() as int;
    let k = n / 2;
    let mid = h[k].reverse();
    let nw = sat_sub(max_len(1, mid.len() as int), 1);
    &&& run_fits(trim_zeros_front(mid), trim_zeros_front(seq![1int]), Seq::new(nw as nat, |i: int| 0int), x)
    &&& forall|i: int| 0 <= i < k ==> fit_fits(#[trigger] h[i], x.take(n), n)
    &&& forall|i: int| k < i < n ==> fit_fits(#[trigger] h[i], x.subrange(x.len() - n, x.len() as int), n)
}

/// Every value formed while smoothing the rows `xs` with the filter set `h`
/// fits in an `i64`: for every row that is reached with a valid filter set.
pub open spec fn sgolay_fits(h: Seq<Seq<int>>, xs: Seq<Seq<int>>) -> bool {
    let n = h.len();
    forall|j: int| 0 <= j < xs.len() && (forall|i: int| 0 <= i < n ==> #[trigger] h[i].len() == n)
        && (forall|j2: int| 0 <= j2 <= j ==> #[trigger] xs[j2].len() >= n)
        ==> sgolay_row_fits(h, #[trigger] xs[j])
}

/// `Σ_{j < n} h[j] · x[off + j]`.
fn fit(h: &[i64], x: &[i64], off: usize, n: usize) -> (s: i64)
    requires
        n <= h@.len(),
        off + n <= x@.len(),
        fit_fits(ints(h@), ints(x@).subrange(off as int, off + n), n as int),
    ensures
        s == dot(ints(h@), ints(x@).subrange(off as int, off + n), n as int),
{
    let ghost xs = ints(x@).subrange(off as int, off + n);
    let xl: usize = x.len();
    let mut s: i64 = 0;
    let mut j: usize = 0;
    while j < n
        invariant
            n <= h@.len(),
            xl == x@.len(),
            off + n <= xl,
            xs == ints(x@).subrange(off as int, off + n),
            fit_fits(ints(h@), xs, n as int),
            j <= n,
            s == dot(ints(h@), xs, j as int),
        decreases n - j,
    {
        assert(xs[j as int] == x@[off + j]);
        assert(in_i64(ints(h@)[j as int] * xs[j as int]) && in_i64(dot(ints(h@), xs, j + 1)));
        s = s + h[j] * x[off + j];
        j += 1;
    }
    s
}

/// Smooths one row of at least `n` samples with a set of `n` filters.
fn sgolay_row(h: &Vec<Vec<i64>>, x: &[i64]) -> (y: Vec<i64>)
    requires
        h@.len() >= 1,
        x@.len() >= h@.len(),
        forall|i: int| 0 <= i < h@.len() ==> #[trigger] h@[i]@.len() == h@.len(),
        sgolay_row_fits(Seq::new(h@.len(), |i: int| ints(h@[i]@)), ints(x@)),
    ensures
        ints(y@) == sgolay_row_spec(Seq::new(h@.len(), |i: int| ints(h@[i]@)), ints(x@)),
{
    let ghost hs = Seq::new(h@.len(), |i: int| ints(h@[i]@));
    let ghost xs = ints(x@);
    let n: usize = h.len();
    let len: usize = x.len();
    let k: usize = n / 2;
    let mid: Vec<i64> = reversed(h[k].as_slice());
    assert(hs[k as int] == ints(h@[k as int]@));
    let nw: usize = if mid.len() >= 1 { mid.len() - 1 } else { 0 };
    let mut w: Vec<i64> = Vec::new();
    let one: [i64; 1] = [1];
    assert(ints(one@) =~= seq![1int]);
    assert(resize_zeros(ints(w@), state_len(ints(mid@), ints(one@))) =~= Seq::new(nw as nat, |i: int| 0int));
    let yf: Vec<i64> = filter_row(mid.as_slice(), one.as_slice(), &mut w, x);
    proof {
        lemma_run_len(trim_zeros_front(ints(mid@)), trim_zeros_front(seq![1int]),
            Seq::new(nw as nat, |i: int| 0int), xs);
    }
    assert(ints(yf@) == middle_output(hs, xs));
    let mut y1: Vec<i64> = Vec::new();
    let mut i: usize = 0;
    while i < k
        invariant
            n == h@.len() == hs.len(),
            hs == Seq::new(h@.len(), |i: int| ints(h@[i]@)),
            xs == ints(x@),
            len == x@.len() >= n,
            k == n / 2,
            forall|i: int| 0 <= i < h@.len() ==> #[trigger] h@[i]@.len() == h@.len(),
            sgolay_row_fits(hs, xs),
            i <= k,
            ints(y1@) == head_fits(hs, xs).subrange(0, i as int),
        decreases k - i,
    {
        assert(hs[i as int] == ints(h@[i as int]@));
        assert(xs.take(n as int) =~= ints(x@).subrange(0, n as int));
        assert(fit_fits(hs[i as int], xs.take(n as int), n as int));
        let v: i64 = fit(h[i].as_slice(), x, 0, n);
        proof { lemma_ints_push(y1@, v); }
        y1.push(v);
        assert(head_fits(hs, xs).subrange(0, i + 1) =~= head_fits(hs, xs).subrange(0, i as int).push(v as int));
        i += 1;
    }
    assert(head_fits(hs, xs).subrange(0, k as int) =~= head_fits(hs, xs));
    let mut y2: Vec<i64> = Vec::new();
    let mut i: usize = 0;
    while i < n - k - 1
        invariant
            n == h@.len() == hs.len(),
            hs == Seq::new(h@.len(), |i: int| ints(h@[i]@)),
            xs == ints(x@),
            len == x@.len() >= n >= 1,
            k == n / 2,
            forall|i: int| 0 <= i < h@.len() ==> #[trigger] h@[i]@.len() == h@.len(),
            sgolay_row_fits(hs, xs),
            i <= n - k - 1,
            ints(y2@) == tail_fits(hs, xs).subrange(0, i as int),
        decreases n - k - 1 - i,
    {
        assert(hs[i + k + 1] == ints(h@[i + k + 1]@));
        assert(xs.subrange(len - n, len as int) =~= ints(x@).subrange(len - n, (len - n) + n));
        assert(fit_fits(hs[i + k + 1], xs.subrange(len - n, len as int), n as int));
        let v: i64 = fit(h[i + k + 1].as_slice(), x, len - n, n);
        proof { lemma_ints_push(y2@, v); }
        y2.push(v);
        assert(tail_fits(hs, xs).subrange(0, i + 1) =~= tail_fits(hs, xs).subrange(0, i as int).push(v as int));
        i += 1;
    }
    assert(tail_fits(hs, xs).subrange(0, (n - k - 1) as int) =~= tail_fits(hs, xs));
    let y = sgolay_assemble(yf.as_slice(), y1.as_slice(), y2.as_slice(), n);
    assert(ints(y@) =~= sgolay_row_spec(hs, xs)) by {
        assert forall|i: int| 0 <= i < len implies #[trigger] ints(y@)[i] == sgolay_row_spec(hs, xs)[i] by {
            assert(y@[i] == sgolay_sample(yf@, y1@, y2@, n as int, i));
            let t = len + 1 + k - n;
            if i < k {
                assert(ints(y1@)[i] == y1@[i]);
            } else if i >= t {
                assert(ints(y2@)[i - t] == y2@[i - t]);
            } else {
                assert(ints(yf@)[(i + n - k) % (len as int)] == yf@[(i + n - k) % (len as int)]);
            }
        }
    }
    y
}

/// Smooths every row of `x` with the Savitzky-Golay filter set `h` (the
/// taps of `n` filters): an error where some filter has other than `n` taps,
/// else where some row has fewer than `n` samples.
pub fn sgolayfilt(h: &Vec<Vec<i64>>, x: &Vec<Vec<i64>>) -> (r: Result<Vec<Vec<i64>>, SGolayFiltError>)
    requires
        h@.len() >= 1,
        sgolay_fits(Seq::new(h@.len(), |i: int| ints(h@[i]@)), Seq::new(x@.len(), |j: int| ints(x@[j]@))),
    ensures
        match r {
            Ok(y) => sgolay_spec(Seq::new(h@.len(), |i: int| ints(h@[i]@)), Seq::new(x@.len(), |j: int| ints(x@[j]@)))
                == Ok::<Seq<Seq<int>>, SGolayFiltError>(Seq::new(y@.len(), |j: int| ints(y@[j]@))),
            Err(e) => sgolay_spec(Seq::new(h@.len(), |i: int| ints(h@[i]@)), Seq::new(x@.len(), |j: int| ints(x@[j]@)))
                == Err::<Seq<Seq<int>>, SGolayFiltError>(e),
        },
{
    let ghost hs = Seq::new(h@.len(), |i: int| ints(h@[i]@));
    let ghost xss = Seq::new(x@.len(), |j: int| ints(x@[j]@));
    assert forall|j: int| 0 <= j < x@.len() && (forall|i: int| 0 <= i < h@.len() ==> #[trigger] h@[i]@.len() == h@.len())
        && (forall|j2: int| 0 <= j2 <= j ==> #[trigger] x@[j2]@.len() >= h@.len())
        implies sgolay_row_fits(hs, #[trigger] ints(x@[j]@)) by {
        assert(xss[j] == ints(x@[j]@));
        assert forall|i: int| 0 <= i < hs.len() implies #[trigger] hs[i].len() == hs.len() by {
            assert(h@[i]@.len() == h@.len());
        }
        assert forall|j2: int| 0 <= j2 <= j implies #[trigger] xss[j2].len() >= hs.len() by {
            assert(x@[j2]@.len() >= h@.len());
        }
    }
    let n: usize = h.len();
    let mut i: usize = 0;
    while i < n
        invariant
            n == h@.len(),
            hs == Seq::new(h@.len(), |i: int| ints(h@[i]@)),
            i <= n,
            forall|j: int| 0 <= j < i ==> #[trigger] h@[j]@.len() == n,
        decreases n - i,
    {
        if h[i].len() != n {
            assert(hs[i as int].len() != n);
            return Err(SGolayFiltError::NotSGolay);
        }
        i += 1;
    }
    assert(!(exists|i: int| 0 <= i < n && #[trigger] hs[i].len() != n));
    let mut out: Vec<Vec<i64>> = Vec::new();
    let mut j: usize = 0;
    while j < x.len()
        invariant
            n == h@.len() >= 1,
            hs == Seq::new(h@.len(), |i: int| ints(h@[i]@)),
            xss == Seq::new(x@.len(), |j: int| ints(x@[j]@)),
            forall|i: int| 0 <= i < n ==> #[trigger] h@[i]@.len() == n,
            forall|j: int| 0 <= j < x@.len() && (forall|i: int| 0 <= i < n ==> #[trigger] h@[i]@.len() == n)
                && (forall|j2: int| 0 <= j2 <= j ==> #[trigger] x@[j2]@.len() >= n)
                ==> sgolay_row_fits(hs, #[trigger] ints(x@[j]@)),
            j <= x@.len(),
            forall|j2: int| 0 <= j2 < j ==> #[trigger] x@[j2]@.len() >= n,
            out@.len() == j,
            forall|j2: int| 0 <= j2 < j ==> #[trigger] ints(out@[j2]@) == sgolay_row_spec(hs, xss[j2]),
        decreases x@.len() - j,
    {
        if x[j].len() < n {
            assert(xss[j as int].len() < n);
            return Err(SGolayFiltError::InsufficientData);
        }
        assert(forall|j2: int| 0 <= j2 <= j ==> #[trigger] x@[j2]@.len() >= n);
        assert(sgolay_row_fits(hs, ints(x@[j as int]@)));
        let row = sgolay_row(h, x[j].as_slice());
        out.push(row);
        j += 1;
    }
    assert(!(exists|j: int| 0 <= j < xss.len() && #[trigger] xss[j].len() < n));
    assert(Seq::new(out@.len(), |j: int| ints(out@[j]@)) =~= Seq::new(xss.len(), |j: int| sgolay_row_spec(hs, xss[j])));
    Ok(out)
}

/// `Σ_{j < n} h[j] · x[off + j]`, where every value formed fits in an `i64`.
fn fit_checked(h: &[i64], x: &[i64], off: usize, n: usize) -> (s: Option<i64>)
    requires
        n <= h@.len(),
        off + n <= x@.len(),
    ensures
        s is Some <==> fit_fits(ints(h@), ints(x@).subrange(off as int, off + n), n as int),
        s is Some ==> s->0 == dot(ints(h@), ints(x@).subrange(off as int, off + n), n as int),
{
    let ghost xs = ints(x@).subrange(off as int, off + n);
    let ghost hi = ints(h@);
    let xl: usize = x.len();
    let mut s: i64 = 0;
    let mut j: usize = 0;
    while j < n
        invariant
            n <= h@.len(),
            xl == x@.len(),
            off + n <= xl,
            hi == ints(h@),
            xs == ints(x@).subrange(off as int, off + n),
            forall|m: int| 0 <= m < j ==> in_i64(#[trigger] hi[m] * xs[m]) && in_i64(dot(hi, xs, m + 1)),
            j <= n,
            s == dot(hi, xs, j as int),
        decreases n - j,
    {
        assert(xs[j as int] == x@[off + j]);
        let p: i64 = match h[j].checked_mul(x[off + j]) {
            Some(p) => p,
            None => {
                assert(!in_i64(hi[j as int] * xs[j as int]));
                return None;
            },
        };
        s = match s.checked_add(p) {
            Some(v) => v,
            None => {
                assert(!in_i64(dot(hi, xs, j + 1)));
                assert(hi[j as int] * xs[j as int] == p);
                return None;
            },
        };
        j += 1;
    }
    Some(s)
}

/// Smooths one row of at least `n` samples with a set of `n` filters of `n`
/// taps, where every value formed fits in an `i64`.
fn sgolay_row_checked(h: &Vec<Vec<i64>>, x: &[i64]) -> (y: Option<Vec<i64>>)
    requires
        h@.len() >= 1,
        x@.len() >= h@.len(),
        forall|i: int| 0 <= i < h@.len() ==> #[trigger] h@[i]@.len() == h@.len(),
    ensures
        y is Some <==> sgolay_row_fits(Seq::new(h@.len(), |i: int| ints(h@[i]@)), ints(x@)),
        y is Some ==> ints(y->0@) == sgolay_row_spec(Seq::new(h@.len(), |i: int| ints(h@[i]@)), ints(x@)),
{
    let ghost hs = Seq::new(h@.len(), |i: int| ints(h@[i]@));
    let ghost xs = ints(x@);
    let n: usize = h.len();
    let len: usize = x.len();
    let k: usize = n / 2;
    let mid: Vec<i64> = reversed(h[k].as_slice());
    assert(hs[k as int] == ints(h@[k as int]@));
    let nw: usize = if mid.len() >= 1 { mid.len() - 1 } else { 0 };
    let mut w: Vec<i64> = Vec::new();
    let one: [i64; 1] = [1];
    assert(ints(one@) =~= seq![1int]);
    assert(resize_zeros(ints(w@), state_len(ints(mid@), ints(one@))) =~= Seq::new(nw as nat, |i: int| 0int));
    let yf: Vec<i64> = match filter_row_checked(mid.as_slice(), one.as_slice(), &mut w, x) {
        Some(yf) => yf,
        None => return None,
    };
    proof {
        lemma_run_len(trim_zeros_front(ints(mid@)), trim_zeros_front(seq![1int]),
            Seq::new(nw as nat, |i: int| 0int), xs);
    }
    assert(ints(yf@) == middle_output(hs, xs));
    let mut y1: Vec<i64> = Vec::new();
    let mut i: usize = 0;
    while i < k
        invariant
            n == h@.len() == hs.len(),
            hs == Seq::new(h@.len(), |i: int| ints(h@[i]@)),
            xs == ints(x@),
            len == x@.len() >= n,
            k == n / 2,
            forall|i: int| 0 <= i < h@.len() ==> #[trigger] h@[i]@.len() == h@.len(),
            forall|i2: int| 0 <= i2 < i ==> fit_fits(#[trigger] hs[i2], xs.take(n as int), n as int),
            i <= k,
            ints(y1@) == head_fits(hs, xs).subrange(0, i as int),
        decreases k - i,
    {
        assert(hs[i as int] == ints(h@[i as int]@));
        assert(xs.take(n as int) =~= ints(x@).subrange(0, n as int));
        let v: i64 = match fit_checked(h[i].as_slice(), x, 0, n) {
            Some(v) => v,
            None => {
                assert(!fit_fits(hs[i as int], xs.take(n as int), n as int));
                return None;
            },
        };
        proof { lemma_ints_push(y1@, v); }
        y1.push(v);
        assert(head_fits(hs, xs).subrange(0, i + 1) =~= head_fits(hs, xs).subrange(0, i as int).push(v as int));
        i += 1;
    }
    assert(head_fits(hs, xs).subrange(0, k as int) =~= head_fits(hs, xs));
    let mut y2: Vec<i64> = Vec::new();
    let mut i: usize = 0;
    while i < n - k - 1
        invariant
            n == h@.len() == hs.len(),
            hs == Seq::new(h@.len(), |i: int| ints(h@[i]@)),
            xs == ints(x@),
            len == x@.len() >= n >= 1,
            k == n / 2,
            forall|i: int| 0 <= i < h@.len() ==> #[trigger] h@[i]@.len() == h@.len(),
            forall|i2: int| k < i2 < k + 1 + i ==> fit_fits(#[trigger] hs[i2], xs.subrange(len - n, len as int), n as int),
            i <= n - k - 1,
            ints(y2@) == tail_fits(hs, xs).subrange(0, i as int),
        decreases n - k - 1 - i,
    {
        assert(hs[i + k + 1] == ints(h@[i + k + 1]@));
        assert(xs.subrange(len - n, len as int) =~= ints(x@).subrange(len - n, (len - n) + n));
        let v: i64 = match fit_checked(h[i + k + 1].as_slice(), x, len - n, n) {
            Some(v) => v,
            None => {
                assert(!fit_fits(hs[i + k + 1], xs.subrange(len - n, len as int), n as int));
                return None;
            },
        };
        proof { lemma_ints_push(y2@, v); }
        y2.push(v);
        assert(tail_fits(hs, xs).subrange(0, i + 1) =~= tail_fits(hs, xs).subrange(0, i as int).push(v as int));
        i += 1;
    }
    assert(tail_fits(hs, xs).subrange(0, (n - k - 1) as int) =~= tail_fits(hs, xs));
    assert(sgolay_row_fits(hs, xs));
    let y = sgolay_assemble(yf.as_slice(), y1.as_slice(), y2.as_slice(), n);
    assert(ints(y@) =~= sgolay_row_spec(hs, xs)) by {
        assert forall|i: int| 0 <= i < len implies #[trigger] ints(y@)[i] == sgolay_row_spec(hs, xs)[i] by {
            assert(y@[i] == sgolay_sample(yf@, y1@, y2@, n as int, i));
            let t = len + 1 + k - n;
            if i < k {
                assert(ints(y1@)[i] == y1@[i]);
            } else if i >= t {
                assert(ints(y2@)[i - t] == y2@[i - t]);
            } else {
                assert(ints(yf@)[(i + n - k) % (len as int)] == yf@[(i + n - k) % (len as int)]);
            }
        }
    }
    Some(y)
}

/// Smooths every row of `x` with the Savitzky-Golay filter set `h` as
/// `sgolayfilt` does, where every value formed fits in an `i64`; `None` where
/// some value would not fit.
pub fn sgolayfilt_checked(h: &Vec<Vec<i64>>, x: &Vec<Vec<i64>>) -> (r: Option<Result<Vec<Vec<i64>>, SGolayFiltError>>)
    requires
        h@.len() >= 1,
    ensures
        r is Some <==> sgolay_fits(Seq::new(h@.len(), |i: int| ints(h@[i]@)), Seq::new(x@.len(), |j: int| ints(x@[j]@))),
        r matches Some(Ok(y)) ==> sgolay_spec(Seq::new(h@.len(), |i: int| ints(h@[i]@)), Seq::new(x@.len(), |j: int| ints(x@[j]@)))
            == Ok::<Seq<Seq<int>>, SGolayFiltError>(Seq::new(y@.len(), |j: int| ints(y@[j]@))),
        r matches Some(Err(e)) ==> sgolay_spec(Seq::new(h@.len(), |i: int| ints(h@[i]@)), Seq::new(x@.len(), |j: int| ints(x@[j]@)))
            == Err::<Seq<Seq<int>>, SGolayFiltError>(e),
{
    let ghost hs = Seq::new(h@.len(), |i: int| ints(h@[i]@));
    let ghost xss = Seq::new(x@.len(), |j: int| ints(x@[j]@));
    let n: usize = h.len();
    let mut i: usize = 0;
    while i < n
        invariant
            n == h@.len(),
            hs == Seq::new(h@.len(), |i: int| ints(h@[i]@)),
            i <= n,
            forall|j: int| 0 <= j < i ==> #[trigger] h@[j]@.len() == n,
        decreases n - i,
    {
        if h[i].len() != n {
            assert(hs[i as int].len() != n);
            assert(sgolay_fits(hs, xss));
            return Some(Err(SGolayFiltError::NotSGolay));
        }
        i += 1;
    }
    assert forall|i: int| 0 <= i < n implies #[trigger] hs[i].len() == n by {
        assert(h@[i]@.len() == n);
    }
    let mut out: Vec<Vec<i64>> = Vec::new();
    let mut j: usize = 0;
    while j < x.len()
        invariant
            n == h@.len() >= 1,
            hs == Seq::new(h@.len(), |i: int| ints(h@[i]@)),
            xss == Seq::new(x@.len(), |j: int| ints(x@[j]@)),
            forall|i: int| 0 <= i < n ==> #[trigger] h@[i]@.len() == n,
            forall|i: int| 0 <= i < n ==> #[trigger] hs[i].len() == n,
            j <= x@.len(),
            forall|j2: int| 0 <= j2 < j ==> #[trigger] x@[j2]@.len() >= n,
            forall|j2: int| 0 <= j2 < j ==> sgolay_row_fits(hs, #[trigger] xss[j2]),
            out@.len() == j,
            forall|j2: int| 0 <= j2 < j ==> #[trigger] ints(out@[j2]@) == sgolay_row_spec(hs, xss[j2]),
        decreases x@.len() - j,
    {
        if x[j].len() < n {
            assert(xss[j as int].len() < n);
            assert(sgolay_fits(hs, xss)) by {
                assert forall|j2: int| 0 <= j2 < xss.len()
                    && (forall|i: int| 0 <= i < n ==> #[trigger] hs[i].len() == n)
                    && (forall|j3: int| 0 <= j3 <= j2 ==> #[trigger] xss[j3].len() >= n)
                    implies sgolay_row_fits(hs, #[trigger] xss[j2]) by {
                    if j2 >= j {
                        assert(xss[j as int].len() >= n);
                    }
                }
            }
            assert(!(exists|i: int| 0 <= i < n && #[trigger] hs[i].len() != n));
            return Some(Err(SGolayFiltError::InsufficientData));
        }
        assert(xss[j as int] == ints(x@[j as int]@));
        match sgolay_row_checked(h, x[j].as_slice()) {
            Some(row) => {
                out.push(row);
            },
            None => {
                assert(!sgolay_row_fits(hs, xss[j as int]));
                assert(!sgolay_fits(hs, xss)) by {
                    assert forall|j3: int| 0 <= j3 <= j implies #[trigger] xss[j3].len() >= n by {
                        if j3 < j { assert(x@[j3]@.len() >= n); }
                    }
                }
                return None;
            },
        }
        j += 1;
    }
    assert(sgolay_fits(hs, xss)) by {
        assert forall|j2: int| 0 <= j2 < xss.len()
            && (forall|i: int| 0 <= i < n ==> #[trigger] hs[i].len() == n)
            && (forall|j3: int| 0 <= j3 <= j2 ==> #[trigger] xss[j3].len() >= n)
            implies sgolay_row_fits(hs, #[trigger] xss[j2]) by {
        }
    }
    assert(!(exists|i: int| 0 <= i < n && #[trigger] hs[i].len() != n));
    assert(!(exists|j: int| 0 <= j < xss.len() && #[trigger] xss[j].len() < n));
    assert(Seq::new(out@.len(), |j: int| ints(out@[j]@)) =~= Seq::new(xss.len(), |j: int| sgolay_row_spec(hs, xss[j])));
    Some(Ok(out))
}

/// Law: the ends of a smoothed row are polynomial fits to the ends of the row.
/// Output sample `i < n / 2` is the fit of filter `i` to the first `n` samples,
/// `Σ_j h[i][j] · x[j]`; output sample `len - m + t`, with `m = n - n / 2 - 1`
/// and `t < m`, is the fit of filter `n / 2 + 1 + t` to the last `n` samples,
/// `Σ_j h[n / 2 + 1 + t][j] · x[len - n + j]`.
pub proof fn lemma_sgolay_ends(h: Seq<Seq<int>>, x: Seq<int>)
    requires
        h.len() >= 1,
        x.len() >= h.len(),
        forall|i: int| 0 <= i < h.len() ==> #[trigger] h[i].len() == h.len(),
    ensures
        sgolay_row_spec(h, x).len() == x.len(),
        forall|i: int| 0 <= i < h.len() / 2 ==> #[trigger] sgolay_row_spec(h, x)[i] == dot(h[i], x, h.len() as int),
        forall|t: int| 0 <= t < h.len() - h.len() / 2 - 1 ==>
            #[trigger] sgolay_row_spec(h, x)[x.len() - (h.len() - h.len() / 2 - 1) + t]
                == dot(h[h.len() / 2 + 1 + t], x.subrange(x.len() - h.len(), x.len() as int), h.len() as int),
{
    let n = h.len() as int;
    assert forall|i: int| 0 <= i < n / 2 implies #[trigger] sgolay_row_spec(h, x)[i] == dot(h[i], x, n) by {
        lemma_dot_prefix(h[i], x.take(n), x, n);
    }
    let k = n / 2;
    let len = x.len() as int;
    let mid = h[k].reverse();
    let nw = sat_sub(max_len(1, mid.len() as int), 1);
    lemma_run_len(trim_zeros_front(mid), trim_zeros_front(seq![1int]), Seq::new(nw as nat, |i: int| 0int), x);
    assert(middle_output(h, x).len() == len);
    assert forall|t: int| 0 <= t < n - k - 1 implies #[trigger] sgolay_row_spec(h, x)[len - (n - k - 1) + t]
        == dot(h[k + 1 + t], x.subrange(len - n, len), n) by {
        let i = len - (n - k - 1) + t;
        assert(i >= len + 1 + k - n && i - (len + 1 + k - n) == t);
        assert(tail_fits(h, x)[t] == dot(h[t + k + 1], x.subrange(len - n, len), n));
    }
}

/// A dot product of the first `n` values reads only those values.
proof fn lemma_dot_prefix(c: Seq<int>, u: Seq<int>, v: Seq<int>, n: int)
    requires
        0 <= n <= u.len(),
        n <= v.len(),
        forall|j: int| 0 <= j < n ==> u[j] == v[j],
    ensures
        dot(c, u, n) == dot(c, v, n),
    decreases n,
{
    if n > 0 {
        lemma_dot_prefix(c, u, v, n - 1);
    }
}

/// Law: for at least three filters, the middle of a smoothed row is the
/// middle filter run over the row: output sample `i`, from `n / 2` up to where
/// `i + n - n / 2` leaves the row, is sample `i + n - n / 2` of the convolution
/// of the row with the middle filter's taps in reverse order (leading zeros
/// dropped); the sample after them, `len + n / 2 - n`, wraps round to sample
/// `0` of that convolution.
pub proof fn lemma_sgolay_middle(h: Seq<Seq<int>>, x: Seq<int>)
    requires
        h.len() >= 3,
        x.len() >= h.len(),
        forall|i: int| 0 <= i < h.len() ==> #[trigger] h[i].len() == h.len(),
    ensures
        forall|i: int| h.len() / 2 <= i && i + h.len() - h.len() / 2 < x.len()
            && i + h.len() - h.len() / 2 < conv(x, trim_zeros_front(h[(h.len() / 2) as int].reverse())).len()
            ==> #[trigger] sgolay_row_spec(h, x)[i]
                == conv(x, trim_zeros_front(h[(h.len() / 2) as int].reverse()))[i + h.len() - h.len() / 2],
        conv(x, trim_zeros_front(h[(h.len() / 2) as int].reverse())).len() >= 1 ==>
            sgolay_row_spec(h, x)[x.len() + h.len() / 2 - h.len()]
                == conv(x, trim_zeros_front(h[(h.len() / 2) as int].reverse()))[0],
{
    let n = h.len() as int;
    let k = n / 2;
    let len = x.len() as int;
    let mid = h[k].reverse();
    let bt = trim_zeros_front(mid);
    let nw = sat_sub(max_len(1, mid.len() as int), 1);
    let w = Seq::new(nw as nat, |i: int| 0int);
    assert(trim_zeros_front(seq![1int]) == seq![1int]);
    lemma_run_len(bt, seq![1int], w, x);
    crate::quantities::polynomial::euclid::lemma_trim_len(mid);
    assert(nw == n - 1);
    assert(rest(bt).len() <= w.len());
    assert forall|i: int| k <= i && i + n - k < len && i + n - k < conv(x, bt).len()
        implies #[trigger] sgolay_row_spec(h, x)[i] == conv(x, bt)[i + n - k] by {
        let m = i + n - k;
        lemma_fir_filter_is_convolution(bt, w, x, m);
        assert(i < len + 1 + k - n);
        assert(m % len == m) by {
            vstd::arithmetic::div_mod::lemma_small_mod(m as nat, len as nat);
        }
    }
    if conv(x, bt).len() >= 1 {
        let i = len + k - n;
        lemma_fir_filter_is_convolution(bt, w, x, 0);
        assert(i < len + 1 + k - n && i >= k);
        assert((i + n - k) % len == 0) by {
            vstd::arithmetic::div_mod::lemma_mod_self_0(len);
        }
    }
}

} // verus!
