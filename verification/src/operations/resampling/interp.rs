//! Sample bookkeeping of interpolation by an integer ratio.
//!
//! A row of `l` samples is spread out to one sample every `ratio` places,
//! with zeros between them, a linear extrapolation of the last two samples
//! after them and `ratio * order` more zeros for the low-pass filter to run
//! out; after filtering, the filter's delay is cut off the front and the
//! result is cut to `ratio * l` samples.
use vstd::prelude::*;
use crate::arith::{ints, in_i64, lemma_ints_push};

verus! {

/// The sample after the last one, continuing the line through the last two
/// samples (or repeating the only one).
pub open spec fn extrapolated(x: Seq<int>) -> int {
    let l = x.len() as int;
    if l >= 2 { 2 * x[l - 1] - x[l - 2] } else { x[l - 1] }
}

/// The spread-out row: `x[i]` at `i * ratio`, the extrapolated sample at
/// `l * ratio`, zeros elsewhere, `l * ratio + ratio * order + 1` samples.
pub open spec fn stuffed(x: Seq<int>, ratio: int, order: int) -> Seq<int> {
    let l = x.len() as int;
    Seq::new((l * ratio + ratio * order + 1) as nat, |k: int|
        if k < l * ratio && k % ratio == 0 {
            x[k / ratio]
        } else if k == l * ratio {
            extrapolated(x)
        } else {
            0
        })
}

/// How many leading samples of the filtered row are the filter's delay.
pub open spec fn interp_delay(ratio: int, order: int) -> int {
    let s = ratio * order - ratio / 2;
    if s < 0 { 0 } else { s }
}

/// Spreads out a row of samples for interpolation by `ratio` with a filter of
/// order `order`; an empty row stays empty.
pub fn interp_stuff(x: &[i64], ratio: usize, order: usize) -> (y: Vec<i64>)
    requires
        ratio >= 1,
        x@.len() * ratio + ratio * order + 1 <= usize::MAX,
        x@.len() >= 1 ==> in_i64(extrapolated(ints(x@))),
    ensures
        x@.len() == 0 ==> y@.len() == 0,
        x@.len() >= 1 ==> ints(y@) == stuffed(ints(x@), ratio as int, order as int),
{
    let l: usize = x.len();
    if l == 0 {
        return Vec::new();
    }
    let ghost xs = ints(x@);
    let ghost target = stuffed(xs, ratio as int, order as int);
    assert(l * ratio <= l * ratio + ratio * order) by (nonlinear_arith)
        requires ratio * order >= 0;
    let lr: usize = l * ratio;
    let len: usize = lr + ratio * order + 1;
    let last: i64 = x[l - 1];
    let ext: i64 = if l >= 2 {
        let e: i128 = 2 * (last as i128) - (x[l - 2] as i128);
        e as i64
    } else {
        last
    };
    let mut y: Vec<i64> = Vec::new();
    let mut k: usize = 0;
    let mut i: usize = 0;
    let mut phase: usize = 0;
    while k < len
        invariant
            l == x@.len() >= 1,
            ratio >= 1,
            xs == ints(x@),
            lr == l * ratio,
            len == lr + ratio * order + 1,
            target == stuffed(xs, ratio as int, order as int),
            ext as int == extrapolated(xs),
            k <= len,
            phase < ratio,
            k == i * ratio + phase,
            i <= k,
            ints(y@) == target.subrange(0, k as int),
        decreases len - k,
    {
        let v: i64 = if k < lr && phase == 0 {
            assert(i < l) by (nonlinear_arith)
                requires k == i * ratio, k < l * ratio, ratio >= 1;
            x[i]
        } else if k == lr {
            ext
        } else {
            0
        };
        assert(v as int == target[k as int]) by {
            vstd::arithmetic::div_mod::lemma_fundamental_div_mod_converse(
                k as int, ratio as int, i as int, phase as int);
        }
        proof { lemma_ints_push(y@, v); }
        y.push(v);
        assert(target.subrange(0, k + 1) =~= target.subrange(0, k as int).push(target[k as int]));
        assert(i <= i * ratio) by (nonlinear_arith)
            requires ratio >= 1, i >= 0;
        k += 1;
        if phase + 1 == ratio {
            assert((i + 1) * ratio == i * ratio + ratio) by (nonlinear_arith);
            phase = 0;
            i += 1;
        } else {
            phase += 1;
        }
    }
    assert(target.subrange(0, len as int) =~= target);
    y
}

/// Cuts the filter's delay off the front of the filtered row `y` and keeps
/// at most `ratio * l` samples.
pub fn interp_trim<T: Copy>(y: &[T], ratio: usize, order: usize, l: usize) -> (r: Vec<T>)
    requires
        ratio * order <= usize::MAX,
        ratio * l <= usize::MAX,
        interp_delay(ratio as int, order as int) <= y@.len(),
    ensures
        ({
            let s = interp_delay(ratio as int, order as int);
            let e = if s + ratio * l < y@.len() { s + ratio * l } else { y@.len() as int };
            r@ == y@.subrange(s, e)
        }),
{
    let s: usize = (ratio * order).saturating_sub(ratio / 2);
    let keep: usize = ratio * l;
    let yl: usize = y.len();
    let avail: usize = yl - s;
    let n: usize = if keep < avail { keep } else { avail };
    let mut r: Vec<T> = Vec::new();
    let mut j: usize = 0;
    while j < n
        invariant
            s == interp_delay(ratio as int, order as int),
            yl == y@.len(),
            s + n <= yl,
            j <= n,
            r@ == y@.subrange(s as int, s + j),
        decreases n - j,
    {
        r.push(y[s + j]);
        j += 1;
        assert(r@ =~= y@.subrange(s as int, s + j));
    }
    r
}

/// The stuffed row holds the samples one every `ratio` places.
pub proof fn lemma_stuffed_samples(x: Seq<int>, ratio: int, order: int, i: int)
    requires
        ratio >= 1,
        order >= 0,
        0 <= i < x.len(),
    ensures
        stuffed(x, ratio, order)[i * ratio] == x[i],
{
    let l = x.len() as int;
    assert(0 <= i * ratio < l * ratio) by (nonlinear_arith)
        requires 0 <= i < l, ratio >= 1;
    assert(l * ratio <= l * ratio + ratio * order) by (nonlinear_arith)
        requires ratio >= 1, order >= 0;
    vstd::arithmetic::div_mod::lemma_fundamental_div_mod_converse(i * ratio, ratio, i, 0);
}

} // verus!
