//! Interleaving a fixed block of samples between the samples of a sequence.
use vstd::prelude::*;
use vstd::arithmetic::div_mod::lemma_fundamental_div_mod_converse;
use crate::operations::resampling::downsample::downsample_spec;

verus! {

/// Every sample of `x` becomes a block: `fill` with the sample inserted at
/// position `phase % (fill.len() + 1)`.
pub open spec fn upsample_fill_spec<T>(x: Seq<T>, fill: Seq<T>, phase: nat) -> Seq<T> {
    let w = fill.len() + 1;
    let p = phase % w;
    Seq::new(x.len() * w, |i: int|
        if i % (w as int) == p as int {
            x[i / (w as int)]
        } else if i % (w as int) < p as int {
            fill[i % (w as int)]
        } else {
            fill[i % (w as int) - 1]
        })
}

/// Replaces every sample of `x` by a copy of `fill` with the sample inserted at
/// position `phase % (fill.len() + 1)`.
pub fn upsample_fill_row<T: Copy>(x: &[T], fill: &[T], phase: usize) -> (y: Vec<T>)
    requires
        fill@.len() < usize::MAX,
        x@.len() * (fill@.len() + 1) <= usize::MAX,
    ensures
        y@ == upsample_fill_spec(x@, fill@, phase as nat),
{
    let m = fill.len();
    let w = m + 1;
    let p = phase % w;
    let len = x.len();
    let ghost spec_y = upsample_fill_spec(x@, fill@, phase as nat);
    let mut y: Vec<T> = Vec::new();
    let mut k: usize = 0;
    while k < len
        invariant
            m == fill@.len(),
            w == m + 1,
            p == phase % w,
            len == x@.len(),
            len * w <= usize::MAX,
            spec_y == upsample_fill_spec(x@, fill@, phase as nat),
            k <= len,
            y@.len() == k * w,
            forall|i: int| 0 <= i < k * w ==> #[trigger] y@[i] == spec_y[i],
        decreases len - k,
    {
        let mut j: usize = 0;
        while j < w
            invariant
                m == fill@.len(),
                w == m + 1,
                p == phase % w,
                p < w,
                len == x@.len(),
                len * w <= usize::MAX,
                spec_y == upsample_fill_spec(x@, fill@, phase as nat),
                k < len,
                j <= w,
                y@.len() == k * w + j,
                forall|i: int| 0 <= i < k * w + j ==> #[trigger] y@[i] == spec_y[i],
            decreases w - j,
        {
            proof {
                assert((k + 1) * w <= len * w) by (nonlinear_arith)
                    requires k + 1 <= len, w > 0;
                assert((k + 1) * w == k * w + w) by (nonlinear_arith);
                lemma_fundamental_div_mod_converse((k * w + j) as int, w as int, k as int, j as int);
            }
            if j == p {
                y.push(x[k]);
            } else if j < p {
                y.push(fill[j]);
            } else {
                y.push(fill[j - 1]);
            }
            j += 1;
        }
        proof {
            assert((k + 1) * w == k * w + w) by (nonlinear_arith);
        }
        k += 1;
    }
    assert(y@ =~= spec_y);
    y
}

/// Law: downsampling by the block length, at the same phase, recovers the samples.
pub proof fn lemma_downsample_upsample_fill<T>(x: Seq<T>, fill: Seq<T>, phase: nat)
    ensures
        downsample_spec(upsample_fill_spec(x, fill, phase), fill.len() + 1, phase) == x,
{
    let w = fill.len() + 1;
    let y = upsample_fill_spec(x, fill, phase);
    let p = phase % w;
    let d = downsample_spec(y, w, phase);
    if x.len() == 0 {
        assert(y.len() == 0) by (nonlinear_arith)
            requires y.len() == x.len() * w, x.len() == 0;
    } else {
        let len = x.len() * w;
        assert(len >= w) by (nonlinear_arith)
            requires len == x.len() * w, x.len() >= 1, w > 0;
        assert((x.len() - 1) * w + (w - p - 1) == len - p - 1) by (nonlinear_arith)
            requires len == x.len() * w;
        lemma_fundamental_div_mod_converse((len - p - 1) as int, w as int, (x.len() - 1) as int, (w - p - 1) as int);
        assert forall|k: int| 0 <= k < x.len() implies #[trigger] d[k] == x[k] by {
            lemma_fundamental_div_mod_converse(p + k * w, w as int, k, p as int);
            assert(p + k * w < len) by (nonlinear_arith)
                requires 0 <= k < x.len(), len == x.len() * w, p < w;
        }
    }
    assert(d =~= x);
}

/// Containers whose rows can have a block of samples interleaved.
pub trait UpsampleFill<T, V, Y>: Sized {
    /// What the rows become.
    type Output;

    /// Inputs on which the operation is defined.
    spec fn upsample_fill_requires(self, interleave: V, phase: usize) -> bool;

    /// The result for every row.
    spec fn upsample_fill_ensures(self, interleave: V, phase: usize, out: Self::Output) -> bool;

    /// Replaces every sample by `interleave` with the sample inserted at
    /// position `phase % (interleave.len() + 1)`.
    fn upsample_fill(self, interleave: V, phase: usize) -> (out: Self::Output)
        requires
            self.upsample_fill_requires(interleave, phase),
        ensures
            self.upsample_fill_ensures(interleave, phase, out);
}

impl<T: Copy> UpsampleFill<T, Vec<T>, Vec<T>> for Vec<T> {
    type Output = Vec<T>;

    open spec fn upsample_fill_requires(self, interleave: Vec<T>, phase: usize) -> bool {
        interleave@.len() < usize::MAX && self@.len() * (interleave@.len() + 1) <= usize::MAX
    }

    open spec fn upsample_fill_ensures(self, interleave: Vec<T>, phase: usize, out: Vec<T>) -> bool {
        out@ == upsample_fill_spec(self@, interleave@, phase as nat)
    }

    fn upsample_fill(self, interleave: Vec<T>, phase: usize) -> (out: Vec<T>) {
        upsample_fill_row(self.as_slice(), interleave.as_slice(), phase)
    }
}

impl<'a, T: Copy> UpsampleFill<T, &'a [T], Vec<T>> for &'a [T] {
    type Output = Vec<T>;

    open spec fn upsample_fill_requires(self, interleave: &'a [T], phase: usize) -> bool {
        interleave@.len() < usize::MAX && self@.len() * (interleave@.len() + 1) <= usize::MAX
    }

    open spec fn upsample_fill_ensures(self, interleave: &'a [T], phase: usize, out: Vec<T>) -> bool {
        out@ == upsample_fill_spec(self@, interleave@, phase as nat)
    }

    fn upsample_fill(self, interleave: &'a [T], phase: usize) -> (out: Vec<T>) {
        upsample_fill_row(self, interleave, phase)
    }
}

impl<T: Copy> UpsampleFill<T, Vec<T>, Vec<T>> for Vec<Vec<T>> {
    type Output = Vec<Vec<T>>;

    open spec fn upsample_fill_requires(self, interleave: Vec<T>, phase: usize) -> bool {
        interleave@.len() < usize::MAX && forall|i: int| 0 <= i < self@.len()
            ==> #[trigger] self@[i]@.len() * (interleave@.len() + 1) <= usize::MAX
    }

    open spec fn upsample_fill_ensures(self, interleave: Vec<T>, phase: usize, out: Vec<Vec<T>>) -> bool {
        &&& out@.len() == self@.len()
        &&& forall|i: int| 0 <= i < self@.len()
            ==> #[trigger] out@[i]@ == upsample_fill_spec(self@[i]@, interleave@, phase as nat)
    }

    fn upsample_fill(self, interleave: Vec<T>, phase: usize) -> (out: Vec<Vec<T>>) {
        let mut out: Vec<Vec<T>> = Vec::new();
        let mut i: usize = 0;
        while i < self.len()
            invariant
                interleave@.len() < usize::MAX,
                forall|i: int| 0 <= i < self@.len()
                    ==> #[trigger] self@[i]@.len() * (interleave@.len() + 1) <= usize::MAX,
                i <= self@.len(),
                out@.len() == i,
                forall|k: int| 0 <= k < i
                    ==> #[trigger] out@[k]@ == upsample_fill_spec(self@[k]@, interleave@, phase as nat),
            decreases self@.len() - i,
        {
            assert(self@[i as int]@.len() * (interleave@.len() + 1) <= usize::MAX);
            out.push(upsample_fill_row(self[i].as_slice(), interleave.as_slice(), phase));
            i += 1;
        }
        out
    }
}

} // verus!
