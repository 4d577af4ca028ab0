//! Inserting zeros between samples.
use vstd::prelude::*;
use vstd::arithmetic::div_mod::lemma_fundamental_div_mod_converse;
use crate::quantities::zero::Zero;
use crate::operations::resampling::downsample::downsample_spec;

verus! {

/// `x` with every sample followed or preceded by zeros so that each occupies `n`
/// slots, the sample itself at slot `phase % n`.
pub open spec fn upsample_spec<T>(x: Seq<T>, n: nat, phase: nat, zero: T) -> Seq<T>
    recommends
        n > 0,
{
    Seq::new(x.len() * n, |i: int| if i % (n as int) == (phase % n) as int { x[i / (n as int)] } else { zero })
}

/// Spreads the samples of `x` `n` slots apart, filling the other slots with zeros.
pub fn upsample_row<T: Copy + Zero>(x: &[T], n: usize, phase: usize) -> (y: Vec<T>)
    requires
        n > 0,
        x@.len() * n <= usize::MAX,
    ensures
        y@ == upsample_spec(x@, n as nat, phase as nat, T::spec_zero()),
{
    let p = phase % n;
    let zero = T::zero();
    let len = x.len();
    let mut y: Vec<T> = Vec::new();
    let mut k: usize = 0;
    while k < len
        invariant
            n > 0,
            p == phase % n,
            zero == T::spec_zero(),
            len == x@.len(),
            len * n <= usize::MAX,
            k <= len,
            y@.len() == k * n,
            forall|i: int| 0 <= i < k * n ==> #[trigger] y@[i]
                == upsample_spec(x@, n as nat, phase as nat, zero)[i],
        decreases len - k,
    {
        let mut j: usize = 0;
        while j < n
            invariant
                n > 0,
                p == phase % n,
                p < n,
                zero == T::spec_zero(),
                len == x@.len(),
                len * n <= usize::MAX,
                k < len,
                j <= n,
                y@.len() == k * n + j,
                forall|i: int| 0 <= i < k * n + j ==> #[trigger] y@[i]
                    == upsample_spec(x@, n as nat, phase as nat, zero)[i],
            decreases n - j,
        {
            proof {
                assert((k + 1) * n <= len * n) by (nonlinear_arith)
                    requires k + 1 <= len, n > 0;
                assert((k + 1) * n == k * n + n) by (nonlinear_arith);
                lemma_fundamental_div_mod_converse((k * n + j) as int, n as int, k as int, j as int);
            }
            if j == p {
                y.push(x[k]);
            } else {
                y.push(zero);
            }
            j += 1;
        }
        proof {
            assert((k + 1) * n == k * n + n) by (nonlinear_arith);
        }
        k += 1;
    }
    assert(y@ =~= upsample_spec(x@, n as nat, phase as nat, zero));
    y
}

/// Law: downsampling with the same factor and phase undoes upsampling.
pub proof fn lemma_downsample_upsample<T>(x: Seq<T>, n: nat, phase: nat, zero: T)
    requires
        n > 0,
    ensures
        downsample_spec(upsample_spec(x, n, phase, zero), n, phase) == x,
{
    let y = upsample_spec(x, n, phase, zero);
    let p = phase % n;
    let d = downsample_spec(y, n, phase);
    if x.len() == 0 {
        assert(y.len() == 0) by (nonlinear_arith)
            requires y.len() == x.len() * n, x.len() == 0;
    } else {
        let len = x.len() * n;
        assert(len >= n) by (nonlinear_arith)
            requires len == x.len() * n, x.len() >= 1, n > 0;
        assert(p < n);
        // (len - p - 1) / n + 1 == x.len()
        assert((x.len() - 1) * n + (n - p - 1) == len - p - 1) by (nonlinear_arith)
            requires len == x.len() * n;
        lemma_fundamental_div_mod_converse((len - p - 1) as int, n as int, (x.len() - 1) as int, (n - p - 1) as int);
        assert forall|k: int| 0 <= k < x.len() implies #[trigger] d[k] == x[k] by {
            lemma_fundamental_div_mod_converse(p + k * n, n as int, k, p as int);
            assert(p + k * n < len) by (nonlinear_arith)
                requires 0 <= k < x.len(), len == x.len() * n, p < n;
        }
    }
    assert(d =~= x);
}

/// Containers whose rows can be upsampled.
pub trait Upsample<T, N, Y>: Sized {
    /// What the rows become.
    type Output;

    /// Inputs on which upsampling is defined.
    spec fn upsample_requires(self, n: N, phase: usize) -> bool;

    /// The result of upsampling every row.
    spec fn upsample_ensures(self, n: N, phase: usize, out: Self::Output) -> bool;

    /// Spreads the samples of every row `n` slots apart, starting at `phase % n`,
    /// with zeros in between.
    fn upsample(self, n: N, phase: usize) -> (out: Self::Output)
        requires
            self.upsample_requires(n, phase),
        ensures
            self.upsample_ensures(n, phase, out);
}

impl<T: Copy + Zero> Upsample<T, usize, Vec<T>> for Vec<T> {
    type Output = Vec<T>;

    open spec fn upsample_requires(self, n: usize, phase: usize) -> bool {
        n > 0 && self@.len() * n <= usize::MAX
    }

    open spec fn upsample_ensures(self, n: usize, phase: usize, out: Vec<T>) -> bool {
        out@ == upsample_spec(self@, n as nat, phase as nat, T::spec_zero())
    }

    fn upsample(self, n: usize, phase: usize) -> (out: Vec<T>) {
        upsample_row(self.as_slice(), n, phase)
    }
}

impl<'a, T: Copy + Zero> Upsample<T, usize, Vec<T>> for &'a [T] {
    type Output = Vec<T>;

    open spec fn upsample_requires(self, n: usize, phase: usize) -> bool {
        n > 0 && self@.len() * n <= usize::MAX
    }

    open spec fn upsample_ensures(self, n: usize, phase: usize, out: Vec<T>) -> bool {
        out@ == upsample_spec(self@, n as nat, phase as nat, T::spec_zero())
    }

    fn upsample(self, n: usize, phase: usize) -> (out: Vec<T>) {
        upsample_row(self, n, phase)
    }
}

impl<T: Copy + Zero, const M: usize> Upsample<T, usize, Vec<T>> for [T; M] {
    type Output = Vec<T>;

    open spec fn upsample_requires(self, n: usize, phase: usize) -> bool {
        n > 0 && M * n <= usize::MAX
    }

    open spec fn upsample_ensures(self, n: usize, phase: usize, out: Vec<T>) -> bool {
        out@ == upsample_spec(self@, n as nat, phase as nat, T::spec_zero())
    }

    fn upsample(self, n: usize, phase: usize) -> (out: Vec<T>) {
        upsample_row(self.as_slice(), n, phase)
    }
}

impl<T: Copy + Zero> Upsample<T, usize, Vec<T>> for Vec<Vec<T>> {
    type Output = Vec<Vec<T>>;

    open spec fn upsample_requires(self, n: usize, phase: usize) -> bool {
        &&& n > 0
        &&& forall|i: int| 0 <= i < self@.len() ==> #[trigger] self@[i]@.len() * n <= usize::MAX
    }

    open spec fn upsample_ensures(self, n: usize, phase: usize, out: Vec<Vec<T>>) -> bool {
        &&& out@.len() == self@.len()
        &&& forall|i: int| 0 <= i < self@.len()
            ==> #[trigger] out@[i]@ == upsample_spec(self@[i]@, n as nat, phase as nat, T::spec_zero())
    }

    fn upsample(self, n: usize, phase: usize) -> (out: Vec<Vec<T>>) {
        let mut out: Vec<Vec<T>> = Vec::new();
        let mut i: usize = 0;
        while i < self.len()
            invariant
                n > 0,
                forall|i: int| 0 <= i < self@.len() ==> #[trigger] self@[i]@.len() * n <= usize::MAX,
                i <= self@.len(),
                out@.len() == i,
                forall|k: int| 0 <= k < i
                    ==> #[trigger] out@[k]@ == upsample_spec(self@[k]@, n as nat, phase as nat, T::spec_zero()),
            decreases self@.len() - i,
        {
            assert(self@[i as int]@.len() * n <= usize::MAX);
            out.push(upsample_row(self[i].as_slice(), n, phase));
            i += 1;
        }
        out
    }
}

} // verus!
