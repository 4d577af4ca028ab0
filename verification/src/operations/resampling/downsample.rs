//! Keeping every `n`-th sample.
use vstd::prelude::*;
use crate::quantities::lists_or_single::rows_of;

verus! {

/// Every `n`-th sample of `x`, starting at `phase % n`.
pub open spec fn downsample_spec<T>(x: Seq<T>, n: nat, phase: nat) -> Seq<T>
    recommends
        n > 0,
{
    let p = phase % n;
    let len = if p < x.len() { ((x.len() - p - 1) as nat / n + 1) as nat } else { 0nat };
    Seq::new(len, |k: int| x[p + k * n])
}

/// Keeps every `n`-th sample of `x`, starting at `phase % n`.
pub fn downsample_row<T: Copy>(x: &[T], n: usize, phase: usize) -> (y: Vec<T>)
    requires
        n > 0,
    ensures
        y@ == downsample_spec(x@, n as nat, phase as nat),
{
    let p = phase % n;
    let len = x.len();
    let count: usize = if p < len { (len - p - 1) / n + 1 } else { 0 };
    let mut y: Vec<T> = Vec::new();
    let mut k: usize = 0;
    while k < count
        invariant
            n > 0,
            p == phase % n,
            len == x@.len(),
            count == if p < len { ((len - p - 1) as nat / n as nat + 1) as nat } else { 0nat },
            k <= count,
            y@.len() == k,
            forall|t: int| 0 <= t < k ==> #[trigger] y@[t] == x@[p + t * n],
        decreases count - k,
    {
        proof {
            let q = ((len - p - 1) as nat / n as nat) as int;
            assert(k * n <= q * n) by (nonlinear_arith)
                requires k <= q, n > 0;
            assert(q * n <= len - p - 1) by (nonlinear_arith)
                requires q == (len - p - 1) as int / n as int, n > 0, len - p - 1 >= 0;
        }
        y.push(x[p + k * n]);
        k += 1;
    }
    assert(y@ =~= downsample_spec(x@, n as nat, phase as nat));
    y
}

/// Containers whose rows can be downsampled.
pub trait Downsample<T, N, Y>: Sized {
    /// What the rows become.
    type Output;

    /// Inputs on which downsampling is defined.
    spec fn downsample_requires(self, n: N, phase: usize) -> bool;

    /// The result of downsampling every row.
    spec fn downsample_ensures(self, n: N, phase: usize, out: Self::Output) -> bool;

    /// Keeps every `n`-th sample of every row, starting at `phase % n`.
    fn downsample(self, n: N, phase: usize) -> (out: Self::Output)
        requires
            self.downsample_requires(n, phase),
        ensures
            self.downsample_ensures(n, phase, out);
}

impl<T: Copy> Downsample<T, usize, Vec<T>> for Vec<T> {
    type Output = Vec<T>;

    open spec fn downsample_requires(self, n: usize, phase: usize) -> bool {
        n > 0
    }

    open spec fn downsample_ensures(self, n: usize, phase: usize, out: Vec<T>) -> bool {
        out@ == downsample_spec(self@, n as nat, phase as nat)
    }

    fn downsample(self, n: usize, phase: usize) -> (out: Vec<T>) {
        downsample_row(self.as_slice(), n, phase)
    }
}

impl<'a, T: Copy> Downsample<T, usize, Vec<T>> for &'a [T] {
    type Output = Vec<T>;

    open spec fn downsample_requires(self, n: usize, phase: usize) -> bool {
        n > 0
    }

    open spec fn downsample_ensures(self, n: usize, phase: usize, out: Vec<T>) -> bool {
        out@ == downsample_spec(self@, n as nat, phase as nat)
    }

    fn downsample(self, n: usize, phase: usize) -> (out: Vec<T>) {
        downsample_row(self, n, phase)
    }
}

impl<T: Copy, const M: usize> Downsample<T, usize, Vec<T>> for [T; M] {
    type Output = Vec<T>;

    open spec fn downsample_requires(self, n: usize, phase: usize) -> bool {
        n > 0
    }

    open spec fn downsample_ensures(self, n: usize, phase: usize, out: Vec<T>) -> bool {
        out@ == downsample_spec(self@, n as nat, phase as nat)
    }

    fn downsample(self, n: usize, phase: usize) -> (out: Vec<T>) {
        downsample_row(self.as_slice(), n, phase)
    }
}

impl<T: Copy> Downsample<T, usize, Vec<T>> for Vec<Vec<T>> {
    type Output = Vec<Vec<T>>;

    open spec fn downsample_requires(self, n: usize, phase: usize) -> bool {
        n > 0
    }

    open spec fn downsample_ensures(self, n: usize, phase: usize, out: Vec<Vec<T>>) -> bool {
        &&& out@.len() == self@.len()
        &&& forall|i: int| 0 <= i < self@.len()
            ==> #[trigger] out@[i]@ == downsample_spec(self@[i]@, n as nat, phase as nat)
    }

    fn downsample(self, n: usize, phase: usize) -> (out: Vec<Vec<T>>) {
        let mut out: Vec<Vec<T>> = Vec::new();
        let mut i: usize = 0;
        while i < self.len()
            invariant
                n > 0,
                i <= self@.len(),
                out@.len() == i,
                forall|k: int| 0 <= k < i
                    ==> #[trigger] out@[k]@ == downsample_spec(self@[k]@, n as nat, phase as nat),
            decreases self@.len() - i,
        {
            out.push(downsample_row(self[i].as_slice(), n, phase));
            i += 1;
        }
        out
    }
}

} // verus!
