//! Linear systems: a rational transfer function, and a transfer function
//! together with the state that filtering through it carries along.
use vstd::prelude::*;
use crate::arith::{ints, trim_zeros_front};
use crate::operations::filter_mut::{int_rows, row_run, row_state, run_fits, sized_state, state_offset};
use crate::operations::filtfilt::{filtfilt_spec, grown_denominator};

verus! {

/// The rational transfer function `b / a`: one numerator per row of `b` over
/// the common denominator `a`, coefficients highest power first.
pub struct Tf {
    pub b: Vec<Vec<i64>>,
    pub a: Vec<i64>,
}

/// A transfer function together with the state that filtering through it
/// carries from one call to the next.
pub struct Rtf {
    pub sys: Tf,
    pub w: Vec<i64>,
}

impl Rtf {
    /// A filter over `sys` that starts from the state `w`, or from an empty
    /// state (which filtering lengthens with zeros).
    pub fn new(sys: Tf, w: Option<Vec<i64>>) -> (r: Rtf)
        ensures
            r.sys == sys,
            r.w@ == (match w {
                Some(w) => w@,
                None => Seq::<i64>::empty(),
            }),
    {
        let w = match w {
            Some(w) => w,
            None => Vec::new(),
        };
        Rtf { sys, w }
    }
}

/// Filtering that carries its state from one call to the next.
pub trait FilterMut: Sized {
    /// Whether every division formed while filtering `x` is exact and every
    /// value formed fits in an `i64`.
    spec fn filter_fits(&self, x: Seq<i64>) -> bool;

    /// `y` holds the outputs of filtering `x`, and `after` is the filter
    /// with the state it leaves.
    spec fn filtered(&self, x: Seq<i64>, y: Seq<Vec<i64>>, after: Self) -> bool;

    /// Filters `x`, one output row per numerator row, keeping the state.
    fn filter_mut(&mut self, x: &[i64]) -> (y: Vec<Vec<i64>>)
        requires
            old(self).filter_fits(x@),
        ensures
            old(self).filtered(x@, y@, *final(self));
}

impl FilterMut for Rtf {
    open spec fn filter_fits(&self, x: Seq<i64>) -> bool {
        let (bs, a) = (int_rows(self.sys.b@), ints(self.sys.a@));
        &&& state_offset(bs, a, bs.len() as int) <= usize::MAX
        &&& forall|k: int| 0 <= k < bs.len() ==> run_fits(trim_zeros_front(#[trigger] bs[k]),
            trim_zeros_front(a), row_state(bs, a, sized_state(bs, a, ints(self.w@)), k), ints(x))
    }

    /// The system is kept; each output row and each row's final state are
    /// those of `filter_mut` on the rows of `b`, the denominator `a` and the
    /// state `w`.
    open spec fn filtered(&self, x: Seq<i64>, y: Seq<Vec<i64>>, after: Self) -> bool {
        let (bs, a) = (int_rows(self.sys.b@), ints(self.sys.a@));
        &&& after.sys == self.sys
        &&& y.len() == bs.len()
        &&& after.w@.len() == state_offset(bs, a, bs.len() as int)
        &&& forall|k: int| 0 <= k < bs.len() ==> ints(#[trigger] y[k]@) == row_run(bs, a, ints(self.w@), ints(x), k).0
        &&& forall|k: int| 0 <= k < bs.len() ==> #[trigger] row_state(bs, a, ints(after.w@), k)
            == row_run(bs, a, ints(self.w@), ints(x), k).1
    }

    fn filter_mut(&mut self, x: &[i64]) -> (y: Vec<Vec<i64>>) {
        let y = crate::operations::filter_mut::filter_mut(&self.sys.b, self.sys.a.as_slice(), &mut self.w, x);
        y
    }
}

/// Zero-phase filtering of rows of samples.
pub trait FiltFilt {
    /// Whether every division formed while filtering the rows `x` is exact and
    /// every value formed fits in an `i64`.
    spec fn filtfilt_fits(&self, x: Seq<Vec<i64>>) -> bool;

    /// `y` holds the rows `x` filtered forwards and backwards.
    spec fn filtered_both_ways(&self, x: Seq<Vec<i64>>, y: Seq<Vec<Vec<i64>>>) -> bool;

    /// Every row of `x` filtered forwards and backwards, one block of rows per
    /// numerator row.
    fn filtfilt(&self, x: &Vec<Vec<i64>>) -> (y: Vec<Vec<Vec<i64>>>)
        requires
            self.filtfilt_fits(x@),
        ensures
            self.filtered_both_ways(x@, y@);
}

impl FiltFilt for Tf {
    open spec fn filtfilt_fits(&self, x: Seq<Vec<i64>>) -> bool {
        forall|k: int, j: int| 0 <= k < self.b@.len() && 0 <= j < x.len()
            ==> crate::operations::filtfilt::filtfilt_fits(#[trigger] int_rows(self.b@)[k],
                grown_denominator(int_rows(self.b@), ints(self.a@), k), #[trigger] int_rows(x)[j])
    }

    /// Block `k`, row `j` is row `j` of `x` filtered forwards and backwards
    /// through numerator row `k` over the denominator as the rows before `k`
    /// have lengthened it.
    open spec fn filtered_both_ways(&self, x: Seq<Vec<i64>>, y: Seq<Vec<Vec<i64>>>) -> bool {
        &&& y.len() == self.b@.len()
        &&& forall|k: int| 0 <= k < self.b@.len() ==> (#[trigger] y[k])@.len() == x.len()
        &&& forall|k: int, j: int| 0 <= k < self.b@.len() && 0 <= j < x.len() ==> ints(#[trigger] y[k]@[j]@)
            == filtfilt_spec(int_rows(self.b@)[k], grown_denominator(int_rows(self.b@), ints(self.a@), k), int_rows(x)[j])
    }

    fn filtfilt(&self, x: &Vec<Vec<i64>>) -> (y: Vec<Vec<Vec<i64>>>) {
        crate::operations::filtfilt::filtfilt(&self.b, self.a.as_slice(), x)
    }
}

} // verus!
