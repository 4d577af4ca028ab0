//! Evaluation of a polynomial at a point.
use vstd::prelude::*;
use crate::arith::{eval, in_i64, ints};
use crate::quantities::polynomial::Polynomial;

verus! {

/// Every product and every running value of Horner's scheme for `s` at `x` fits in `i64`.
pub open spec fn horner_fits(s: Seq<int>, x: int) -> bool {
    forall|i: int|
        0 <= i < s.len() ==> in_i64(#[trigger] eval(s.take(i), x) * x) && in_i64(eval(s.take(i + 1), x))
}

impl Polynomial<i64, Vec<i64>> {
    /// The value of the polynomial at `x`, by Horner's scheme from the highest power.
    pub fn call(&self, x: i64) -> (y: i64)
        requires
            horner_fits(ints(self@), x as int),
        ensures
            y as int == eval(ints(self@), x as int),
    {
        let ghost s = ints(self@);
        let c = &self.c;
        let n = c.len();
        let mut y: i64 = 0;
        let mut i: usize = 0;
        assert(s.take(0) =~= Seq::<int>::empty());
        while i < n
            invariant
                s == ints(self@),
                self@ == c@,
                n == c@.len(),
                horner_fits(s, x as int),
                i <= n,
                y as int == eval(s.take(i as int), x as int),
            decreases n - i,
        {
            assert(in_i64(eval(s.take(i as int), x as int) * x) && in_i64(eval(s.take(i + 1), x as int)));
            assert(s.take(i + 1).drop_last() =~= s.take(i as int));
            y = y * x;
            y = y + c[i];
            i += 1;
        }
        assert(s.take(n as int) =~= s);
        y
    }
}

} // verus!
