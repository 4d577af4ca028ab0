//! Negation of polynomials.
use vstd::prelude::*;
use crate::arith::ints;
use crate::quantities::polynomial::Polynomial;

verus! {

impl Polynomial<i64, Vec<i64>> {
    /// Negates every coefficient.
    pub fn neg(self) -> (p: Polynomial<i64, Vec<i64>>)
        requires
            forall|i: int| 0 <= i < self@.len() ==> self@[i] != i64::MIN,
        ensures
            p@.len() == self@.len(),
            forall|i: int| 0 <= i < self@.len() ==> ints(p@)[i] == -ints(self@)[i],
    {
        let c = self.into_inner();
        let mut out: Vec<i64> = Vec::new();
        let mut i: usize = 0;
        while i < c.len()
            invariant
                i <= c@.len(),
                forall|k: int| 0 <= k < c@.len() ==> c@[k] != i64::MIN,
                out@.len() == i,
                forall|k: int| 0 <= k < i ==> out@[k] == -c@[k],
            decreases c@.len() - i,
        {
            out.push(-c[i]);
            i += 1;
        }
        Polynomial::new(out)
    }
}

} // verus!
