//! Equality of polynomials, leading zero coefficients aside.
use vstd::prelude::*;
use vstd::std_specs::cmp::PartialEqSpecImpl;
use crate::arith::{eval, ints, trim_zeros_front};
use crate::quantities::polynomial::{Polynomial, lemma_eval_trim, lemma_trim_skip};

verus! {

/// Index of the first non-zero coefficient of `c` (or its length).
fn first_nonzero(c: &Vec<i64>) -> (i: usize)
    ensures
        i <= c@.len(),
        forall|k: int| 0 <= k < i ==> c@[k] == 0,
        i < c@.len() ==> c@[i as int] != 0,
        trim_zeros_front(ints(c@)) == ints(c@).subrange(i as int, c@.len() as int),
{
    let mut i: usize = 0;
    while i < c.len() && c[i] == 0
        invariant
            i <= c@.len(),
            forall|k: int| 0 <= k < i ==> c@[k] == 0,
        decreases c@.len() - i,
    {
        i += 1;
    }
    proof {
        lemma_trim_skip(ints(c@), i as int);
    }
    i
}

impl PartialEq for Polynomial<i64, Vec<i64>> {
    fn eq(&self, other: &Self) -> (r: bool) {
        let a = &self.c;
        let b = &other.c;
        let i = first_nonzero(a);
        let j = first_nonzero(b);
        let ghost ta = ints(a@).subrange(i as int, a@.len() as int);
        let ghost tb = ints(b@).subrange(j as int, b@.len() as int);
        if a.len() - i != b.len() - j {
            assert(ta.len() != tb.len());
            return false;
        }
        let len = a.len() - i;
        let na = a.len();
        let nb = b.len();
        let mut k: usize = 0;
        while k < len
            invariant
                self@ == a@,
                other@ == b@,
                i <= a@.len(),
                j <= b@.len(),
                na == a@.len(),
                nb == b@.len(),
                len == na - i,
                len == nb - j,
                ta == ints(a@).subrange(i as int, a@.len() as int),
                tb == ints(b@).subrange(j as int, b@.len() as int),
                trim_zeros_front(ints(a@)) == ta,
                trim_zeros_front(ints(b@)) == tb,
                k <= len,
                forall|t: int| 0 <= t < k ==> ta[t] == tb[t],
            decreases len - k,
        {
            if a[i + k] != b[j + k] {
                assert(ta[k as int] != tb[k as int]);
                return false;
            }
            k += 1;
        }
        assert(ta =~= tb);
        true
    }
}

impl PartialEqSpecImpl for Polynomial<i64, Vec<i64>> {
    open spec fn obeys_eq_spec() -> bool {
        true
    }

    open spec fn eq_spec(&self, other: &Self) -> bool {
        trim_zeros_front(ints(self@)) == trim_zeros_front(ints(other@))
    }
}

/// Law: polynomials that compare equal take the same value everywhere.
pub proof fn lemma_eq_eval(a: Seq<int>, b: Seq<int>, x: int)
    requires
        trim_zeros_front(a) == trim_zeros_front(b),
    ensures
        eval(a, x) == eval(b, x),
{
    lemma_eval_trim(a, x);
    lemma_eval_trim(b, x);
}

} // verus!
