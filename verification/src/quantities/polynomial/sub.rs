//! Subtraction of polynomials.
use vstd::prelude::*;
use crate::arith::{eval, in_i64, ints, lemma_eval_add, lemma_eval_leading_zeros, pad_front};
use crate::quantities::polynomial::Polynomial;

verus! {

/// Coefficients of `a - b`: both are padded with leading zeros to the longer
/// length and subtracted coefficient by coefficient.
pub open spec fn sub_spec(a: Seq<int>, b: Seq<int>) -> Seq<int> {
    let len = if a.len() >= b.len() { a.len() } else { b.len() };
    Seq::new(len, |k: int| pad_front(a, len as int)[k] - pad_front(b, len as int)[k])
}

impl Polynomial<i64, Vec<i64>> {
    /// The difference of two polynomials, aligned at their constant terms.
    pub fn sub(self, rhs: Polynomial<i64, Vec<i64>>) -> (p: Polynomial<i64, Vec<i64>>)
        requires
            forall|k: int| 0 <= k < sub_spec(ints(self@), ints(rhs@)).len()
                ==> in_i64(#[trigger] sub_spec(ints(self@), ints(rhs@))[k]),
        ensures
            ints(p@) == sub_spec(ints(self@), ints(rhs@)),
    {
        let ghost ai = ints(self@);
        let ghost bi = ints(rhs@);
        let a = self.into_inner();
        let b = rhs.into_inner();
        let n = a.len();
        let m = b.len();
        let len = if n >= m { n } else { m };
        let ghost pa = pad_front(ai, len as int);
        let ghost pb = pad_front(bi, len as int);
        let mut out: Vec<i64> = Vec::new();
        let mut k: usize = 0;
        while k < len
            invariant
                ai == ints(a@),
                bi == ints(b@),
                n == a@.len(),
                m == b@.len(),
                len == if n >= m { n } else { m },
                pa == pad_front(ai, len as int),
                pb == pad_front(bi, len as int),
                forall|k: int| 0 <= k < sub_spec(ai, bi).len() ==> in_i64(#[trigger] sub_spec(ai, bi)[k]),
                k <= len,
                out@.len() == k,
                forall|i: int| 0 <= i < k ==> out@[i] as int == pa[i] - pb[i],
            decreases len - k,
        {
            assert(in_i64(sub_spec(ai, bi)[k as int]));
            let x: i64 = if k >= len - n { a[k - (len - n)] } else { 0 };
            let y: i64 = if k >= len - m { b[k - (len - m)] } else { 0 };
            assert(x as int == pa[k as int]);
            assert(y as int == pb[k as int]);
            out.push(x - y);
            k += 1;
        }
        let p = Polynomial::new(out);
        assert(ints(p@) =~= sub_spec(ai, bi));
        p
    }
}

impl Polynomial<i64, Vec<i64>> {
    /// Replaces the polynomial by its difference with `rhs`.
    pub fn sub_assign(&mut self, rhs: Polynomial<i64, Vec<i64>>)
        requires
            forall|k: int| 0 <= k < sub_spec(ints(old(self)@), ints(rhs@)).len()
                ==> in_i64(#[trigger] sub_spec(ints(old(self)@), ints(rhs@))[k]),
        ensures
            ints(final(self)@) == sub_spec(ints(old(self)@), ints(rhs@)),
    {
        let mut lhs = Polynomial::zero();
        core::mem::swap(&mut lhs, self);
        *self = lhs.sub(rhs);
    }
}

/// Law: the value of a difference is the difference of the values.
pub proof fn lemma_eval_sub(a: Seq<int>, b: Seq<int>, x: int)
    ensures
        eval(sub_spec(a, b), x) == eval(a, x) - eval(b, x),
{
    let d = sub_spec(a, b);
    let len = d.len() as int;
    let pa = pad_front(a, len);
    let pb = pad_front(b, len);
    lemma_eval_pad_front(a, len, x);
    lemma_eval_pad_front(b, len, x);
    lemma_eval_add(pa, d, pb, x);
}

/// Padding with leading zeros keeps the value.
pub proof fn lemma_eval_pad_front(s: Seq<int>, len: int, x: int)
    ensures
        eval(pad_front(s, len), x) == eval(s, x),
        pad_front(s, len).len() == if s.len() >= len { s.len() as int } else { len },
{
    if s.len() < len {
        let p = pad_front(s, len);
        let z = (len - s.len()) as nat;
        lemma_eval_leading_zeros(p, z, x);
        assert(p.subrange(z as int, p.len() as int) =~= s);
    }
}

} // verus!
