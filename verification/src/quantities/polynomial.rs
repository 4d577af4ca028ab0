//! Polynomials held as coefficient containers, highest power first.
use core::marker::PhantomData;
use vstd::prelude::*;
use crate::arith::{eval, ints, trim_zeros_front};

pub mod mul;
pub mod sub;
pub mod neg;
pub mod pow;
pub mod call;
pub mod euclid;
pub mod partial_eq;

verus! {

/// A polynomial whose coefficients, highest power first, are held in `C`.
pub struct Polynomial<T, C> {
    c: C,
    phantom: PhantomData<T>,
}

impl<T, C: View> View for Polynomial<T, C> {
    type V = C::V;

    closed spec fn view(&self) -> C::V {
        self.c@
    }
}

impl<T, C: View> Polynomial<T, C> {
    /// Wraps a coefficient container.
    pub fn new(c: C) -> (p: Self)
        ensures
            p@ == c@,
    {
        Polynomial { c, phantom: PhantomData }
    }

    /// Gives back the coefficient container.
    pub fn into_inner(self) -> (c: C)
        ensures
            c@ == self@,
    {
        self.c
    }
}

impl<T> Polynomial<T, Vec<T>> {
    /// A polynomial that borrows the coefficients of this one.
    pub fn as_view(&self) -> (p: Polynomial<T, &[T]>)
        ensures
            p@ == self@,
    {
        Polynomial::new(self.c.as_slice())
    }

    /// Applies `map` to every coefficient, keeping their order.
    pub fn map_to_owned<U, F: Fn(&T) -> U>(&self, map: F) -> (p: Polynomial<U, Vec<U>>)
        requires
            forall|i: int| 0 <= i < self@.len() ==> map.requires((&self@[i],)),
        ensures
            p@.len() == self@.len(),
            forall|i: int| 0 <= i < self@.len() ==> map.ensures((&self@[i],), p@[i]),
    {
        let mut out: Vec<U> = Vec::new();
        let mut i: usize = 0;
        while i < self.c.len()
            invariant
                i <= self.c@.len(),
                self@ == self.c@,
                out@.len() == i,
                forall|k: int| 0 <= k < self@.len() ==> map.requires((&self@[k],)),
                forall|k: int| 0 <= k < i ==> map.ensures((&self@[k],), out@[k]),
            decreases self.c@.len() - i,
        {
            out.push(map(&self.c[i]));
            i += 1;
        }
        Polynomial::new(out)
    }

    /// Consumes the polynomial, applying `map` to every coefficient.
    pub fn map_into_owned<U, F: Fn(T) -> U>(self, map: F) -> (p: Polynomial<U, Vec<U>>)
        requires
            forall|i: int| 0 <= i < self@.len() ==> map.requires((self@[i],)),
        ensures
            p@.len() == self@.len(),
            forall|i: int| 0 <= i < self@.len() ==> map.ensures((self@[i],), p@[i]),
    {
        let ghost orig = self@;
        let mut c = self.c;
        let n = c.len();
        // Map from the back, then restore the order.
        let mut rev: Vec<U> = Vec::new();
        while c.len() > 0
            invariant
                n == orig.len(),
                c@ == orig.subrange(0, c@.len() as int),
                rev@.len() + c@.len() == n,
                forall|k: int| 0 <= k < n ==> map.requires((orig[k],)),
                forall|k: int| 0 <= k < rev@.len() ==> map.ensures((orig[n - 1 - k],), rev@[k]),
            decreases c@.len(),
        {
            let x = c.pop().unwrap();
            rev.push(map(x));
        }
        let mut out: Vec<U> = Vec::new();
        while rev.len() > 0
            invariant
                n == orig.len(),
                rev@.len() + out@.len() == n,
                forall|k: int| 0 <= k < rev@.len() ==> map.ensures((orig[n - 1 - k],), rev@[k]),
                forall|k: int| 0 <= k < out@.len() ==> map.ensures((orig[k],), out@[k]),
            decreases rev@.len(),
        {
            let y = rev.pop().unwrap();
            out.push(y);
        }
        Polynomial::new(out)
    }
}

impl<T: Copy> Polynomial<T, &[T]> {
    /// Copies the borrowed coefficients into an owned polynomial.
    pub fn to_owned(&self) -> (p: Polynomial<T, Vec<T>>)
        ensures
            p@ == self@,
    {
        let mut v: Vec<T> = Vec::new();
        let mut i: usize = 0;
        while i < self.c.len()
            invariant
                self@ == self.c@,
                i <= self.c@.len(),
                v@ == self.c@.subrange(0, i as int),
            decreases self.c@.len() - i,
        {
            v.push(self.c[i]);
            i += 1;
            assert(v@ =~= self.c@.subrange(0, i as int));
        }
        assert(v@ =~= self.c@);
        Polynomial::new(v)
    }
}

impl Polynomial<i64, Vec<i64>> {
    /// The constant polynomial `1`.
    pub fn one() -> (p: Self)
        ensures
            ints(p@) == seq![1int],
    {
        let p = Polynomial::new(vec![1i64]);
        assert(ints(p@) =~= seq![1int]);
        p
    }

    /// The zero polynomial, with no coefficients.
    pub fn zero() -> (p: Self)
        ensures
            p@.len() == 0,
    {
        Polynomial::new(Vec::new())
    }

    /// Whether every coefficient is zero.
    pub fn is_zero(&self) -> (b: bool)
        ensures
            b == (trim_zeros_front(ints(self@)).len() == 0),
            b == (forall|i: int| 0 <= i < self@.len() ==> self@[i] == 0),
    {
        proof {
            lemma_trim_all_zero(ints(self@));
        }
        let mut i: usize = 0;
        while i < self.c.len()
            invariant
                self@ == self.c@,
                i <= self.c@.len(),
                forall|k: int| 0 <= k < i ==> self.c@[k] == 0,
            decreases self.c@.len() - i,
        {
            if self.c[i] != 0 {
                proof {
                    lemma_trim_all_zero(ints(self@));
                    assert(ints(self@)[i as int] != 0);
                }
                return false;
            }
            i += 1;
        }
        true
    }

    /// Whether the polynomial, leading zeros aside, is the constant `1`.
    pub fn is_one(&self) -> (b: bool)
        ensures
            b == (trim_zeros_front(ints(self@)) == seq![1int]),
    {
        let n = self.c.len();
        let mut i: usize = 0;
        while i < n && self.c[i] == 0
            invariant
                self@ == self.c@,
                n == self.c@.len(),
                i <= n,
                forall|k: int| 0 <= k < i ==> self.c@[k] == 0,
            decreases n - i,
        {
            i += 1;
        }
        proof {
            lemma_trim_skip(ints(self@), i as int);
        }
        if i < n && n - i == 1 && self.c[i] == 1 {
            assert(ints(self@).subrange(i as int, n as int) =~= seq![1int]);
            true
        } else {
            proof {
                let t = ints(self@).subrange(i as int, n as int);
                if i < n && n - i == 1 {
                    assert(t[0] != 1);
                } else {
                    assert(t.len() != 1);
                }
            }
            false
        }
    }
}

/// Trimming removes exactly the leading zeros: after `i` zeros, the first
/// non-zero coefficient (if any) starts the trimmed sequence.
pub proof fn lemma_trim_skip(s: Seq<int>, i: int)
    requires
        0 <= i <= s.len(),
        forall|k: int| 0 <= k < i ==> s[k] == 0,
        i < s.len() ==> s[i] != 0,
    ensures
        trim_zeros_front(s) == s.subrange(i, s.len() as int),
    decreases i,
{
    if i == 0 {
        if s.len() == 0 {
            assert(s.subrange(0, 0) =~= s);
        } else {
            assert(s.subrange(0, s.len() as int) =~= s);
        }
    } else {
        let t = s.drop_first();
        lemma_trim_skip(t, i - 1);
        assert(t.subrange(i - 1, t.len() as int) =~= s.subrange(i, s.len() as int));
    }
}

/// A sequence trims to nothing exactly when it is all zeros.
pub proof fn lemma_trim_all_zero(s: Seq<int>)
    ensures
        (trim_zeros_front(s).len() == 0) == (forall|i: int| 0 <= i < s.len() ==> s[i] == 0),
    decreases s.len(),
{
    if s.len() > 0 {
        lemma_trim_all_zero(s.drop_first());
        if s[0] == 0 {
            if forall|i: int| 0 <= i < s.drop_first().len() ==> s.drop_first()[i] == 0 {
                assert forall|i: int| 0 <= i < s.len() implies s[i] == 0 by {
                    if i > 0 {
                        assert(s[i] == s.drop_first()[i - 1]);
                    }
                }
            } else {
                let j = choose|j: int| 0 <= j < s.drop_first().len() && s.drop_first()[j] != 0;
                assert(s[j + 1] != 0);
            }
        }
    }
}

/// Trimming leading zeros keeps the value of the polynomial.
pub proof fn lemma_eval_trim(s: Seq<int>, x: int)
    ensures
        eval(trim_zeros_front(s), x) == eval(s, x),
    decreases s.len(),
{
    if s.len() > 0 && s[0] == 0 {
        lemma_eval_trim(s.drop_first(), x);
        crate::arith::lemma_eval_leading_zeros(s, 1, x);
        assert(s.subrange(1, s.len() as int) =~= s.drop_first());
    }
}

} // verus!
