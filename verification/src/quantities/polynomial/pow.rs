//! Integer powers of polynomials.
use vstd::prelude::*;
use vstd::arithmetic::power::{pow, lemma_pow_adds, lemma_pow0, lemma_pow1, lemma_pow_positive, lemma_pow_increases};
use crate::arith::{conv, conv_fits, conv_len, eval, ints, l1, lemma_abs_sum_nonneg, lemma_conv_fits_l1, lemma_eval_conv, lemma_l1_conv};
use crate::operations::conv::convolve_checked;
use crate::quantities::polynomial::Polynomial;

verus! {

/// `b^e <= b^f` for `1 <= e <= f` and `b >= 0`.
proof fn lemma_pow_mono(b: int, e: nat, f: nat)
    requires
        b >= 0,
        1 <= e <= f,
    ensures
        pow(b, e) <= pow(b, f),
{
    if b == 0 {
        lemma_pow_zero_base(e);
        lemma_pow_zero_base(f);
    } else {
        lemma_pow_increases(b as nat, e, f);
    }
}

proof fn lemma_pow_zero_base(e: nat)
    requires
        e >= 1,
    ensures
        pow(0, e) == 0,
    decreases e,
{
    reveal(pow);
    if e > 1 {
        lemma_pow_zero_base((e - 1) as nat);
    }
}

proof fn lemma_pow_nonneg(b: int, e: nat)
    requires
        b >= 0,
    ensures
        pow(b, e) >= 0,
{
    if b == 0 {
        if e == 0 {
            lemma_pow0(0);
        } else {
            lemma_pow_zero_base(e);
        }
    } else {
        lemma_pow_positive(b, e);
    }
}

/// Length of `p^e` for a polynomial `p` of length `len`.
pub open spec fn pow_len(len: nat, e: nat) -> nat {
    if len == 0 {
        if e == 0 { 1 } else { 0 }
    } else {
        (e * (len - 1) + 1) as nat
    }
}

/// The product of two polynomials that are powers of `p` has the length of the summed power.
proof fn lemma_pow_len_conv(len: nat, e: nat, f: nat)
    ensures
        conv_len(pow_len(len, e) as int, pow_len(len, f) as int) == pow_len(len, e + f),
{
    if len > 0 {
        assert((e + f) * (len - 1) == e * (len - 1) + f * (len - 1)) by (nonlinear_arith);
    }
}

/// Two powers whose exponents sum to at most `nn` are short enough to be multiplied.
proof fn lemma_pow_len_bound(len: nat, e: nat, f: nat, nn: nat)
    requires
        e + f <= nn,
    ensures
        pow_len(len, e) + pow_len(len, f) <= nn * len + 2,
{
    if len > 0 {
        assert(e * (len - 1) + f * (len - 1) <= nn * len) by (nonlinear_arith)
            requires e + f <= nn, len >= 1;
    }
}

/// Every product and running sum that raising to a power by repeated squaring
/// forms fits in an `i64`, from the square `x` and the result `r` so far, with
/// `n` the exponent bits still to come: the square is taken while `n / 2` is
/// not zero, and multiplied into the result where `n / 2` is odd.
pub open spec fn pow_steps_fit(x: Seq<int>, r: Seq<int>, n: nat) -> bool
    decreases n,
{
    let m = n / 2;
    if m == 0 {
        true
    } else {
        let x2 = conv(x, x);
        &&& conv_fits(x, x)
        &&& m % 2 == 1 ==> conv_fits(r, x2)
        &&& pow_steps_fit(x2, if m % 2 == 1 { conv(r, x2) } else { r }, m)
    }
}

/// Every product and running sum formed while raising `p` to the power `n`
/// by repeated squaring fits in an `i64`.
pub open spec fn pow_fits(p: Seq<int>, n: nat) -> bool {
    pow_steps_fit(p, if n % 2 == 1 { p } else { seq![1int] }, n)
}

/// The steps still to come fit where `l1(base)^nn` fits, the square and the
/// result so far being bounded by the matching powers of `l1(base)`.
proof fn lemma_steps_fit_l1(bl: int, x: Seq<int>, r: Seq<int>, n: nat, nn: nat, ex: nat, er: nat)
    requires
        bl >= 0,
        pow(bl, nn) <= i64::MAX,
        nn == er + ex * (n - n % 2),
        ex >= 1,
        l1(x) <= pow(bl, ex),
        l1(r) <= pow(bl, er),
    ensures
        pow_steps_fit(x, r, n),
    decreases n,
{
    let m = n / 2;
    if m != 0 {
        assert(2 * ex <= nn) by (nonlinear_arith)
            requires nn == er + ex * (n - n % 2), m == n / 2, m >= 1, ex >= 1;
        lemma_pow_adds(bl, ex, ex);
        lemma_pow_mono(bl, (ex + ex) as nat, nn);
        lemma_abs_sum_nonneg(x, 0, x.len() as int);
        lemma_pow_nonneg(bl, ex);
        let lx = l1(x);
        let px = pow(bl, ex);
        assert(lx * lx <= px * px) by (nonlinear_arith)
            requires 0 <= lx <= px;
        lemma_conv_fits_l1(x, x);
        lemma_l1_conv(x, x);
        let x2 = conv(x, x);
        let ex2 = (ex + ex) as nat;
        if m % 2 == 1 {
            assert(er + ex2 <= nn) by (nonlinear_arith)
                requires nn == er + ex * (n - n % 2), m == n / 2, m % 2 == 1, ex2 == ex + ex;
            lemma_pow_adds(bl, er, ex2);
            lemma_pow_mono(bl, (er + ex2) as nat, nn);
            lemma_abs_sum_nonneg(x2, 0, x2.len() as int);
            lemma_abs_sum_nonneg(r, 0, r.len() as int);
            lemma_pow_nonneg(bl, ex2);
            lemma_pow_nonneg(bl, er);
            let l2 = l1(x2);
            let lr = l1(r);
            let p2 = pow(bl, ex2);
            let pr = pow(bl, er);
            assert(lr * l2 <= pr * p2) by (nonlinear_arith)
                requires 0 <= l2 <= p2, 0 <= lr <= pr;
            lemma_conv_fits_l1(r, x2);
            lemma_l1_conv(r, x2);
            assert(nn == (er + ex2) + ex2 * (m - m % 2)) by (nonlinear_arith)
                requires nn == er + ex * (n - n % 2), n == 2 * m + n % 2, m % 2 == 1, ex2 == ex + ex;
            lemma_steps_fit_l1(bl, x2, conv(r, x2), m, nn, ex2, (er + ex2) as nat);
        } else {
            assert(nn == er + ex2 * (m - m % 2)) by (nonlinear_arith)
                requires nn == er + ex * (n - n % 2), n == 2 * m + n % 2, m % 2 == 0, ex2 == ex + ex;
            lemma_steps_fit_l1(bl, x2, r, m, nn, ex2, er);
        }
    }
}

/// Raising `p` to the power `n` never overflows where `l1(p)^n` fits in an
/// `i64`, `l1` being the sum of the absolute values of the coefficients.
pub proof fn lemma_pow_fits_l1(p: Seq<int>, n: nat)
    requires
        pow(l1(p), n) <= i64::MAX,
    ensures
        pow_fits(p, n),
{
    let bl = l1(p);
    lemma_abs_sum_nonneg(p, 0, p.len() as int);
    lemma_pow1(bl);
    lemma_pow0(bl);
    if n % 2 == 1 {
        lemma_steps_fit_l1(bl, p, p, n, n, 1, 1);
    } else {
        assert(l1(seq![1int]) == 1) by {
            reveal_with_fuel(crate::arith::abs_sum, 2);
        }
        lemma_steps_fit_l1(bl, p, seq![1int], n, n, 1, 0);
    }
}

impl Polynomial<i64, Vec<i64>> {
    /// `self` raised to the power `n`, by repeated squaring, where every
    /// product and running sum formed fits in an `i64`; `None` exactly where
    /// one would not fit.
    pub fn pow_checked(self, n: u64) -> (p: Option<Polynomial<i64, Vec<i64>>>)
        requires
            (n as int) * (self@.len() as int) + 2 <= usize::MAX,
        ensures
            p is Some <==> pow_fits(ints(self@), n as nat),
            p is Some ==> p->0@.len() == pow_len(self@.len(), n as nat),
            p is Some ==> forall|x: int| #[trigger] eval(ints(p->0@), x) == pow(eval(ints(self@), x), n as nat),
    {
        let ghost base = ints(self@);
        let ghost len = self@.len();
        let ghost fits = pow_fits(base, n as nat);
        let nn = n;
        let mut n = n;
        let mut x = self;
        let mut r = if n & 1 == 1 {
            proof {
                assert((n & 1u64) == 1 ==> n % 2 == 1) by (bit_vector);
            }
            x.as_view().to_owned()
        } else {
            proof {
                assert((n & 1u64) != 1 ==> n % 2 == 0) by (bit_vector);
            }
            Polynomial::one()
        };
        let ghost mut er: nat = (nn % 2) as nat;
        let ghost mut ex: nat = 1;
        proof {
            assert forall|t: int| #[trigger] eval(ints(x@), t) == pow(eval(base, t), ex) by {
                lemma_pow1(eval(base, t));
            }
            assert forall|t: int| #[trigger] eval(ints(r@), t) == pow(eval(base, t), er) by {
                lemma_pow1(eval(base, t));
                lemma_pow0(eval(base, t));
                if er == 0 {
                    assert(ints(r@) =~= seq![1int]);
                    reveal_with_fuel(eval, 2);
                    assert(seq![1int].drop_last() =~= Seq::<int>::empty());
                }
            }
            if len == 0 {
                assert(pow_len(len, er) == if er == 0 { 1nat } else { 0nat });
            } else {
                assert(pow_len(len, 1) == len);
                assert(pow_len(len, 0) == 1);
            }
            if er == 0 {
                assert(ints(r@) =~= seq![1int]);
                assert(ints(r@).len() == 1);
            } else {
                assert(ints(r@) == base);
                assert(r@.len() == len);
            }
            assert(fits == pow_steps_fit(ints(x@), ints(r@), nn as nat));
        }
        let mut failed: bool = false;
        loop
            invariant_except_break
                !failed,
                len == base.len(),
                (nn as int) * (len as int) + 2 <= usize::MAX,
                nn as int == er + ex * (n - n % 2),
                ex >= 1,
                x@.len() == pow_len(len, ex),
                r@.len() == pow_len(len, er),
                fits == pow_steps_fit(ints(x@), ints(r@), n as nat),
                forall|t: int| #[trigger] eval(ints(x@), t) == pow(eval(base, t), ex),
                forall|t: int| #[trigger] eval(ints(r@), t) == pow(eval(base, t), er),
            ensures
                failed <==> !fits,
                !failed ==> er == nn,
                !failed ==> r@.len() == pow_len(len, er),
                !failed ==> forall|t: int| #[trigger] eval(ints(r@), t) == pow(eval(base, t), er),
            decreases n,
        {
            let ghost n_old = n;
            let ghost x_old = ints(x@);
            let ghost r_old = ints(r@);
            n = n >> 1;
            proof {
                assert(n_old >> 1u64 == n_old / 2) by (bit_vector);
                assert(n_old == 2 * n + n_old % 2);
            }
            if n == 0 {
                assert(n_old - n_old % 2 == 0);
                assert(ex * (n_old - n_old % 2) == 0) by (nonlinear_arith)
                    requires n_old - n_old % 2 == 0;
                assert(er == nn);
                assert(pow_steps_fit(x_old, r_old, n_old as nat));
                break;
            }
            proof {
                assert(2 * ex <= nn) by (nonlinear_arith)
                    requires nn as int == er + ex * (n_old - n_old % 2), n_old / 2 >= 1, er >= 0, ex >= 1;
                lemma_pow_len_conv(len, ex, ex);
                lemma_pow_len_bound(len, ex, ex, nn as nat);
            }
            let xs: Vec<i64> = x.into_inner();
            x = match convolve_checked(xs.as_slice(), xs.as_slice()) {
                Some(v) => Polynomial::new(v),
                None => {
                    assert(!pow_steps_fit(x_old, r_old, n_old as nat));
                    failed = true;
                    break;
                },
            };
            proof {
                assert(x@.len() == ints(x@).len());
                assert forall|t: int| #[trigger] eval(ints(x@), t) == pow(eval(base, t), (ex + ex) as nat) by {
                    lemma_eval_conv(x_old, x_old, t);
                    lemma_pow_adds(eval(base, t), ex, ex);
                }
                ex = (ex + ex) as nat;
            }
            if n & 1 == 1 {
                proof {
                    assert((n & 1u64) == 1 ==> n % 2 == 1) by (bit_vector);
                    assert(er + ex <= nn) by (nonlinear_arith)
                        requires nn as int == er + (ex / 2) * (n_old - n_old % 2), n_old / 2 == n, n % 2 == 1, ex % 2 == 0;
                    lemma_pow_len_conv(len, er, ex);
                    lemma_pow_len_bound(len, er, ex, nn as nat);
                }
                let rs: Vec<i64> = r.as_view().to_owned().into_inner();
                let xv = x.as_view().to_owned();
                let xs: Vec<i64> = xv.into_inner();
                assert(ints(rs@) == r_old && ints(xs@) == ints(x@));
                r = match convolve_checked(rs.as_slice(), xs.as_slice()) {
                    Some(v) => Polynomial::new(v),
                    None => {
                        assert(!pow_steps_fit(x_old, r_old, n_old as nat));
                        failed = true;
                        break;
                    },
                };
                proof {
                    assert(r@.len() == ints(r@).len());
                    assert forall|t: int| #[trigger] eval(ints(r@), t) == pow(eval(base, t), (er + ex) as nat) by {
                        lemma_eval_conv(r_old, ints(x@), t);
                        lemma_pow_adds(eval(base, t), er, ex);
                    }
                    er = (er + ex) as nat;
                    assert(nn as int == er + ex * (n - n % 2)) by (nonlinear_arith)
                        requires nn as int == (er - ex) + (ex / 2) * (n_old - n_old % 2), n_old == 2 * n + n_old % 2, n % 2 == 1, ex % 2 == 0;
                }
            } else {
                proof {
                    assert((n & 1u64) != 1 ==> n % 2 == 0) by (bit_vector);
                    assert(nn as int == er + ex * (n - n % 2)) by (nonlinear_arith)
                        requires nn as int == er + (ex / 2) * (n_old - n_old % 2), n_old == 2 * n + n_old % 2, n % 2 == 0, ex % 2 == 0;
                }
            }
        }
        if failed {
            return None;
        }
        Some(r)
    }

    /// `self` raised to the power `n`, by repeated squaring. Every product and
    /// running sum formed must fit in an `i64` (`pow_checked` tests this;
    /// `lemma_pow_fits_l1` gives it where `l1(self)^n` fits).
    pub fn pow(self, n: u64) -> (p: Polynomial<i64, Vec<i64>>)
        requires
            pow_fits(ints(self@), n as nat),
            (n as int) * (self@.len() as int) + 2 <= usize::MAX,
        ensures
            p@.len() == pow_len(self@.len(), n as nat),
            forall|x: int| #[trigger] eval(ints(p@), x) == pow(eval(ints(self@), x), n as nat),
    {
        self.pow_checked(n).unwrap()
    }
}

} // verus!
