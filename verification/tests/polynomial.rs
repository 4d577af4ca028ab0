use signal_processing::quantities::polynomial::Polynomial;
use signal_processing::quantities::polynomial::euclid::{deconvolve_direct, div_trunc};

fn p(c: &[i64]) -> Polynomial<i64, Vec<i64>> {
    Polynomial::new(c.to_vec())
}

fn eval(c: &[i64], x: i64) -> i64 {
    c.iter().fold(0, |acc, &k| acc * x + k)
}

#[test]
fn polynomial_mul_sub_neg() {
    let a = p(&[1, 1]);
    let b = p(&[1, -1]);
    assert_eq!(a.mul(b).into_inner(), vec![1, 0, -1]);
    assert_eq!(p(&[1, 2, 3]).sub(p(&[5])).into_inner(), vec![1, 2, -2]);
    assert_eq!(p(&[1]).sub(p(&[1, 1])).into_inner(), vec![-1, 0]);
    assert_eq!(p(&[2, -3]).neg().into_inner(), vec![-2, 3]);
}

#[test]
fn polynomial_pow_and_call() {
    let sq = p(&[1, 1]).pow(2);
    assert_eq!(sq.clone_coefficients(), vec![1, 2, 1]);
    assert_eq!(sq.call(3), 16);
    assert_eq!(p(&[2, 0, 1]).pow(0).call(5), 1);
    assert_eq!(p(&[1, -2]).pow(3).call(4), 8);
}

trait Coefficients {
    fn clone_coefficients(&self) -> Vec<i64>;
}

impl Coefficients for Polynomial<i64, Vec<i64>> {
    fn clone_coefficients(&self) -> Vec<i64> {
        self.as_view().to_owned().into_inner()
    }
}

#[test]
fn polynomial_eq_ignores_leading_zeros() {
    assert!(p(&[0, 0, 1, 2]) == p(&[1, 2]));
    assert!(p(&[1, 2]) != p(&[1, 3]));
    assert!(p(&[0]) == p(&[]));
    assert!(p(&[0, 0, 1]).is_one());
    assert!(p(&[0, 0]).is_zero());
    assert!(!p(&[0, 3]).is_zero());
    assert!(Polynomial::<i64, Vec<i64>>::one().is_one());
    assert!(Polynomial::<i64, Vec<i64>>::zero().is_zero());
}

#[test]
fn polynomial_div_rem_euclid() {
    // x^2 + 2x + 3 = (x + 1)(x + 1) + 2
    let (q, r) = p(&[1, 2, 3]).div_rem_euclid(&p(&[1, 1]));
    assert_eq!(q.into_inner(), vec![1, 1]);
    assert_eq!(r.into_inner(), vec![2]);
    // An exact division leaves no remainder.
    let (q, r) = p(&[1, 0, -1]).div_rem_euclid(&p(&[1, -1]));
    assert_eq!(q.into_inner(), vec![1, 1]);
    assert_eq!(r.into_inner(), Vec::<i64>::new());
    assert_eq!(p(&[6, 4]).div(p(&[2])).into_inner(), vec![3, 2]);
    assert_eq!(p(&[6, 5]).rem(p(&[2, 0])).into_inner(), vec![5]);
    assert_eq!(p(&[2, 5]).div_euclid(&p(&[1, 0, 0])).into_inner(), Vec::<i64>::new());
    assert_eq!(p(&[2, 5]).rem_euclid(&p(&[1, 0, 0])).into_inner(), vec![2, 5]);
}

#[test]
fn polynomial_division_law_on_monic_divisors() {
    let a: Vec<i64> = vec![3, -1, 4, 1, -5, 9];
    for b in [vec![1i64, 2], vec![-1, 0, 3], vec![1, -2, 0, 7]] {
        let (q, r) = p(&a).div_rem_euclid(&p(&b));
        let (q, r) = (q.into_inner(), r.into_inner());
        assert!(r.len() < b.len());
        for x in -3i64..=3 {
            assert_eq!(eval(&a, x), eval(&q, x) * eval(&b, x) + eval(&r, x));
        }
    }
}

#[test]
fn deconvolve_direct_cases() {
    assert_eq!(deconvolve_direct(&[1, 2, 3], &[0, 0]), None);
    assert_eq!(deconvolve_direct(&[1, 2, 3], &[1, 1]), Some((vec![1, 1], vec![0, 0, 2])));
    // A leading zero of the divisor drops the first quotient term.
    assert_eq!(deconvolve_direct(&[1, 2, 3], &[0, 1, 1]), Some((vec![1], vec![0, 0, 2])));
    // Integer steps round towards zero.
    assert_eq!(deconvolve_direct(&[7, 0], &[2, 1]), Some((vec![3], vec![0, -3])));
}

#[test]
fn truncating_division() {
    assert_eq!(div_trunc(-7, 2), -3);
    assert_eq!(div_trunc(7, -2), -3);
    assert_eq!(div_trunc(-7, -2), 3);
    assert_eq!(div_trunc(i64::MIN, 1), i64::MIN);
    assert_eq!(div_trunc(i64::MIN, 2), i64::MIN / 2);
}

#[test]
fn polynomial_views_and_maps() {
    let a = p(&[1, 2, 3]);
    let doubled = a.map_to_owned(|x| 2 * *x);
    assert_eq!(doubled.into_inner(), vec![2, 4, 6]);
    let neg = p(&[1, -2]).map_into_owned(|x| -x);
    assert_eq!(neg.into_inner(), vec![-1, 2]);
    let v = p(&[4, 5]);
    assert_eq!(v.as_view().to_owned().into_inner(), vec![4, 5]);
}

#[test]
fn polynomial_sub_evaluates_to_difference() {
    let a: Vec<i64> = vec![2, 0, -1, 4];
    let b: Vec<i64> = vec![3, 5];
    let d = p(&a).sub(p(&b)).into_inner();
    for x in -4i64..=4 {
        assert_eq!(eval(&d, x), eval(&a, x) - eval(&b, x));
    }
}

#[test]
fn equal_polynomials_evaluate_equally() {
    let a: Vec<i64> = vec![0, 0, 3, -1];
    let b: Vec<i64> = vec![3, -1];
    assert!(p(&a) == p(&b));
    for x in -4i64..=4 {
        assert_eq!(eval(&a, x), eval(&b, x));
    }
}

#[test]
fn polynomial_pow_evaluates_to_power() {
    let a: Vec<i64> = vec![1, -1, 2];
    let c = p(&a).pow(3).into_inner();
    assert_eq!(c.len(), 7);
    for x in -3i64..=3 {
        assert_eq!(eval(&c, x), eval(&a, x).pow(3));
    }
}

#[test]
fn polynomial_sub_assign_and_div_scalar() {
    let mut a = p(&[4, 6]);
    a.sub_assign(p(&[1, 1, 1]));
    assert_eq!(a.into_inner(), vec![-1, 3, 5]);
    assert_eq!(p(&[7, -7, 6]).div_scalar(2).into_inner(), vec![3, -3, 3]);
}

#[test]
fn division_undoes_multiplication() {
    let a: Vec<i64> = vec![0, 4, -3, 2];
    let b: Vec<i64> = vec![3, 0, -5];
    let prod = p(&a).mul(p(&b));
    let (q, r) = prod.div_rem_euclid(&p(&b));
    assert_eq!(q.into_inner(), vec![4, -3, 2]);
    assert_eq!(r.into_inner(), Vec::<i64>::new());
}

#[test]
fn pow_checked_reaches_past_the_l1_bound() {
    // (z + 1)^63: the sum of the coefficients is 2^63, yet each binomial
    // coefficient fits.
    let r = p(&[1, 1]).pow_checked(63).expect("every coefficient fits");
    let c = r.into_inner();
    assert_eq!(c.len(), 64);
    assert_eq!(c[0], 1);
    assert_eq!(c[1], 63);
    assert_eq!(c[31], 916312070471295267);
    assert_eq!(c[63], 1);
    assert_eq!(p(&[1, 1]).pow_checked(3).map(|q| q.into_inner()), Some(vec![1, 3, 3, 1]));
    assert_eq!(p(&[1, 1]).pow_checked(0).map(|q| q.into_inner()), Some(vec![1]));
    // A square whose coefficients overflow.
    assert!(p(&[i64::MAX, 1]).pow_checked(2).is_none());
}

#[test]
fn pow_reaches_past_the_l1_bound() {
    let c = p(&[1, 1]).pow(63).into_inner();
    assert_eq!(c[31], 916312070471295267);
    assert_eq!(c.iter().filter(|&&v| v == 1).count(), 2);
}
