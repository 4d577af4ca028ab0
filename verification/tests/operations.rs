use signal_processing::operations::conv::convolve_direct;
use signal_processing::operations::encode::{encode_level, EncodeOverflow, MidSide};
use signal_processing::operations::filtfilt::{odd_extend, reflection_len, trim_extension};
use signal_processing::operations::sgolayfilt::{sgolay_assemble, SGolayFiltError};

#[test]
fn encode_saturates_out_of_range_levels() {
    // i8: levels from -128 up to, not including, 128.
    assert_eq!(encode_level(5, EncodeOverflow::Saturate, MidSide::Above, -128, 128), 5);
    assert_eq!(encode_level(300, EncodeOverflow::Saturate, MidSide::Above, -128, 128), 127);
    assert_eq!(encode_level(-300, EncodeOverflow::Saturate, MidSide::Below, -128, 128), -128);
    assert_eq!(encode_level(300, EncodeOverflow::Saturate, MidSide::Neither, -128, 128), 0);
    // u8: the middle level rounds down.
    assert_eq!(encode_level(-1, EncodeOverflow::Saturate, MidSide::Neither, 0, 256), 127);
}

#[test]
fn encode_wraps_out_of_range_levels() {
    // i8: the modulus is 256; levels above 127 come down by 128 steps.
    assert_eq!(encode_level(200, EncodeOverflow::Wrap, MidSide::Above, -128, 128), 72);
    assert_eq!(encode_level(300, EncodeOverflow::Wrap, MidSide::Above, -128, 128), 44);
    assert_eq!(encode_level(-200, EncodeOverflow::Wrap, MidSide::Below, -128, 128), -72);
    assert_eq!(encode_level(100, EncodeOverflow::Wrap, MidSide::Above, -128, 128), 100);
    // u8: the modulus is 256.
    assert_eq!(encode_level(300, EncodeOverflow::Wrap, MidSide::Above, 0, 256), 44);
    assert_eq!(encode_level(-512, EncodeOverflow::Wrap, MidSide::Below, 0, 256), 0);
}

#[test]
fn sgolay_error_messages() {
    assert!(SGolayFiltError::NotSGolay.message().starts_with("Not a Savitzsky-Golay"));
    assert!(SGolayFiltError::InsufficientData.message().starts_with("Insufficient data"));
}

#[test]
fn sgolay_assembles_head_middle_and_tail() {
    // n = 3 filters, k = 1: one head sample, one tail sample, the middle
    // output delayed by two samples.
    let y: Vec<i32> = vec![10, 11, 12, 13, 14];
    let r = sgolay_assemble(&y, &[100], &[200], 3);
    assert_eq!(r, vec![100, 13, 14, 10, 200]);
    let r1 = sgolay_assemble(&y, &[], &[], 1);
    assert_eq!(r1, vec![11, 12, 13, 14, 10]);
}

#[test]
fn filtfilt_reflection_lengths() {
    assert_eq!(reflection_len(3, 2, 100), 6);
    assert_eq!(reflection_len(3, 2, 4), 3);
    assert_eq!(reflection_len(1, 1, 10), 0);
    assert_eq!(reflection_len(0, 0, 0), 0);
}

#[test]
fn filtfilt_odd_extension_and_trim() {
    let x: Vec<i64> = vec![1, 2, 4, 7];
    let v = odd_extend(&x, 2);
    assert_eq!(v, vec![-2, 0, 1, 2, 4, 7, 10, 12]);
    assert_eq!(trim_extension(&v, 2, x.len()), x);
    let same = odd_extend(&x, 0);
    assert_eq!(same, x);
}

#[test]
fn filtfilt_extension_is_odd_about_the_ends() {
    let x: Vec<i64> = vec![3, -1, 4, 1, 5, 9];
    let l = 3;
    let v = odd_extend(&x, l);
    let n = x.len();
    for k in 1..=l {
        assert_eq!(v[l - k] + v[l + k], 2 * x[0]);
        assert_eq!(v[l + n - 1 + k] + v[l + n - 1 - k], 2 * x[n - 1]);
    }
}

use signal_processing::operations::filter_mut::{filter_mut, filter_row};

#[test]
fn filter_row_sizes_the_state() {
    // An empty state is lengthened with zeros to the filter's order.
    let mut w: Vec<i64> = vec![];
    assert_eq!(filter_row(&[1, 2], &[1], &mut w, &[1]), vec![1]);
    assert_eq!(w, vec![0]);
    // A longer state is cut to the filter's order.
    let mut w: Vec<i64> = vec![5, 6, 7];
    assert_eq!(filter_row(&[1, 1], &[1], &mut w, &[1, 2]), vec![6, 7]);
    assert_eq!(w, vec![5]);
    let mut w: Vec<i64> = vec![4];
    assert_eq!(filter_row(&[1, 1, 1], &[1], &mut w, &[1, 0]), vec![5, 5]);
    assert_eq!(w, vec![0, 1]);
}

#[test]
fn filter_mut_runs_every_numerator_row() {
    let b: Vec<Vec<i64>> = vec![vec![1, 1, 0], vec![1], vec![2, 0, 0, 1]];
    let a: Vec<i64> = vec![1, -1, 0];
    let x: Vec<i64> = vec![1, 1, 1, 2];
    let mut w: Vec<i64> = vec![1];
    let y = filter_mut(&b, &a, &mut w, &x);
    assert_eq!(y[1], vec![1, 2, 3, 5]);
    // Each row filters from its own part of the state.
    let mut w0: Vec<i64> = vec![1];
    let mut w1: Vec<i64> = vec![];
    let mut w2: Vec<i64> = vec![];
    assert_eq!(y, vec![
        filter_row(&b[0], &a, &mut w0, &x),
        filter_row(&b[1], &a, &mut w1, &x),
        filter_row(&b[2], &a, &mut w2, &x),
    ]);
    let mut all = w0.clone();
    all.extend(w1);
    all.extend(w2);
    assert_eq!(w, all);
    assert_eq!(w.len(), 2 + 2 + 3);
}

#[test]
fn filter_row_fir_and_iir() {
    // A moving sum of two samples.
    let mut w: Vec<i64> = vec![0, 0];
    assert_eq!(filter_row(&[1, 1], &[1, 0, 0], &mut w, &[1, 2, 3]), vec![1, 3, 5]);
    assert_eq!(w, vec![3, 2]);
    // An accumulator: y[n] = x[n] + y[n - 1].
    let mut w: Vec<i64> = vec![0, 0];
    assert_eq!(filter_row(&[1], &[1, -1, 0], &mut w, &[1, 1, 1]), vec![1, 2, 3]);
    // The feedback coefficients are divided by the first one.
    let mut w: Vec<i64> = vec![0, 0];
    assert_eq!(filter_row(&[1], &[2, 2, 0], &mut w, &[2, 0, 0]), vec![2, -2, 2]);
    // Leading zeros of both lists are skipped.
    let mut w: Vec<i64> = vec![0, 0];
    assert_eq!(filter_row(&[0, 1, 1], &[0, 1], &mut w, &[1, 2]), vec![1, 3]);
}

#[test]
fn filter_row_state_of_one_value_is_not_shifted() {
    let mut w: Vec<i64> = vec![0];
    assert_eq!(filter_row(&[1, 1], &[1], &mut w, &[1, 2]), vec![1, 2]);
    assert_eq!(w, vec![0]);
}

#[test]
fn filter_row_solves_difference_equation() {
    let b: Vec<i64> = vec![2, -1, 3];
    let a: Vec<i64> = vec![1, 2, -1];
    let x: Vec<i64> = vec![1, 0, -2, 3, 1, 0];
    let mut w: Vec<i64> = vec![0, 0];
    let y = filter_row(&b, &a, &mut w, &x);
    let at = |s: &[i64], i: i64| if i >= 0 && (i as usize) < s.len() { s[i as usize] } else { 0 };
    for n in 0..x.len() as i64 {
        let lhs: i64 = (0..3).map(|j| a[j as usize] * at(&y, n - j)).sum();
        let rhs: i64 = (0..3).map(|k| b[k as usize] * at(&x, n - k)).sum();
        assert_eq!(lhs, rhs);
    }
}

use signal_processing::operations::filtfilt::filtfilt_row;

#[test]
fn filtfilt_row_identity_and_gain() {
    let x: Vec<i64> = vec![3, -1, 4, 1, 5];
    assert_eq!(filtfilt_row(&[1], &[1], &x), x);
    assert_eq!(filtfilt_row(&[2], &[1], &x), vec![12, -4, 16, 4, 20]);
    assert_eq!(filtfilt_row(&[1], &[1], &[]), Vec::<i64>::new());
}

#[test]
fn filtfilt_row_constant_through_fir() {
    // A constant row comes out scaled by the squared steady-state gain.
    assert_eq!(filtfilt_row(&[1, 2, 1], &[1, 0, 0], &[1, 1, 1]), vec![16, 16, 16]);
}

#[test]
fn filtfilt_row_with_state_of_one_value() {
    // A state of one value is not shifted: the moving sum leaves the row as it is.
    assert_eq!(filtfilt_row(&[1, 1], &[1], &[1, 2, 3, 4, 5]), vec![1, 2, 3, 4, 5]);
}

use signal_processing::operations::sgolayfilt::sgolayfilt;

#[test]
fn sgolayfilt_smooths_rows() {
    let h: Vec<Vec<i64>> = vec![vec![1, 0, 0], vec![1, 1, 1], vec![0, 0, 1]];
    let x: Vec<Vec<i64>> = vec![vec![1, 2, 3, 4, 5]];
    // The middle filter's running sums, delayed; the ends come from the
    // first and last filters.
    assert_eq!(sgolayfilt(&h, &x), Ok(vec![vec![1, 9, 12, 1, 5]]));
}

#[test]
fn sgolayfilt_errors() {
    let long: Vec<Vec<i64>> = vec![vec![1, 0, 0, 0], vec![1, 1, 1], vec![0, 0, 1]];
    let x: Vec<Vec<i64>> = vec![vec![1, 2]];
    assert_eq!(sgolayfilt(&long, &x), Err(SGolayFiltError::NotSGolay));
    let h: Vec<Vec<i64>> = vec![vec![1, 0, 0], vec![1, 1, 1], vec![0, 0, 1]];
    let rows: Vec<Vec<i64>> = vec![vec![1, 2, 3], vec![4, 5]];
    assert_eq!(sgolayfilt(&h, &rows), Err(SGolayFiltError::InsufficientData));
    let none: Vec<Vec<i64>> = vec![];
    assert_eq!(sgolayfilt(&h, &none), Ok(vec![]));
    // A filter shorter than the count is refused too.
    let short: Vec<Vec<i64>> = vec![vec![1, 0, 0], vec![1, 1], vec![0, 0, 1]];
    let x: Vec<Vec<i64>> = vec![vec![1, 2, 3, 4, 5]];
    assert_eq!(sgolayfilt(&short, &x), Err(SGolayFiltError::NotSGolay));
}

#[test]
fn fir_filter_gives_leading_convolution_samples() {
    let b: Vec<i64> = vec![3, -2, 5];
    let x: Vec<i64> = vec![1, 4, -1, 2, 0, 7];
    let mut w: Vec<i64> = vec![0, 0];
    let y = filter_row(&b, &[1], &mut w, &x);
    let c = convolve_direct(&x, &b);
    assert_eq!(y[..], c[..x.len()]);
}

use signal_processing::operations::filter_mut::filter_row_checked;
use signal_processing::operations::filtfilt::filtfilt;

#[test]
fn filter_row_checked_agrees_or_refuses() {
    let mut w: Vec<i64> = vec![7];
    assert_eq!(filter_row_checked(&[1, 1, 1], &[1], &mut w, &[1, 0]), Some(vec![8, 8]));
    assert_eq!(w, vec![0, 1]);
    let mut w2: Vec<i64> = vec![7];
    assert_eq!(filter_row(&[1, 1, 1], &[1], &mut w2, &[1, 0]), vec![8, 8]);
    // An output that does not fit leaves the state as it was.
    let mut w: Vec<i64> = vec![3];
    assert_eq!(filter_row_checked(&[2], &[1], &mut w, &[1, i64::MAX]), None);
    assert_eq!(w, vec![3]);
    // So does a feedback coefficient whose division overflows.
    let mut w: Vec<i64> = vec![];
    assert_eq!(filter_row_checked(&[1], &[-1, i64::MIN], &mut w, &[1]), None);
    assert_eq!(w, Vec::<i64>::new());
}

#[test]
fn filter_state_carries_over_between_calls() {
    let b: Vec<i64> = vec![1, 2, -1];
    let a: Vec<i64> = vec![1, -1, 1];
    let x: Vec<i64> = vec![3, -2, 5, 1, 0, 4, -3];
    let mut whole: Vec<i64> = vec![2];
    let y = filter_row(&b, &a, &mut whole, &x);
    let mut w: Vec<i64> = vec![2];
    let mut y1 = filter_row(&b, &a, &mut w, &x[..3]);
    let y2 = filter_row(&b, &a, &mut w, &x[3..]);
    y1.extend(y2);
    assert_eq!(y1, y);
    assert_eq!(w, whole);
}

#[test]
fn filter_is_linear_from_a_zero_state() {
    let b: Vec<i64> = vec![2, -1, 3];
    let a: Vec<i64> = vec![1, 1, -1];
    let x1: Vec<i64> = vec![1, 0, -2, 3];
    let x2: Vec<i64> = vec![4, -1, 0, 2];
    let mix: Vec<i64> = x1.iter().zip(&x2).map(|(p, q)| 3 * p - 2 * q).collect();
    let (mut w1, mut w2, mut w) = (vec![], vec![], vec![]);
    let y1 = filter_row(&b, &a, &mut w1, &x1);
    let y2 = filter_row(&b, &a, &mut w2, &x2);
    let y = filter_row(&b, &a, &mut w, &mix);
    let expect: Vec<i64> = y1.iter().zip(&y2).map(|(p, q)| 3 * p - 2 * q).collect();
    assert_eq!(y, expect);
    let expect_w: Vec<i64> = w1.iter().zip(&w2).map(|(p, q)| 3 * p - 2 * q).collect();
    assert_eq!(w, expect_w);
}

#[test]
fn filtfilt_runs_every_numerator_and_sample_row() {
    let b: Vec<Vec<i64>> = vec![vec![1], vec![2]];
    let x: Vec<Vec<i64>> = vec![vec![3, -1, 4, 1, 5], vec![1, 1]];
    let y = filtfilt(&b, &[1, 0, 0], &x);
    assert_eq!(y, vec![
        vec![vec![3, -1, 4, 1, 5], vec![1, 1]],
        vec![vec![12, -4, 16, 4, 20], vec![4, 4]],
    ]);
    // A longer numerator row lengthens the denominator for the rows after it.
    let b: Vec<Vec<i64>> = vec![vec![1, 2, 1], vec![2]];
    let y = filtfilt(&b, &[1], &x);
    assert_eq!(y[0][0], filtfilt_row(&[1, 2, 1], &[1], &x[0]));
    assert_eq!(y[1][0], filtfilt_row(&[2], &[1, 0, 0], &x[0]));
    assert_eq!(y[1][1], filtfilt_row(&[2], &[1, 0, 0], &x[1]));
}

use signal_processing::generators::window::WindowRange;
use signal_processing::identification::invfreqz::InvFreqMethod;

#[test]
fn window_range_and_fit_method_variants() {
    assert_ne!(WindowRange::Symmetric, WindowRange::Periodic);
    let methods = [InvFreqMethod::LS, InvFreqMethod::TLS, InvFreqMethod::MLS, InvFreqMethod::QR];
    for (i, m) in methods.iter().enumerate() {
        for (j, n) in methods.iter().enumerate() {
            assert_eq!(i == j, m == n);
        }
    }
}

use signal_processing::operations::filtfilt::filtfilt_row_checked;
use signal_processing::operations::sgolayfilt::sgolayfilt_checked;

#[test]
fn filtfilt_row_checked_agrees_or_refuses() {
    let x: Vec<i64> = vec![3, -1, 4, 1, 5];
    assert_eq!(filtfilt_row_checked(&[2], &[1], &x), Some(vec![12, -4, 16, 4, 20]));
    assert_eq!(filtfilt_row_checked(&[1, 2, 1], &[1, 0, 0], &[1, 1, 1]), Some(filtfilt_row(&[1, 2, 1], &[1, 0, 0], &[1, 1, 1])));
    assert_eq!(filtfilt_row_checked(&[1], &[1], &[]), Some(vec![]));
    // The odd reflection of the first sample does not fit.
    assert_eq!(filtfilt_row_checked(&[1, 0], &[1], &[i64::MAX / 2 + 1, 0]), None);
    // The doubled samples do not fit.
    assert_eq!(filtfilt_row_checked(&[2], &[1], &[i64::MAX / 2 + 1]), None);
}

#[test]
fn sgolayfilt_checked_agrees_or_refuses() {
    let h: Vec<Vec<i64>> = vec![vec![1, 0, 0], vec![1, 1, 1], vec![0, 0, 1]];
    let x: Vec<Vec<i64>> = vec![vec![1, 2, 3, 4, 5]];
    assert_eq!(sgolayfilt_checked(&h, &x), Some(Ok(vec![vec![1, 9, 12, 1, 5]])));
    let short: Vec<Vec<i64>> = vec![vec![1, 0, 0], vec![1, 1], vec![0, 0, 1]];
    assert_eq!(sgolayfilt_checked(&short, &x), Some(Err(SGolayFiltError::NotSGolay)));
    let rows: Vec<Vec<i64>> = vec![vec![1, 2, 3], vec![4, 5]];
    assert_eq!(sgolayfilt_checked(&h, &rows), Some(Err(SGolayFiltError::InsufficientData)));
    let big: Vec<Vec<i64>> = vec![vec![i64::MAX, i64::MAX, 1, 1, 1]];
    assert_eq!(sgolayfilt_checked(&h, &big), None);
}

use signal_processing::operations::normalize::{Normalize, Ss};
use signal_processing::quantities::array2::int_array2_from_rows;
use signal_processing::quantities::lists_or_single::ListsOrSingle;

#[test]
fn state_space_normalize_pads_with_zeros() {
    let ss = Ss {
        a: int_array2_from_rows(&vec![vec![1, 2]], 2),
        b: int_array2_from_rows(&vec![vec![3], vec![4]], 1),
        c: int_array2_from_rows(&vec![vec![5]], 1),
        d: int_array2_from_rows(&vec![], 0),
    };
    let n = ss.normalize();
    assert_eq!(ListsOrSingle::<i64>::to_vecs(&n.a), vec![vec![1, 2], vec![0, 0]]);
    assert_eq!(ListsOrSingle::<i64>::to_vecs(&n.b), vec![vec![3], vec![4]]);
    assert_eq!(ListsOrSingle::<i64>::to_vecs(&n.c), vec![vec![5, 0]]);
    assert_eq!(ListsOrSingle::<i64>::to_vecs(&n.d), vec![vec![0]]);
}

use signal_processing::systems::{FiltFilt, FilterMut, Rtf, Tf};

#[test]
fn rtf_filter_mut_keeps_its_state() {
    let sys = Tf { b: vec![vec![1, 1, 0], vec![1]], a: vec![1, -1, 0] };
    let mut rtf = Rtf::new(sys, None);
    let y1 = rtf.filter_mut(&[1, 1]);
    let y2 = rtf.filter_mut(&[1, 2]);
    assert_eq!(y1[1], vec![1, 2]);
    assert_eq!(y2[1], vec![3, 5]);
    let mut w: Vec<i64> = vec![];
    let whole = filter_mut(&rtf.sys.b, &rtf.sys.a, &mut w, &[1, 1, 1, 2]);
    assert_eq!(whole[0], [y1[0].clone(), y2[0].clone()].concat());
    assert_eq!(rtf.w, w);
}

#[test]
fn tf_filtfilt_runs_every_row() {
    let sys = Tf { b: vec![vec![1], vec![2]], a: vec![1, 0, 0] };
    let x: Vec<Vec<i64>> = vec![vec![3, -1, 4, 1, 5]];
    assert_eq!(sys.filtfilt(&x), vec![vec![vec![3, -1, 4, 1, 5]], vec![vec![12, -4, 16, 4, 20]]]);
}

#[test]
fn inexact_divisions_are_refused() {
    // The feedback coefficient 1 does not divide by the first coefficient 2.
    let mut w: Vec<i64> = vec![4, 5];
    assert_eq!(filter_row_checked(&[1], &[2, 1, 0], &mut w, &[2, 0]), None);
    assert_eq!(w, vec![4, 5]);
    // Without samples nothing is divided.
    assert_eq!(filter_row_checked(&[1], &[2, 1, 0], &mut w, &[]), Some(vec![]));
    // The steady-state gain 1 / 2 is not an integer.
    assert_eq!(filtfilt_row_checked(&[1], &[1, 1], &[1, 2, 3]), None);
    // The gain 4 / 2 is.
    assert!(filtfilt_row_checked(&[2, 2], &[1, 1], &[1, 2, 3]).is_some());
}
