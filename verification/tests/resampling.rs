use signal_processing::operations::resampling::downsample::Downsample;
use signal_processing::operations::resampling::upsample::Upsample;
use signal_processing::operations::upsample_fill::UpsampleFill;

#[test]
fn downsample_keeps_every_nth_sample_from_phase() {
    let x: Vec<i32> = vec![0, 1, 2, 3, 4, 5, 6, 7];
    assert_eq!(x.clone().downsample(3, 0), vec![0, 3, 6]);
    assert_eq!(x.clone().downsample(3, 1), vec![1, 4, 7]);
    // The phase is taken modulo the factor.
    assert_eq!(x.clone().downsample(3, 5), vec![2, 5]);
    let s: &[i32] = &[9, 8, 7];
    assert_eq!(s.downsample(5, 0), vec![9]);
}

#[test]
fn downsample_rows() {
    let x: Vec<Vec<i64>> = vec![vec![1, 2, 3, 4], vec![], vec![5]];
    assert_eq!(x.downsample(2, 1), vec![vec![2, 4], vec![], vec![]]);
}

#[test]
fn upsample_inserts_zeros() {
    let x: Vec<i64> = vec![1, 2, 3];
    assert_eq!(x.clone().upsample(3, 0), vec![1, 0, 0, 2, 0, 0, 3, 0, 0]);
    assert_eq!(x.clone().upsample(2, 1), vec![0, 1, 0, 2, 0, 3]);
    assert_eq!(x.upsample(2, 3), vec![0, 1, 0, 2, 0, 3]);
}

#[test]
fn downsample_undoes_upsample() {
    let x: Vec<i16> = vec![4, -1, 7, 0, 2];
    for n in 1..5usize {
        for phase in 0..6usize {
            let y = x.clone().upsample(n, phase);
            assert_eq!(y.downsample(n, phase), x);
        }
    }
}

#[test]
fn upsample_fill_interleaves() {
    let x: Vec<i64> = vec![1, 2];
    assert_eq!(x.clone().upsample_fill(vec![7, 8], 0), vec![1, 7, 8, 2, 7, 8]);
    assert_eq!(x.clone().upsample_fill(vec![7, 8], 1), vec![7, 1, 8, 7, 2, 8]);
    assert_eq!(x.clone().upsample_fill(vec![7, 8], 2), vec![7, 8, 1, 7, 8, 2]);
    // The phase is taken modulo the block length plus one.
    assert_eq!(x.upsample_fill(vec![7, 8], 4), vec![7, 1, 8, 7, 2, 8]);
}

#[test]
fn downsample_undoes_upsample_fill() {
    let x: Vec<i64> = vec![3, 1, 4, 1, 5];
    let fill: Vec<i64> = vec![9, 9, 9];
    for phase in 0..8usize {
        let y = x.clone().upsample_fill(fill.clone(), phase);
        assert_eq!(y.downsample(fill.len() + 1, phase % (fill.len() + 1)), x);
    }
}

#[test]
fn upsample_fill_rows() {
    let x: Vec<Vec<u8>> = vec![vec![1], vec![2, 3]];
    assert_eq!(x.upsample_fill(vec![0u8], 1), vec![vec![0, 1], vec![0, 2, 0, 3]]);
}

use signal_processing::operations::resampling::interp::{interp_stuff, interp_trim};

#[test]
fn interp_spreads_samples_and_extrapolates() {
    let y = interp_stuff(&[1, 2, 4], 2, 1);
    assert_eq!(y, vec![1, 0, 2, 0, 4, 0, 6, 0, 0]);
    assert_eq!(interp_stuff(&[5], 3, 0), vec![5, 0, 0, 5]);
    assert_eq!(interp_stuff(&[], 3, 4), Vec::<i64>::new());
}

#[test]
fn interp_trims_filter_delay() {
    let y: Vec<i64> = vec![1, 0, 2, 0, 4, 0, 6, 0, 0];
    assert_eq!(interp_trim(&y, 2, 1, 3), vec![0, 2, 0, 4, 0, 6]);
    // Never more samples than the row holds after the delay.
    assert_eq!(interp_trim(&y, 2, 4, 3), vec![0, 0]);
    assert_eq!(interp_trim(&y, 1, 0, 20), y);
}
