use signal_processing::operations::conv::{convolve_direct, Conv};

#[test]
fn conv_test() {
    let a: [i64; 3] = [1, 2, 3];
    let b: [i64; 2] = [2, 2];

    let c = a.conv(b);

    println!("{:?}", c);
    assert_eq!(c, vec![2, 6, 10, 6]);
}

#[test]
fn conv_vectors_coefficients() {
    let c = vec![1i64, -1].conv(vec![1i64, 1]);
    assert_eq!(c, vec![1, 0, -1]);
}

#[test]
fn conv_is_commutative_on_example() {
    let a: Vec<i64> = vec![3, 0, -2, 5];
    let b: Vec<i64> = vec![1, 4, 7];
    assert_eq!(convolve_direct(&a, &b), convolve_direct(&b, &a));
}

#[test]
fn conv_evaluates_to_product() {
    let a: Vec<i64> = vec![2, -3, 1];
    let b: Vec<i64> = vec![1, 5];
    let c = convolve_direct(&a, &b);
    let eval = |p: &[i64], x: i64| p.iter().fold(0i64, |acc, &k| acc * x + k);
    for x in -3i64..=3 {
        assert_eq!(eval(&c, x), eval(&a, x) * eval(&b, x));
    }
}

#[test]
fn conv_with_empty_sequence() {
    let a: Vec<i64> = vec![];
    let b: Vec<i64> = vec![1, 2];
    assert_eq!(convolve_direct(&a, &b), vec![0]);
    let e: Vec<i64> = vec![];
    assert_eq!(convolve_direct(&e, &e), Vec::<i64>::new());
}

#[test]
fn conv_slices_and_rows() {
    let a: &[i64] = &[1, 1];
    let b: &[i64] = &[1, 1];
    assert_eq!(a.conv(b), vec![1, 2, 1]);
    let rows: Vec<Vec<i64>> = vec![vec![1], vec![1, 1]];
    assert_eq!(rows.conv(vec![2i64, 3]), vec![vec![2, 3], vec![2, 5, 3]]);
}
