use signal_processing::generators::matrix::dstmtx::{DstEntry, DstMatrix};

fn value(e: &DstEntry) -> f64 {
    let s = ((e.scale_num as f64) / (e.scale_den as f64)).sqrt();
    let v = s * (core::f64::consts::PI * (e.arg_num as f64) / (e.arg_den as f64)).sin();
    if e.negative { -v } else { v }
}

fn values<const N: usize>(m: &[[DstEntry; N]; N]) -> Vec<Vec<f64>> {
    m.iter().map(|row| row.iter().map(value).collect()).collect()
}

fn mul(t: &[Vec<f64>], x: &[f64]) -> Vec<f64> {
    t.iter().map(|row| row.iter().zip(x).map(|(a, b)| a * b).sum()).collect()
}

fn is_orthonormal(t: &[Vec<f64>]) -> bool {
    let n = t.len();
    (0..n).all(|i| (0..n).all(|j| {
        let d: f64 = (0..n).map(|k| t[i][k] * t[j][k]).sum();
        (d - if i == j { 1.0 } else { 0.0 }).abs() < 1e-9
    }))
}

#[test]
fn dstmtx_test() {
    let x = [1.0, 2.0, 3.0, 4.0, 5.0, 6.0];

    let y1: Vec<f64> = (0..6).map(|k| {
        (0..6).map(|n| {
            x[n] * ((2.0f64 / 6.0).sqrt()
                * (core::f64::consts::PI / 6.0 * (n as f64 + 0.5) * (k as f64 + 0.5)).sin())
        }).sum()
    }).collect();
    println!("{:?}", y1);

    let t: [[DstEntry; 6]; 6] = DstMatrix::dst_iv_matrix(());

    let y2 = mul(&values(&t), &x);
    println!("{:?}", y2);
    for (a, b) in y1.iter().zip(y2.iter()) {
        assert!((a - b).abs() < 1e-9);
    }
}

#[test]
fn dst_matrices_are_orthonormal() {
    let t1: [[DstEntry; 5]; 5] = DstMatrix::dst_i_matrix(());
    let t2: [[DstEntry; 5]; 5] = DstMatrix::dst_ii_matrix(());
    let t3: [[DstEntry; 5]; 5] = DstMatrix::dst_iii_matrix(());
    let t4: [[DstEntry; 5]; 5] = DstMatrix::dst_iv_matrix(());
    assert!(is_orthonormal(&values(&t1)));
    assert!(is_orthonormal(&values(&t2)));
    assert!(is_orthonormal(&values(&t3)));
    assert!(is_orthonormal(&values(&t4)));
}

#[test]
fn dst_iii_is_transpose_of_dst_ii() {
    let t2: [[DstEntry; 4]; 4] = DstMatrix::dst_ii_matrix(());
    let t3: [[DstEntry; 4]; 4] = DstMatrix::dst_iii_matrix(());
    let v2 = values(&t2);
    let v3 = values(&t3);
    for i in 0..4 {
        for j in 0..4 {
            assert!((v2[i][j] - v3[j][i]).abs() < 1e-12);
        }
    }
}

#[test]
fn dst_iv_entry_exact() {
    let t: Vec<Vec<DstEntry>> = DstMatrix::dst_iv_matrix(3usize);
    assert_eq!(t.len(), 3);
    assert_eq!(t[1][2], DstEntry { negative: false, scale_num: 2, scale_den: 3, arg_num: 15, arg_den: 12 });
    let t1: Vec<Vec<DstEntry>> = DstMatrix::dst_i_matrix(3usize);
    assert_eq!(t1[0][1], DstEntry { negative: false, scale_num: 2, scale_den: 4, arg_num: 2, arg_den: 4 });
}

#[test]
fn dst_i_and_iv_are_symmetric() {
    let t1: Vec<Vec<DstEntry>> = DstMatrix::dst_i_matrix(5usize);
    let t4: Vec<Vec<DstEntry>> = DstMatrix::dst_iv_matrix(5usize);
    for i in 0..5 {
        for j in 0..5 {
            assert_eq!(t1[i][j], t1[j][i]);
            assert_eq!(t4[i][j], t4[j][i]);
        }
    }
}
