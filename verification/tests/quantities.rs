use signal_processing::quantities::container::{Container, ContainerMap};
use signal_processing::quantities::into_list::IntoList;
use signal_processing::quantities::lists::Lists;
use signal_processing::quantities::lists_or_single::ListsOrSingle;
use signal_processing::quantities::matrix::Matrix;
use signal_processing::quantities::maybe_list::MaybeList;
use signal_processing::quantities::maybe_lists::MaybeLists;
use signal_processing::quantities::owned_list_or_single::OwnedListOrSingle;
use signal_processing::quantities::product_sequence::ProductSequence;

#[test]
fn lists_or_single_rows() {
    let v: Vec<i32> = vec![1, 2, 3];
    assert_eq!(ListsOrSingle::<i32>::height(&v), 1);
    assert_eq!(ListsOrSingle::<i32>::to_vecs(&v), vec![vec![1, 2, 3]]);
    let m: Vec<Vec<i32>> = vec![vec![1], vec![2, 3]];
    assert_eq!(ListsOrSingle::<i32>::height(&m), 2);
    assert_eq!(ListsOrSingle::<i32>::as_view_slices(&m), vec![&[1][..], &[2, 3][..]]);
    let a: [[u8; 2]; 2] = [[1, 2], [3, 4]];
    assert_eq!(ListsOrSingle::<u8>::into_vecs(a), vec![vec![1, 2], vec![3, 4]]);
}

#[test]
fn container_index_get() {
    let v: Vec<i32> = vec![5, 6];
    assert_eq!(v.index_get(1), Some(&6));
    assert_eq!(v.index_get(2), None);
    let m: Vec<Vec<i32>> = vec![vec![1], vec![2, 3]];
    assert_eq!(Container::<i32>::index_get(&m, (1, 1)), Some(&3));
    assert_eq!(Container::<i32>::index_get(&m, (0, 1)), None);
}

#[test]
fn container_map_keeps_shape() {
    let m: Vec<Vec<i32>> = vec![vec![1], vec![2, 3]];
    let doubled: Vec<Vec<i64>> = ContainerMap::<i32, i64>::map_to_owned(&m, |x: &i32| 2 * (*x as i64));
    assert_eq!(doubled, vec![vec![2], vec![4, 6]]);
    let v: Vec<i32> = vec![1, 2];
    let neg: Vec<i32> = ContainerMap::<i32, i32>::map_into_owned(v, |x: i32| -x);
    assert_eq!(neg, vec![-1, -2]);
}

#[test]
fn lists_resize_and_coerce() {
    let v: Vec<i32> = vec![1, 2, 3];
    assert_eq!(v.clone().resize_to_owned(((), 5), || 0), vec![1, 2, 3, 0, 0]);
    assert_eq!(v.resize_to_owned(((), 2), || 0), vec![1, 2]);
    let m: Vec<Vec<i32>> = vec![vec![1], vec![2, 3, 4]];
    assert_eq!(Lists::<i32>::resize_to_owned(m.clone(), (3, 2), || 9), vec![vec![1, 9], vec![2, 3], vec![9, 9]]);
    assert_eq!(Lists::<i32>::coerce_into_matrix(m, || -1), vec![vec![1, -1, -1], vec![2, 3, 4]]);
    let empty: Vec<Vec<i32>> = vec![];
    assert_eq!(Lists::<i32>::coerce_into_matrix(empty, || 0), Vec::<Vec<i32>>::new());
}

#[test]
fn matrix_dim_and_transpose() {
    let a: [[i32; 3]; 2] = [[1, 2, 3], [4, 5, 6]];
    assert_eq!(Matrix::<i32>::matrix_dim(&a), (2, 3));
    assert_eq!(Matrix::<i32>::matrix_transpose(&a), vec![vec![1, 4], vec![2, 5], vec![3, 6]]);
    let v: Vec<i32> = vec![7, 8];
    assert_eq!(Matrix::<i32>::matrix_dim(&v), (1, 2));
    assert_eq!(Matrix::<i32>::matrix_transpose(&v), vec![vec![7], vec![8]]);
    let w: Vec<[i32; 2]> = vec![[1, 2], [3, 4], [5, 6]];
    assert_eq!(Matrix::<i32>::matrix_dim(&w), (3, 2));
    // Rows of fixed length are taken over as they are: only a square matrix,
    // or one without rows or columns, can be transposed.
    let sq: Vec<[i32; 2]> = vec![[1, 2], [3, 4]];
    assert_eq!(Matrix::<i32>::matrix_transpose(&sq), vec![vec![1, 2], vec![3, 4]]);
    let none: Vec<[i32; 2]> = vec![];
    assert_eq!(Matrix::<i32>::matrix_transpose(&none), vec![Vec::<i32>::new(); 2]);
    let thin: Vec<[i32; 0]> = vec![[], []];
    assert_eq!(Matrix::<i32>::matrix_transpose(&thin), Vec::<Vec<i32>>::new());
    // Transposing twice gives back the rows.
    let t: Vec<Vec<i32>> = Matrix::<i32>::matrix_transpose(&a);
    let t_arr: [[i32; 2]; 3] = [[t[0][0], t[0][1]], [t[1][0], t[1][1]], [t[2][0], t[2][1]]];
    assert_eq!(Matrix::<i32>::matrix_transpose(&t_arr), vec![vec![1, 2, 3], vec![4, 5, 6]]);
}

#[test]
fn maybe_list_slices() {
    let v: Vec<i32> = vec![1, 2];
    assert_eq!(v.as_view_slice_option(), Some(&[1, 2][..]));
    let none: Option<&[i32]> = MaybeList::<i32>::as_view_slice_option(&());
    assert_eq!(none, None);
}

#[test]
fn maybe_lists_map_rows() {
    let m: Vec<Vec<i32>> = vec![vec![1, 2], vec![3]];
    let lens: Vec<usize> = MaybeLists::<i32, usize>::map_rows_to_owned(&m, |r: &[i32]| r.len());
    assert_eq!(lens, vec![2, 1]);
    let v: Vec<i32> = vec![4, 5, 6];
    let sum: i32 = MaybeLists::<i32, i32>::map_rows_to_owned(&v, |r: &[i32]| r.iter().sum());
    assert_eq!(sum, 15);
    let ok: Result<Vec<i32>, &str> = MaybeLists::<i32, i32>::try_map_rows_into_owned(m.clone(), |r: Vec<i32>| Ok(r[0]));
    assert_eq!(ok, Ok(vec![1, 3]));
    let err: Result<Vec<i32>, usize> = MaybeLists::<i32, i32>::try_map_rows_into_owned(m, |r: Vec<i32>| {
        if r.len() < 2 { Err(r.len()) } else { Ok(r[1]) }
    });
    assert_eq!(err, Err(1));
}

#[test]
fn into_list_conversions() {
    let r: Vec<i64> = (2i64..6).into_list(());
    assert_eq!(r, vec![2, 3, 4, 5]);
    let e: Vec<i64> = (6i64..2).into_list(());
    assert_eq!(e, Vec::<i64>::new());
    let u: Vec<usize> = (0usize..3).into_list(());
    assert_eq!(u, vec![0, 1, 2]);
    let a: Vec<u8> = [1u8, 2].into_list(());
    assert_eq!(a, vec![1, 2]);
    let s: &[u8] = &[3, 4];
    let sv: Vec<u8> = s.into_list(());
    assert_eq!(sv, vec![3, 4]);
}

#[test]
fn owned_list_from_len_fn() {
    let v: Vec<usize> = <Vec<usize> as OwnedListOrSingle<usize>>::from_len_fn(4, |i: usize| i * i);
    assert_eq!(v, vec![0, 1, 4, 9]);
    let mut w: Vec<i32> = vec![1, 2];
    OwnedListOrSingle::<i32>::as_mut_slice(&mut w)[1] = 7;
    assert_eq!(w, vec![1, 7]);
}

#[test]
fn product_sequence_views() {
    let z = ProductSequence::<i32, Vec<i32>>::new(vec![1, -1]);
    let owned = z.as_view().to_owned();
    assert_eq!(owned.into_inner(), vec![1, -1]);
}

use signal_processing::quantities::maybe_container::MaybeContainer;

#[test]
fn maybe_container_copies() {
    let s: &[i32] = &[1, 2, 3];
    assert_eq!(MaybeContainer::<i32>::to_owned(&s), vec![1, 2, 3]);
    let m: Vec<Vec<i32>> = vec![vec![1], vec![2, 3]];
    assert_eq!(MaybeContainer::<i32>::to_owned(&m), m);
    let rows: Vec<&[i32]> = vec![&[4][..], &[5, 6][..]];
    assert_eq!(MaybeContainer::<i32>::into_owned(rows), vec![vec![4], vec![5, 6]]);
    MaybeContainer::<i32>::into_owned(());
}

use signal_processing::quantities::array2::{coerce_into_int_array2, int_array2_from_rows, to_int_array2};

#[test]
fn int_array2_round_trip() {
    let rows: Vec<Vec<i64>> = vec![vec![1, 2, 3], vec![4, 5, 6]];
    let a = int_array2_from_rows(&rows, 3);
    assert_eq!(a.matrix_dim(), (2, 3));
    assert_eq!(ListsOrSingle::<i64>::height(&a), 2);
    assert_eq!(ListsOrSingle::<i64>::to_vecs(&a), rows);
    assert_eq!(ListsOrSingle::<i64>::as_view_slices(&a), vec![&[1, 2, 3][..], &[4, 5, 6][..]]);
    assert_eq!(a.matrix_transpose(), vec![vec![1, 4], vec![2, 5], vec![3, 6]]);
    assert_eq!(ListsOrSingle::<i64>::into_vecs(a), rows);
}

#[test]
fn int_array2_from_ragged_rows_and_matrices() {
    let a = coerce_into_int_array2(vec![vec![1], vec![2, 3, 4], vec![]], || 0);
    assert_eq!(a.matrix_dim(), (3, 3));
    assert_eq!(ListsOrSingle::<i64>::to_vecs(&a), vec![vec![1, 0, 0], vec![2, 3, 4], vec![0, 0, 0]]);
    let m: [[i64; 2]; 2] = [[7, 8], [9, 10]];
    let b = to_int_array2(&m);
    assert_eq!(ListsOrSingle::<i64>::to_vecs(&b), vec![vec![7, 8], vec![9, 10]]);
    let empty = int_array2_from_rows(&vec![], 5);
    assert_eq!(empty.matrix_dim(), (0, 5));
    assert_eq!(empty.matrix_transpose(), vec![Vec::<i64>::new(); 5]);
}
