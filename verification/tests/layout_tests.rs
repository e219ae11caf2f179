use clem::creation::zeros;
use clem::error::TensorError;
use clem::linalg::{matmul, transpose, transpose_2d};
use clem::tensor::TensorCore;

fn dot(row: Vec<i64>, col: Vec<i64>) -> i64 {
    row.iter().zip(col.iter()).map(|(x, y)| x * y).sum()
}

#[test]
fn scalar_vector_and_len() {
    let s = TensorCore::scalar(5u8);
    assert_eq!(s.shape_vec(), Vec::<usize>::new());
    assert_eq!(s.data(), &[5]);
    assert_eq!(s.len(), 1);
    let v = TensorCore::vector(vec![1u8, 2, 3]);
    assert_eq!(v.shape_vec(), vec![3]);
    assert_eq!(v.len(), 3);
    assert_eq!(v.numel(), 3);
    let m = TensorCore::new(vec![0u8; 6], vec![2, 3]);
    assert_eq!(m.len(), 2);
}

#[test]
fn reshape_keeps_elements() {
    let t = TensorCore::new(vec![1i32, 2, 3, 4, 5, 6], vec![2, 3]);
    let r = t.reshape(vec![3, 2]).unwrap();
    assert_eq!(r.shape_vec(), vec![3, 2]);
    assert_eq!(r.data(), t.data());
    match t.reshape(vec![4]) {
        Err(TensorError::ReshapeMismatch { from, to }) => {
            assert_eq!(from, vec![2, 3]);
            assert_eq!(to, vec![4]);
        }
        _ => panic!("expected a reshape mismatch"),
    }
}

#[test]
fn zeros_needs_a_dimension() {
    assert!(matches!(zeros(Vec::new(), 0i32), Err(TensorError::NoDimensions)));
    let t = zeros(vec![2, 2], 7i32).unwrap();
    assert_eq!(t.data(), &[7, 7, 7, 7]);
    assert_eq!(t.shape_vec(), vec![2, 2]);
}

#[test]
fn transpose_matrix_and_cube() {
    let m = TensorCore::new(vec![1, 2, 3, 4, 5, 6], vec![2, 3]);
    let t = transpose(&m, 0, 1).unwrap();
    assert_eq!(t.shape_vec(), vec![3, 2]);
    assert_eq!(t.data(), &[1, 4, 2, 5, 3, 6]);
    let t2 = transpose_2d(&m).unwrap();
    assert_eq!(t2.data(), t.data());

    let c = TensorCore::new((0..8).collect::<Vec<i32>>(), vec![2, 2, 2]);
    let ct = transpose(&c, 0, 2).unwrap();
    assert_eq!(ct.data(), &[0, 4, 2, 6, 1, 5, 3, 7]);
    let same = transpose(&c, 1, 1).unwrap();
    assert_eq!(same.data(), c.data());
}

#[test]
fn transpose_twice_gives_back_the_tensor() {
    let c = TensorCore::new((0..24).collect::<Vec<i32>>(), vec![2, 3, 4]);
    let once = transpose(&c, 0, 2).unwrap();
    assert_eq!(once.shape_vec(), vec![4, 3, 2]);
    let twice = transpose(&once, 0, 2).unwrap();
    assert_eq!(twice.shape_vec(), vec![2, 3, 4]);
    assert_eq!(twice.data(), c.data());
}

#[test]
fn transpose_of_an_empty_tensor_with_long_axes() {
    let big: usize = 1 << 40;
    let t = TensorCore::new(Vec::<i32>::new(), vec![0, big, big]);
    let u = transpose(&t, 0, 2).unwrap();
    assert_eq!(u.shape_vec(), vec![big, big, 0]);
    assert!(u.data().is_empty());
    let back = transpose(&u, 0, 2).unwrap();
    assert_eq!(back.shape_vec(), vec![0, big, big]);
}

#[test]
fn transpose_errors() {
    let m = TensorCore::new(vec![1, 2, 3, 4, 5, 6], vec![2, 3]);
    assert!(matches!(
        transpose(&m, 0, 2),
        Err(TensorError::AxisOutOfRange { dim0: 0, dim1: 2, ndim: 2 })
    ));
    let v = TensorCore::vector(vec![1, 2, 3]);
    assert!(matches!(transpose_2d(&v), Err(TensorError::NotMatrix { ndim: 1 })));
}

#[test]
fn matmul_rectangular_and_batched_values() {
    let a = TensorCore::new(vec![1i64, 2, 3, 4, 5, 6], vec![2, 3]);
    let b = TensorCore::new(vec![7i64, 8, 9, 10, 11, 12], vec![3, 2]);
    let out = matmul(&a, &b, dot).unwrap();
    assert_eq!(out.shape_vec(), vec![2, 2]);
    assert_eq!(out.data(), &[58, 64, 139, 154]);

    let a3 = TensorCore::new(vec![1i64, 0, 0, 1, 2, 0, 0, 2], vec![2, 2, 2]);
    let b3 = TensorCore::new(vec![1i64, 2, 3, 4, 1, 2, 3, 4], vec![2, 2, 2]);
    let out3 = matmul(&a3, &b3, dot).unwrap();
    assert_eq!(out3.shape_vec(), vec![2, 2, 2]);
    assert_eq!(out3.data(), &[1, 2, 3, 4, 2, 4, 6, 8]);
}

#[test]
fn matmul_hands_rows_and_columns_to_the_kernel() {
    let a = TensorCore::new(vec![1i64, 2, 3, 4], vec![2, 2]);
    let b = TensorCore::new(vec![5i64, 6, 7, 8], vec![2, 2]);
    let out = matmul(&a, &b, |r: Vec<i64>, c: Vec<i64>| (r, c)).unwrap();
    assert_eq!(out.data()[1], (vec![1, 2], vec![6, 8]));
    assert_eq!(out.data()[2], (vec![3, 4], vec![5, 7]));
}

#[test]
fn matmul_errors() {
    let m = TensorCore::new(vec![0i64; 6], vec![2, 3]);
    let c = TensorCore::new(vec![0i64; 8], vec![2, 2, 2]);
    assert!(matches!(matmul(&m, &c, dot), Err(TensorError::MatmulRank { .. })));
    let c1 = TensorCore::new(vec![0i64; 4], vec![1, 2, 2]);
    assert!(matches!(matmul(&c1, &c, dot), Err(TensorError::MatmulBatch { .. })));
    assert!(matches!(matmul(&m, &m, dot), Err(TensorError::MatmulInner { .. })));
    let c3 = TensorCore::new(vec![0i64; 12], vec![2, 3, 2]);
    assert!(matches!(matmul(&c3, &c3, dot), Err(TensorError::MatmulInner { .. })));
}
