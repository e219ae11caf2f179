use clem::broadcast::broadcast_binary;
use clem::indexing::{advanced_index, setitem_tuple, IndexItem};
use clem::linalg::matmul;
use clem::ops::map_unary;
use clem::shape::{broadcast_shapes, compute_strides, numel};
use clem::tensor::TensorCore;

fn dot(row: Vec<f32>, col: Vec<f32>) -> f32 {
    let mut sum = 0.0f32;
    for p in 0..row.len() {
        sum += row[p] * col[p];
    }
    sum
}

#[test]
fn compute_strides_row_major() {
    assert_eq!(compute_strides(&[2, 3]), vec![3, 1]);
    assert_eq!(compute_strides(&[4, 2, 3]), vec![6, 3, 1]);
}

#[test]
fn broadcast_shapes_numpy_rules() {
    assert_eq!(broadcast_shapes(&[3, 1], &[4]).unwrap(), vec![3, 4]);
    assert_eq!(broadcast_shapes(&[256, 1], &[64]).unwrap(), vec![256, 64]);
    assert!(broadcast_shapes(&[3, 4], &[2, 4]).is_err());
}

#[test]
fn reshape_validates_element_count() {
    let core = TensorCore::new(vec![1.0f32, 2.0, 3.0, 4.0], vec![2, 2]);
    assert!(core.reshape(vec![4]).is_ok());
    assert!(core.reshape(vec![3]).is_err());
}

#[test]
fn numel_product() {
    assert_eq!(numel(&[2, 3, 4]), 24);
    assert_eq!(numel(&[]), 1);
}

#[test]
fn zeros_shape() {
    let t = TensorCore::zeros(vec![2, 3], 0.0f32);
    assert_eq!(t.shape_vec(), vec![2, 3]);
}

#[test]
fn advanced_index_embedding() {
    let table = TensorCore::new(vec![1.0f32, 2.0, 3.0, 4.0, 5.0, 6.0], vec![3, 2]);
    let idx = TensorCore::new(vec![0usize, 2], vec![2]);
    let out = advanced_index(&table, &idx).unwrap();
    assert_eq!(out.shape_vec(), vec![2, 2]);
    assert_eq!(out.data(), &[1.0, 2.0, 5.0, 6.0]);
}

#[test]
fn setitem_even_columns() {
    let mut t = TensorCore::new(vec![0.0f32; 12], vec![3, 4]);
    let val = TensorCore::new(vec![1.0f32, 2.0, 3.0, 4.0, 5.0, 6.0], vec![3, 2]);
    let keys = vec![IndexItem::Full, IndexItem::Range { start: 0, stop: 4, step: 2 }];
    setitem_tuple(&mut t, &keys, &val).unwrap();
    assert_eq!(t.data()[0], 1.0);
    assert_eq!(t.data()[2], 2.0);
}

#[test]
fn matmul_2x2() {
    let a = TensorCore::new(vec![1.0f32, 2.0, 3.0, 4.0], vec![2, 2]);
    let b = TensorCore::new(vec![2.0f32, 0.0, 1.0, 2.0], vec![2, 2]);
    let out = matmul(&a, &b, dot).unwrap();
    assert_eq!(out.data(), &[4.0, 4.0, 10.0, 8.0]);
}

#[test]
fn batched_matmul() {
    let a = TensorCore::new(vec![1.0f32, 2.0, 3.0, 4.0], vec![1, 2, 2]);
    let b = TensorCore::new(vec![1.0f32, 0.0, 0.0, 1.0], vec![1, 2, 2]);
    let out = matmul(&a, &b, dot).unwrap();
    assert_eq!(out.shape_vec(), vec![1, 2, 2]);
    assert_eq!(out.data(), &[1.0, 2.0, 3.0, 4.0]);
}

#[test]
fn unary_exp() {
    let t = TensorCore::new(vec![0.0f32, 1.0], vec![2]);
    let out = map_unary(&t, |x: f32| x.exp());
    assert!((out.data()[0] - 1.0).abs() < 1e-5);
    assert!((out.data()[1] - std::f32::consts::E).abs() < 1e-4);
}

#[test]
fn broadcast_mul_pos_div_term() {
    let pos = TensorCore::new((0..256).map(|i| i as f32).collect(), vec![256, 1]);
    let div_term = TensorCore::new((0..32).map(|i| i as f32).collect(), vec![32]);
    let out = broadcast_binary(&pos, &div_term, |a: f32, b: f32| a * b).unwrap();
    assert_eq!(out.shape_vec(), vec![256, 32]);
}

#[test]
fn add_broadcast() {
    let a = TensorCore::new(vec![1.0f32, 2.0, 3.0], vec![3, 1]);
    let b = TensorCore::new(vec![10.0f32, 20.0, 30.0, 40.0], vec![4]);
    let out = broadcast_binary(&a, &b, |x: f32, y: f32| x + y).unwrap();
    assert_eq!(out.shape_vec(), vec![3, 4]);
    assert_eq!(out.data()[0], 11.0);
    assert_eq!(out.data()[4], 12.0);
}
