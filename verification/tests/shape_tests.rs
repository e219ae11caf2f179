use clem::broadcast::{broadcast_binary, broadcast_source_map};
use clem::error::TensorError;
use clem::shape::{broadcast_shapes, compute_strides, ravel_index, unravel_index};
use clem::tensor::{shape_fits_checked, TensorCore};

#[test]
fn broadcast_is_commutative_on_examples() {
    let pairs: Vec<(Vec<usize>, Vec<usize>)> = vec![
        (vec![3, 1], vec![4]),
        (vec![2, 1, 5], vec![3, 1]),
        (vec![], vec![7]),
    ];
    for (a, b) in pairs {
        assert_eq!(broadcast_shapes(&a, &b).unwrap(), broadcast_shapes(&b, &a).unwrap());
    }
}

#[test]
fn broadcast_with_itself_and_with_scalar_shape() {
    assert_eq!(broadcast_shapes(&[2, 3], &[2, 3]).unwrap(), vec![2, 3]);
    assert_eq!(broadcast_shapes(&[2, 3], &[]).unwrap(), vec![2, 3]);
    assert_eq!(broadcast_shapes(&[2, 1, 5], &[3, 1]).unwrap(), vec![2, 3, 5]);
}

#[test]
fn broadcast_stretches_unit_axes_to_zero() {
    assert_eq!(broadcast_shapes(&[0], &[]).unwrap(), vec![0]);
    assert_eq!(broadcast_shapes(&[0], &[1]).unwrap(), vec![0]);
    assert_eq!(broadcast_shapes(&[0, 3], &[1, 3]).unwrap(), vec![0, 3]);
    assert_eq!(broadcast_shapes(&[1, 3], &[0, 3]).unwrap(), vec![0, 3]);
    assert!(broadcast_shapes(&[0], &[2]).is_err());
    let a = TensorCore::new(Vec::<i32>::new(), vec![0, 3]);
    let b = TensorCore::new(vec![1, 2, 3], vec![1, 3]);
    let out = broadcast_binary(&a, &b, |x: i32, y: i32| x + y).unwrap();
    assert_eq!(out.shape_vec(), vec![0, 3]);
    assert!(out.data().is_empty());
}

#[test]
fn broadcast_mismatch_reports_both_shapes() {
    match broadcast_shapes(&[3, 4], &[2, 4]) {
        Err(TensorError::BroadcastMismatch { lhs, rhs }) => {
            assert_eq!(lhs, vec![3, 4]);
            assert_eq!(rhs, vec![2, 4]);
        }
        _ => panic!("expected a broadcast mismatch"),
    }
    let a = TensorCore::new(vec![0.0f32; 12], vec![3, 4]);
    let b = TensorCore::new(vec![0.0f32; 8], vec![2, 4]);
    assert!(matches!(
        broadcast_binary(&a, &b, |x: f32, y: f32| x + y),
        Err(TensorError::BroadcastMismatch { .. })
    ));
}

#[test]
fn broadcast_binary_reads_aligned_elements() {
    let a = TensorCore::new(vec![1i64, 2, 3], vec![3, 1]);
    let b = TensorCore::new(vec![10i64, 20, 30, 40], vec![4]);
    let out = broadcast_binary(&a, &b, |x: i64, y: i64| x * 100 + y).unwrap();
    assert_eq!(out.shape_vec(), vec![3, 4]);
    assert_eq!(
        out.data(),
        &[110, 120, 130, 140, 210, 220, 230, 240, 310, 320, 330, 340]
    );
}

#[test]
fn broadcast_source_map_offsets() {
    assert_eq!(
        broadcast_source_map(&[3, 4], &[4]).unwrap(),
        vec![0, 1, 2, 3, 0, 1, 2, 3, 0, 1, 2, 3]
    );
    assert_eq!(
        broadcast_source_map(&[3, 4], &[3, 1]).unwrap(),
        vec![0, 0, 0, 0, 1, 1, 1, 1, 2, 2, 2, 2]
    );
    assert_eq!(broadcast_source_map(&[2, 2], &[]).unwrap(), vec![0, 0, 0, 0]);
    assert!(matches!(
        broadcast_source_map(&[3, 4], &[2, 4]),
        Err(TensorError::BroadcastMismatch { .. })
    ));
    assert!(broadcast_source_map(&[4], &[1, 4]).is_err());
}

#[test]
fn strides_of_edge_shapes() {
    assert_eq!(compute_strides(&[]), Vec::<usize>::new());
    assert_eq!(compute_strides(&[5]), vec![1]);
    assert_eq!(compute_strides(&[2, 0, 3]), vec![0, 3, 1]);
    let big: usize = 1 << 40;
    assert_eq!(compute_strides(&[0, big, big]), vec![big.wrapping_mul(big), big, 1]);
}

#[test]
fn unravel_and_ravel_round_trip() {
    let shape = [2usize, 3, 4];
    for flat in 0..24usize {
        let c = unravel_index(flat, &shape);
        assert_eq!(c.len(), 3);
        assert_eq!(ravel_index(&c, &shape), flat);
    }
    assert_eq!(unravel_index(5, &[2, 3]), vec![1, 2]);
    assert_eq!(ravel_index(&[1, 2], &[2, 3]), 5);
    assert_eq!(unravel_index(0, &[]), Vec::<usize>::new());
}

#[test]
fn shape_fit_checks() {
    assert!(shape_fits_checked(&[2, 3]));
    assert!(shape_fits_checked(&[]));
    assert!(!shape_fits_checked(&[usize::MAX, 2]));
    assert!(shape_fits_checked(&[usize::MAX, 0]));
    assert!(shape_fits_checked(&[usize::MAX, 2, 0]));
    assert!(shape_fits_checked(&[0, 2, usize::MAX]));
    assert!(!shape_fits_checked(&[1 << 40, 1 << 40]));
}


#[test]
fn strided_offsets_are_row_major_offsets() {
    let shape = [2usize, 3, 4];
    let strides = compute_strides(&shape);
    for flat in 0..24usize {
        let c = unravel_index(flat, &shape);
        let offset: usize = c.iter().zip(strides.iter()).map(|(x, s)| x * s).sum();
        assert_eq!(offset, flat);
    }
}

#[test]
fn same_shape_operands_are_read_elementwise() {
    assert_eq!(broadcast_source_map(&[2, 3], &[2, 3]).unwrap(), vec![0, 1, 2, 3, 4, 5]);
}

#[test]
fn broadcast_index_of_output_coordinates() {
    assert_eq!(clem::broadcast::broadcast_index(&[1, 2], &[3]), 2);
    assert_eq!(clem::broadcast::broadcast_index(&[1, 2], &[2, 1]), 1);
    assert_eq!(clem::broadcast::broadcast_index(&[1, 2], &[]), 0);
}
