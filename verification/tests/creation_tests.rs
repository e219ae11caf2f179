use clem::creation::{flatten_into, read_shape, tensor_from_batch, tensor_from_nested, Nested};
use clem::error::TensorError;

fn row(xs: &[i32]) -> Nested<i32> {
    Nested::List(xs.iter().map(|&x| Nested::Item(x)).collect())
}

fn grid() -> Nested<i32> {
    Nested::List(vec![row(&[1, 2, 3]), row(&[4, 5, 6])])
}

#[test]
fn nested_lists_give_shape_and_data() {
    let t = tensor_from_nested(&grid()).unwrap();
    assert_eq!(t.shape_vec(), vec![2, 3]);
    assert_eq!(t.data(), &[1, 2, 3, 4, 5, 6]);
    let v = tensor_from_nested(&row(&[7, 8])).unwrap();
    assert_eq!(v.shape_vec(), vec![2]);
    let s = tensor_from_nested(&Nested::Item(9)).unwrap();
    assert_eq!(s.shape_vec(), Vec::<usize>::new());
    assert_eq!(s.data(), &[9]);
}

#[test]
fn shape_is_read_along_first_entries() {
    let cube = Nested::List(vec![grid(), grid()]);
    assert_eq!(read_shape(&cube).unwrap(), vec![2, 2, 3]);
    let mut out = vec![0];
    flatten_into(&cube, &mut out).unwrap();
    assert_eq!(out, vec![0, 1, 2, 3, 4, 5, 6, 1, 2, 3, 4, 5, 6]);
}

#[test]
fn malformed_nested_lists() {
    let ragged = Nested::List(vec![row(&[1]), row(&[2, 3])]);
    let t = tensor_from_nested(&ragged).unwrap();
    assert_eq!(t.shape_vec(), vec![2, 1]);
    assert_eq!(t.data(), &[1, 2, 3]);
    assert!(!t.fills_shape());
    assert!(tensor_from_nested(&grid()).unwrap().fills_shape());
    assert!(matches!(
        tensor_from_nested(&Nested::<i32>::List(vec![])),
        Err(TensorError::EmptyList)
    ));
    let bad = Nested::List(vec![Nested::Item(1), Nested::Other]);
    assert!(matches!(tensor_from_nested(&bad), Err(TensorError::NotNumeric)));
    let both = Nested::List(vec![Nested::<i32>::List(vec![]), Nested::Other]);
    assert!(matches!(tensor_from_nested(&both), Err(TensorError::EmptyList)));
}

#[test]
fn batch_size_must_match_first_axis() {
    let t = tensor_from_batch(&grid(), 2).unwrap();
    assert_eq!(t.shape_vec(), vec![2, 3]);
    match tensor_from_batch(&grid(), 3) {
        Err(TensorError::BatchMismatch { batch, shape }) => {
            assert_eq!(batch, 3);
            assert_eq!(shape, vec![2, 3]);
        }
        _ => panic!("expected a batch mismatch"),
    }
    assert!(matches!(
        tensor_from_batch(&Nested::Item(1), 1),
        Err(TensorError::BatchMismatch { batch: 1, .. })
    ));
}
