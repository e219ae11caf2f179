use clem::error::TensorError;
use clem::indexing::{
    advanced_index, axis_coords, gather, getitem_int, getitem_slice_1d, getitem_tuple,
    normalize_index, setitem_tuple, slice_coords, IndexItem,
};
use clem::tensor::TensorCore;

fn grid() -> TensorCore<i32> {
    TensorCore::new((0..6).collect(), vec![2, 3])
}

#[test]
fn normalize_negative_and_out_of_range() {
    assert_eq!(normalize_index(-1, 3).unwrap(), 2);
    assert_eq!(normalize_index(0, 3).unwrap(), 0);
    assert!(matches!(
        normalize_index(3, 3),
        Err(TensorError::IndexOutOfRange { index: 3, size: 3 })
    ));
    assert!(matches!(
        normalize_index(-4, 3),
        Err(TensorError::IndexOutOfRange { index: -4, size: 3 })
    ));
}

#[test]
fn slice_positions() {
    assert_eq!(slice_coords(0, 4, 2, 4).unwrap(), vec![0, 2]);
    assert_eq!(slice_coords(3, -1, -1, 4).unwrap(), vec![3, 2, 1, 0]);
    assert_eq!(slice_coords(1, 1, 1, 4).unwrap(), Vec::<usize>::new());
    assert!(matches!(slice_coords(0, 4, 0, 4), Err(TensorError::ZeroStep)));
    assert_eq!(axis_coords(IndexItem::Full, 3).unwrap(), vec![0, 1, 2]);
    assert_eq!(axis_coords(IndexItem::At(-2), 3).unwrap(), vec![1]);
}

#[test]
fn single_index_and_slice_of_a_vector() {
    let v = TensorCore::vector(vec![10, 20, 30]);
    let last = getitem_int(&v, -1).unwrap();
    assert_eq!(last.shape_vec(), Vec::<usize>::new());
    assert_eq!(last.data(), &[30]);
    assert!(matches!(getitem_int(&v, 3), Err(TensorError::IndexOutOfRange { .. })));
    assert!(matches!(
        getitem_int(&grid(), 0),
        Err(TensorError::NeedsTupleIndex { ndim: 2 })
    ));
    let s = getitem_slice_1d(&v, 0, 3, 2).unwrap();
    assert_eq!(s.shape_vec(), vec![2]);
    assert_eq!(s.data(), &[10, 30]);
    assert!(matches!(getitem_slice_1d(&v, 0, 3, 0), Err(TensorError::ZeroStep)));
    assert!(matches!(
        getitem_slice_1d(&grid(), 0, 2, 1),
        Err(TensorError::SliceNeedsTupleIndex { ndim: 2 })
    ));
}

#[test]
fn tuple_index_of_a_matrix() {
    let g = grid();
    let row = getitem_tuple(&g, &vec![IndexItem::At(1), IndexItem::Full]).unwrap();
    assert_eq!(row.shape_vec(), vec![1, 3]);
    assert_eq!(row.data(), &[3, 4, 5]);
    let flipped = getitem_tuple(
        &g,
        &vec![IndexItem::Full, IndexItem::Range { start: 2, stop: -1, step: -1 }],
    )
    .unwrap();
    assert_eq!(flipped.shape_vec(), vec![2, 3]);
    assert_eq!(flipped.data(), &[2, 1, 0, 5, 4, 3]);
    let all = getitem_tuple(&g, &vec![]).unwrap();
    assert_eq!(all.data(), g.data());
    let v = TensorCore::vector(vec![1, 2, 3, 4]);
    let odd = getitem_tuple(&v, &vec![IndexItem::Range { start: 1, stop: 4, step: 2 }]).unwrap();
    assert_eq!(odd.data(), &[2, 4]);
}

#[test]
fn tuple_index_errors() {
    let g = grid();
    assert!(matches!(
        getitem_tuple(&g, &vec![IndexItem::Full, IndexItem::Full, IndexItem::Full]),
        Err(TensorError::TooManyIndices { given: 3, ndim: 2 })
    ));
    assert!(matches!(
        getitem_tuple(&g, &vec![IndexItem::At(5)]),
        Err(TensorError::IndexOutOfRange { index: 5, size: 2 })
    ));
    let cube = TensorCore::new(vec![0; 8], vec![2, 2, 2]);
    assert!(matches!(
        getitem_tuple(&cube, &vec![IndexItem::Full]),
        Err(TensorError::TupleIndexRank { ndim: 3 })
    ));
}

#[test]
fn gather_selects_coordinate_products() {
    let g = grid();
    let out = gather(&g, &vec![vec![1], vec![0, 2]]);
    assert_eq!(out.shape_vec(), vec![1, 2]);
    assert_eq!(out.data(), &[3, 5]);
}

#[test]
fn assigned_block_reads_back() {
    let mut t = TensorCore::new(vec![0i32; 12], vec![3, 4]);
    let keys = vec![
        IndexItem::Range { start: 0, stop: 3, step: 2 },
        IndexItem::Range { start: 3, stop: 0, step: -2 },
    ];
    let val = TensorCore::new(vec![1, 2, 3, 4], vec![2, 2]);
    setitem_tuple(&mut t, &keys, &val).unwrap();
    assert_eq!(t.data(), &[0, 2, 0, 1, 0, 0, 0, 0, 0, 4, 0, 3]);
    let back = getitem_tuple(&t, &keys).unwrap();
    assert_eq!(back.shape_vec(), vec![2, 2]);
    assert_eq!(back.data(), val.data());
}

#[test]
fn assignment_errors_leave_the_tensor() {
    let mut t = TensorCore::new(vec![0i32; 12], vec![3, 4]);
    let val = TensorCore::new(vec![1, 2, 3, 4], vec![2, 2]);
    let cols = IndexItem::Range { start: 0, stop: 4, step: 2 };
    assert!(matches!(
        setitem_tuple(&mut t, &vec![IndexItem::Full], &val),
        Err(TensorError::SetitemArity { ndim: 2, given: 1 })
    ));
    assert!(matches!(
        setitem_tuple(&mut t, &vec![IndexItem::At(0), cols], &val),
        Err(TensorError::SetitemRowKey)
    ));
    assert!(matches!(
        setitem_tuple(&mut t, &vec![IndexItem::Full, IndexItem::Full], &val),
        Err(TensorError::SetitemColKey)
    ));
    match setitem_tuple(&mut t, &vec![IndexItem::Full, cols], &val) {
        Err(TensorError::SetitemValueShape { value, rows, cols }) => {
            assert_eq!(value, vec![2, 2]);
            assert_eq!((rows, cols), (3, 2));
        }
        _ => panic!("expected a value shape error"),
    }
    assert_eq!(t.data(), &[0; 12]);
    let mut v = TensorCore::vector(vec![0i32; 4]);
    assert!(matches!(
        setitem_tuple(&mut v, &vec![IndexItem::Full, cols], &val),
        Err(TensorError::SetitemArity { ndim: 1, given: 2 })
    ));
}

#[test]
fn row_lookup_errors() {
    let table = TensorCore::new(vec![1.0f32, 2.0, 3.0, 4.0, 5.0, 6.0], vec![3, 2]);
    let idx = TensorCore::new(vec![2usize, 0, 1, 2], vec![2, 2]);
    let out = advanced_index(&table, &idx).unwrap();
    assert_eq!(out.shape_vec(), vec![2, 2, 2]);
    assert_eq!(out.data(), &[5.0, 6.0, 1.0, 2.0, 3.0, 4.0, 5.0, 6.0]);
    let bad = TensorCore::vector(vec![1usize, 3, 7]);
    assert!(matches!(
        advanced_index(&table, &bad),
        Err(TensorError::RowOutOfRange { row: 3, vocab: 3 })
    ));
    let flat = TensorCore::vector(vec![1.0f32, 2.0]);
    assert!(matches!(
        advanced_index(&flat, &bad),
        Err(TensorError::EmbeddingRank { ndim: 1 })
    ));
}
