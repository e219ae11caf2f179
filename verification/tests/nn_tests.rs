use clem::autograd::{
    collect_nodes, gradient_plan, matmul_emits_gradients, records_gradient, sum_to_shape_map,
};
use clem::error::TensorError;
use clem::nn::{cross_entropy, layer_norm, map_lanes, softmax, softmax_axis};
use clem::ops::map_unary;
use clem::tensor::TensorCore;

fn softmax_lane(lane: Vec<f32>) -> Vec<f32> {
    let mut max_val = f32::NEG_INFINITY;
    for &x in lane.iter() {
        max_val = max_val.max(x);
    }
    let exps: Vec<f32> = lane.iter().map(|&x| (x - max_val).exp()).collect();
    let sum: f32 = exps.iter().sum();
    exps.iter().map(|e| e / sum).collect()
}

fn normalize_block(block: Vec<f32>) -> Vec<f32> {
    let n = block.len() as f32;
    let mean = block.iter().sum::<f32>() / n;
    let var = block.iter().map(|x| (x - mean).powi(2)).sum::<f32>() / n;
    let std = (var + 1e-5).sqrt();
    block.iter().map(|x| (x - mean) / std).collect()
}

fn mean_loss(rows: Vec<Vec<f32>>, classes: Vec<usize>) -> f32 {
    let mut loss_sum = 0.0f32;
    for (row, &class) in rows.iter().zip(classes.iter()) {
        let max = row.iter().cloned().fold(f32::NEG_INFINITY, f32::max);
        let log_sum_exp = max + row.iter().map(|&x| (x - max).exp()).sum::<f32>().ln();
        loss_sum -= row[class] - log_sum_exp;
    }
    loss_sum / rows.len() as f32
}

fn reversed(v: Vec<i32>) -> Vec<i32> {
    v.into_iter().rev().collect()
}

#[test]
fn softmax_rows_sum_to_one() {
    let t = TensorCore::new(vec![1.0f32, 2.0, 3.0, 1.0, 1.0, 1.0], vec![2, 3]);
    let out = softmax(&t, -1, softmax_lane).unwrap();
    let row0: f32 = out.data()[0..3].iter().sum();
    let row1: f32 = out.data()[3..6].iter().sum();
    assert!((row0 - 1.0).abs() < 1e-5);
    assert!((row1 - 1.0).abs() < 1e-5);
}

#[test]
fn layer_norm_zero_mean() {
    let t = TensorCore::new(vec![1.0f32, 2.0, 3.0, 4.0], vec![2, 2]);
    let out = layer_norm(&t, vec![2], normalize_block).unwrap();
    let mean = out.data().iter().sum::<f32>() / 4.0;
    assert!(mean.abs() < 1e-4);
}

#[test]
fn gelu_at_zero() {
    let t = TensorCore::new(vec![0.0f32], vec![1]);
    let out = map_unary(&t, |x: f32| {
        let sqrt_2_pi = (2.0 / std::f32::consts::PI).sqrt();
        let inner = sqrt_2_pi * (x + 0.044715 * x.powi(3));
        x * 0.5 * (1.0 + inner.tanh())
    });
    assert!(out.data()[0].abs() < 1e-5);
}

#[test]
fn cross_entropy_known_value() {
    let logits = TensorCore::new(vec![0.0f32, 2.0], vec![1, 2]);
    let targets = TensorCore::new(vec![1i32], vec![1]);
    let loss = cross_entropy(&logits, &targets, None, mean_loss).unwrap();
    assert!(loss.data()[0] < 0.5);
}

#[test]
fn softmax_along_the_first_axis() {
    let t = TensorCore::new(vec![0.0f32, 0.0, 5.0, 5.0], vec![2, 2]);
    let out = softmax(&t, 0, softmax_lane).unwrap();
    let col0 = out.data()[0] + out.data()[2];
    assert!((col0 - 1.0).abs() < 1e-5);
    assert!(out.data()[2] > out.data()[0]);
}

#[test]
fn lanes_run_along_the_chosen_axis() {
    let t = TensorCore::new(vec![1, 2, 3, 4, 5, 6], vec![2, 3]);
    assert_eq!(map_lanes(&t, 0, reversed).data(), &[4, 5, 6, 1, 2, 3]);
    assert_eq!(map_lanes(&t, 1, reversed).data(), &[3, 2, 1, 6, 5, 4]);
    let c = TensorCore::new((0..8).collect::<Vec<i32>>(), vec![2, 2, 2]);
    assert_eq!(map_lanes(&c, 1, reversed).data(), &[2, 3, 0, 1, 6, 7, 4, 5]);
}

#[test]
fn softmax_axis_resolution_and_errors() {
    assert_eq!(softmax_axis(2, -1).unwrap(), 1);
    assert_eq!(softmax_axis(3, 0).unwrap(), 0);
    assert!(matches!(softmax_axis(2, 2), Err(TensorError::SoftmaxAxis { dim: 2, ndim: 2 })));
    assert!(matches!(softmax_axis(2, -3), Err(TensorError::SoftmaxAxis { dim: -3, ndim: 2 })));
    let s = TensorCore::scalar(1.0f32);
    assert!(matches!(softmax(&s, 0, softmax_lane), Err(TensorError::SoftmaxScalar)));
}

#[test]
fn layer_norm_blocks_and_remainder() {
    let t = TensorCore::new(vec![1, 2, 3, 4, 5, 6], vec![2, 3]);
    assert_eq!(layer_norm(&t, vec![3], reversed).unwrap().data(), &[3, 2, 1, 6, 5, 4]);
    assert_eq!(layer_norm(&t, vec![4], reversed).unwrap().data(), &[4, 3, 2, 1, 5, 6]);
    assert!(matches!(
        layer_norm(&t, vec![0], reversed),
        Err(TensorError::LayerNormShape { .. })
    ));
    assert!(matches!(
        layer_norm(&t, vec![1, 1, 1], reversed),
        Err(TensorError::LayerNormShape { .. })
    ));
}

#[test]
fn cross_entropy_hands_kept_rows_to_the_loss() {
    let logits = TensorCore::new(vec![1.0f32, 2.0, 3.0, 4.0, 5.0, 6.0], vec![3, 2]);
    let targets = TensorCore::vector(vec![1i32, -100, 0]);
    let out = cross_entropy(&logits, &targets, Some(-100), |rows: Vec<Vec<f32>>, cls: Vec<usize>| {
        (rows, cls)
    })
    .unwrap();
    assert_eq!(out.shape_vec(), Vec::<usize>::new());
    let (rows, cls) = &out.data()[0];
    assert_eq!(rows, &vec![vec![1.0f32, 2.0], vec![5.0, 6.0]]);
    assert_eq!(cls, &vec![1, 0]);
}

#[test]
fn cross_entropy_errors() {
    let flat = TensorCore::vector(vec![0.0f32, 1.0]);
    let one = TensorCore::vector(vec![0i32]);
    assert!(matches!(
        cross_entropy(&flat, &one, None, mean_loss),
        Err(TensorError::CrossEntropyRank { ndim: 1 })
    ));
    let logits = TensorCore::new(vec![0.0f32, 1.0], vec![1, 2]);
    let two = TensorCore::vector(vec![0i32, 1]);
    match cross_entropy(&logits, &two, None, mean_loss) {
        Err(TensorError::TargetCount { rows, shape }) => {
            assert_eq!(rows, 1);
            assert_eq!(shape, vec![2]);
        }
        _ => panic!("expected a target count error"),
    }
    let big = TensorCore::vector(vec![5i32]);
    assert!(matches!(
        cross_entropy(&logits, &big, None, mean_loss),
        Err(TensorError::TargetOutOfRange { target: 5, classes: 2 })
    ));
    let ignored = TensorCore::vector(vec![3i32]);
    assert!(matches!(
        cross_entropy(&logits, &ignored, Some(3), mean_loss),
        Err(TensorError::NoValidTargets)
    ));
}

#[test]
fn traversal_lists_reachable_nodes_root_last() {
    let parents = vec![vec![1, 2], vec![3], vec![3], vec![], vec![0]];
    let order = collect_nodes(&parents, 0);
    assert_eq!(order, vec![1, 3, 2, 0]);
    let leaf = collect_nodes(&parents, 3);
    assert_eq!(leaf, vec![3]);
}

#[test]
fn gradient_reduction_targets() {
    assert_eq!(
        sum_to_shape_map(&[3, 4], &[4]),
        vec![0, 1, 2, 3, 0, 1, 2, 3, 0, 1, 2, 3]
    );
    assert_eq!(
        sum_to_shape_map(&[3, 4], &[3, 1]),
        vec![0, 0, 0, 0, 1, 1, 1, 1, 2, 2, 2, 2]
    );
    assert_eq!(sum_to_shape_map(&[2, 3], &[2, 3]), vec![0, 1, 2, 3, 4, 5]);
    assert_eq!(sum_to_shape_map(&[2, 2], &[]), vec![0, 0, 0, 0]);
}

#[test]
fn gradient_pass_runs_nodes_that_received_gradients() {
    let emits = vec![vec![1, 2], vec![3], vec![3], vec![], vec![0]];
    let order = collect_nodes(&emits, 0);
    let has_fn = vec![true, true, true, false, true];
    let some = vec![false, false, true, true, true];
    assert_eq!(gradient_plan(&order, &emits, &has_fn, &some, 0), vec![0, 2]);
    let all = vec![true; 5];
    assert_eq!(gradient_plan(&order, &emits, &has_fn, &all, 0), vec![0, 2, 1]);
    let no_root_fn = vec![false, true, true, false, true];
    assert_eq!(gradient_plan(&order, &emits, &no_root_fn, &all, 0), Vec::<usize>::new());
}

#[test]
fn gradients_flow_back_to_the_elements_read() {
    let cases: Vec<(Vec<usize>, Vec<usize>)> = vec![
        (vec![3, 4], vec![4]),
        (vec![3, 4], vec![3, 1]),
        (vec![2, 3, 4], vec![3, 1]),
        (vec![2, 2], vec![]),
    ];
    for (out, s) in cases {
        assert_eq!(
            sum_to_shape_map(&out, &s),
            clem::broadcast::broadcast_source_map(&out, &s).unwrap()
        );
    }
}

#[test]
fn operations_record_gradients_when_any_tensor_requires_one() {
    assert!(records_gradient(true, &vec![false, false]));
    assert!(records_gradient(false, &vec![false, true]));
    assert!(!records_gradient(false, &vec![false, false]));
    assert!(!records_gradient(false, &vec![]));
    assert!(matmul_emits_gradients(2, 2));
    assert!(!matmul_emits_gradients(3, 3));
    assert!(!matmul_emits_gradients(2, 3));
}
