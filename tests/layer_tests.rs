use neuralnet::callbacks::{DebugCallback, Patience};
use neuralnet::data::{check_field_count, check_sample_counts, one_hot, DataError};
use neuralnet::layers::{
    add_bias, affine_forward, affine_gradients, relu_backward, ForwardCache, LayerError, ReLULayer,
};
use neuralnet::matrix::{Matrix, MatrixError};
use neuralnet::metrics::{count_matches, predicted_class, true_class};
use neuralnet::training::{should_record, shuffle_samples, Schedule, Step};

type Dtype = f32;

fn from_rows(rows: &[&[Dtype]]) -> Matrix<Dtype> {
    let mut m = Matrix::new(rows.len(), rows[0].len(), 0.0);
    for (r, row) in rows.iter().enumerate() {
        for (c, v) in row.iter().enumerate() {
            m.set(r, c, *v);
        }
    }
    m
}

#[test]
fn relu_gradient_is_masked_by_cached_input() {
    let input = from_rows(&[&[-1.0, 0.0, 2.0], &[3.5, -0.5, 1e-3]]);
    let grad = from_rows(&[&[10.0, 20.0, 30.0], &[40.0, 50.0, 60.0]]);
    let out = relu_backward(&grad, &input, |x| x > 0.0, 0.0).unwrap();
    assert_eq!(out.get(0, 0), 0.0);
    assert_eq!(out.get(0, 1), 0.0);
    assert_eq!(out.get(0, 2), 30.0);
    assert_eq!(out.get(1, 0), 40.0);
    assert_eq!(out.get(1, 1), 0.0);
    assert_eq!(out.get(1, 2), 60.0);
}

#[test]
fn relu_gradient_rejects_mismatched_shapes() {
    let input: Matrix<Dtype> = Matrix::new(2, 3, 1.0);
    let grad: Matrix<Dtype> = Matrix::new(3, 2, 1.0);
    assert_eq!(
        relu_backward(&grad, &input, |x| x > 0.0, 0.0).unwrap_err(),
        MatrixError::DimensionMismatch { left_rows: 3, left_cols: 2, right_rows: 2, right_cols: 3 }
    );
}

#[test]
fn bias_is_added_to_every_column() {
    let m = from_rows(&[&[1.0, 2.0, 3.0], &[4.0, 5.0, 6.0]]);
    let bias = from_rows(&[&[0.5], &[-1.0]]);
    let out = add_bias(&m, &bias, |x, y| x + y).unwrap();
    assert_eq!(out.data, vec![1.5, 3.0, 2.5, 4.0, 3.5, 5.0]);
    let wrong = from_rows(&[&[0.5, 1.0], &[-1.0, 1.0]]);
    assert_eq!(
        add_bias(&m, &wrong, |x, y| x + y).unwrap_err(),
        MatrixError::DimensionMismatch { left_rows: 2, left_cols: 3, right_rows: 2, right_cols: 2 }
    );
}

#[test]
fn cache_serves_one_backward_per_forward() {
    let mut cache: ForwardCache<Dtype> = ForwardCache::new();
    assert!(!cache.is_filled());
    assert_eq!(cache.take().unwrap_err(), LayerError::NoMatchingForward);
    cache.store(from_rows(&[&[1.0, 2.0]]));
    cache.store(from_rows(&[&[3.0, 4.0]]));
    assert!(cache.is_filled());
    let m = cache.take().unwrap();
    assert_eq!(m.data, vec![3.0, 4.0]);
    assert_eq!(cache.take().unwrap_err(), LayerError::NoMatchingForward);
}

#[test]
fn one_hot_targets() {
    let t: Matrix<Dtype> = one_hot(&vec![2, 0, 1, 2], 3, 0.0, 1.0).unwrap();
    assert_eq!((t.rows, t.cols), (3, 4));
    assert_eq!(t.data, vec![0.0, 0.0, 1.0, 1.0, 0.0, 0.0, 0.0, 1.0, 0.0, 0.0, 0.0, 1.0]);
    let bad = one_hot(&vec![0, 3, 7], 3, 0.0f32, 1.0);
    assert_eq!(bad.unwrap_err(), DataError::LabelOutOfRange { sample: 1, label: 3 });
}

#[test]
fn sample_counts_must_agree() {
    assert_eq!(check_sample_counts(5, 5), Ok(()));
    assert_eq!(
        check_sample_counts(5, 4),
        Err(DataError::SampleCountMismatch { inputs: 5, labels: 4 })
    );
}

#[test]
fn recording_cadence() {
    assert!(should_record(1));
    assert!(!should_record(2));
    assert!(!should_record(9));
    assert!(should_record(10));
    assert!(should_record(30));
    assert!(!should_record(31));
}

#[test]
fn matches_are_counted() {
    assert_eq!(count_matches(&vec![0, 1, 2, 1], &vec![0, 2, 2, 1]), 3);
    assert_eq!(count_matches(&vec![], &vec![]), 0);
}

#[test]
fn patience_stops_after_enough_reports_without_improvement() {
    let mut p = Patience::new(2);
    assert!(!p.observe(false));
    assert_eq!(p.wait, 1);
    assert!(!p.observe(true));
    assert_eq!(p.wait, 0);
    assert!(!p.observe(false));
    assert!(p.observe(false));
    assert_eq!(p.stopped_epoch, 1);
    p.reset();
    assert_eq!(p.wait, 0);
    assert_eq!(p.patience, 2);
}

#[test]
fn debug_callback_is_empty() {
    let _ = DebugCallback::new();
}

#[test]
fn samples_keep_their_labels_when_shuffled() {
    let n = 50;
    let mut x = Matrix::new(2, n, 0.0f32);
    let mut y = Matrix::new(1, n, 0.0f32);
    for c in 0..n {
        x.set(0, c, c as Dtype);
        x.set(1, c, -(c as Dtype));
        y.set(0, c, (c * 10) as Dtype);
    }
    shuffle_samples(&mut x, &mut y).unwrap();
    let mut seen = vec![false; n];
    for c in 0..n {
        let k = x.get(0, c);
        assert_eq!(x.get(1, c), -k);
        assert_eq!(y.get(0, c), k * 10.0);
        seen[k as usize] = true;
    }
    assert!(seen.iter().all(|&s| s));
}

#[test]
fn shuffling_samples_needs_equal_counts() {
    let mut x = Matrix::new(2, 3, 1.0f32);
    let mut y = Matrix::new(1, 4, 2.0f32);
    assert_eq!(
        shuffle_samples(&mut x, &mut y).unwrap_err(),
        MatrixError::DimensionMismatch { left_rows: 2, left_cols: 3, right_rows: 1, right_cols: 4 }
    );
    assert_eq!(x.data, vec![1.0; 6]);
    assert_eq!(y.data, vec![2.0; 4]);
}

#[test]
fn schedule_runs_every_epoch_in_order() {
    let mut s = Schedule::new(12);
    let mut seen = Vec::new();
    while let Step::Epoch { epoch, record } = s.next() {
        seen.push((epoch, record));
    }
    assert_eq!(seen.len(), 12);
    assert_eq!(seen[0], (1, true));
    assert_eq!(seen[1], (2, false));
    assert_eq!(seen[9], (10, true));
    assert_eq!(seen[11], (12, false));
    assert_eq!(s.next(), Step::Finish);
}

#[test]
fn schedule_stops_on_request() {
    let mut s = Schedule::new(5);
    assert_eq!(s.next(), Step::Epoch { epoch: 1, record: true });
    s.stop();
    assert_eq!(s.next(), Step::Finish);
    assert_eq!(s.done, 1);
    let mut none = Schedule::new(0);
    assert_eq!(none.next(), Step::Finish);
}

#[test]
fn predicted_class_is_first_largest() {
    let pred = from_rows(&[&[0.1, 0.7, 0.3], &[0.6, 0.1, 0.3], &[0.3, 0.2, 0.2]]);
    assert_eq!(predicted_class(&pred, 0, -1.0, |x, y| x > y), 1);
    assert_eq!(predicted_class(&pred, 1, -1.0, |x, y| x > y), 0);
    assert_eq!(predicted_class(&pred, 2, -1.0, |x, y| x > y), 0);
    assert_eq!(predicted_class(&pred, 1, 0.9, |x, y| x > y), 0);
    let ints = Matrix { rows: 4, cols: 1, data: vec![3i64, 9, 9, -2] };
    assert_eq!(predicted_class(&ints, 0, i64::MIN, |x, y| x > y), 1);
}

#[test]
fn true_class_is_first_hot_row() {
    let target = from_rows(&[&[0.0, 1.0, 0.0], &[1.0, 0.0, 0.0], &[0.0, 0.0, 0.0]]);
    assert_eq!(true_class(&target, 0, |x| x > 0.9), 1);
    assert_eq!(true_class(&target, 1, |x| x > 0.9), 0);
    assert_eq!(true_class(&target, 2, |x| x > 0.9), 0);
    let noisy = from_rows(&[&[0.05], &[0.95], &[0.97]]);
    assert_eq!(true_class(&noisy, 0, |x| x > 0.9), 1);
}

#[test]
fn affine_forward_adds_bias_to_product() {
    let w = from_rows(&[&[1.0, 2.0], &[0.0, -1.0], &[3.0, 1.0]]);
    let b = from_rows(&[&[0.5], &[1.0], &[-2.0]]);
    let x = from_rows(&[&[1.0, 0.0], &[2.0, 4.0]]);
    let out = affine_forward(&w, &b, &x, 0.0, |p, q| p * q, |p, q| p + q).unwrap();
    assert_eq!((out.rows, out.cols), (3, 2));
    assert_eq!(out.get(0, 0), 5.5);
    assert_eq!(out.get(1, 0), -1.0);
    assert_eq!(out.get(2, 0), 3.0);
    assert_eq!(out.get(0, 1), 8.5);
    assert_eq!(out.get(1, 1), -3.0);
    assert_eq!(out.get(2, 1), 2.0);
    let wrong_bias = from_rows(&[&[0.5], &[1.0]]);
    assert!(affine_forward(&w, &wrong_bias, &x, 0.0, |p, q| p * q, |p, q| p + q).is_err());
    let wrong_input = from_rows(&[&[1.0, 0.0]]);
    assert_eq!(
        affine_forward(&w, &b, &wrong_input, 0.0, |p, q| p * q, |p, q| p + q).unwrap_err(),
        MatrixError::DimensionMismatch { left_rows: 3, left_cols: 2, right_rows: 1, right_cols: 2 }
    );
}

#[test]
fn affine_gradients_known_values() {
    let w = from_rows(&[&[1.0, 2.0], &[3.0, 4.0]]);
    let x = from_rows(&[&[1.0, 3.0], &[2.0, 4.0]]);
    let g = from_rows(&[&[1.0, -1.0], &[0.5, 2.0]]);
    let (d_in, d_w, d_b) =
        affine_gradients(&w, &x, &g, 0.0, |p, q| p * q, |p, q| p + q, |v| v * 0.5).unwrap();
    // w^T g
    assert_eq!(d_in.data, vec![2.5, 4.0, 5.0, 6.0]);
    // (g x^T) / 2
    assert_eq!(d_w.data, vec![-1.0, 3.25, -1.0, 4.5]);
    // row sums of g, halved
    assert_eq!(d_b.data, vec![0.0, 1.25]);
    let wrong = from_rows(&[&[1.0, 2.0, 3.0]]);
    assert!(affine_gradients(&w, &x, &wrong, 0.0, |p, q| p * q, |p, q| p + q, |v| v).is_err());
}

#[test]
fn relu_layer_forward_then_backward() {
    let mut layer: ReLULayer<Dtype> = ReLULayer::new();
    let grad = from_rows(&[&[1.0, 2.0], &[3.0, 4.0]]);
    assert_eq!(
        layer.backward(&grad, |x| x > 0.0, 0.0).unwrap_err(),
        LayerError::NoMatchingForward
    );
    let input = from_rows(&[&[-2.0, 0.5], &[0.0, 7.0]]);
    let out = layer.forward(&input, |v| if v > 0.0 { v } else { 0.0 });
    assert_eq!(out.data, vec![0.0, 0.0, 0.5, 7.0]);
    let back = layer.backward(&grad, |x| x > 0.0, 0.0).unwrap();
    assert_eq!(back.data, vec![0.0, 0.0, 2.0, 4.0]);
    // The cached input serves one backward pass only.
    assert_eq!(
        layer.backward(&grad, |x| x > 0.0, 0.0).unwrap_err(),
        LayerError::NoMatchingForward
    );
    layer.forward(&input, |v| if v > 0.0 { v } else { 0.0 });
    let wrong = from_rows(&[&[1.0, 2.0, 3.0]]);
    assert_eq!(
        layer.backward(&wrong, |x| x > 0.0, 0.0).unwrap_err(),
        LayerError::Shape(MatrixError::DimensionMismatch {
            left_rows: 1,
            left_cols: 3,
            right_rows: 2,
            right_cols: 2
        })
    );
}

#[test]
fn records_must_have_the_expected_width() {
    assert_eq!(check_field_count(3, 4, 4), Ok(()));
    assert_eq!(
        check_field_count(3, 4, 5),
        Err(DataError::WrongFieldCount { sample: 3, expected: 4, found: 5 })
    );
}
