use neuralnet::matrix::{check_permutation, inverse_permutation, sum_cols, Matrix, MatrixError};

type Dtype = f32;

fn times(x: Dtype, y: Dtype) -> Dtype {
    x * y
}

fn plus(x: Dtype, y: Dtype) -> Dtype {
    x + y
}

fn minus(x: Dtype, y: Dtype) -> Dtype {
    x - y
}

fn product(a: &Matrix<Dtype>, b: &Matrix<Dtype>) -> Matrix<Dtype> {
    a.mul(b, 0.0, times, plus).unwrap()
}

fn from_rows(rows: &[&[Dtype]]) -> Matrix<Dtype> {
    let mut m = Matrix::new(rows.len(), rows[0].len(), 0.0);
    for (r, row) in rows.iter().enumerate() {
        for (c, v) in row.iter().enumerate() {
            m.set(r, c, *v);
        }
    }
    m
}

#[test]
fn test_new_and_get_set() {
    let mut m = Matrix::new(2, 3, 0.0);
    assert_eq!(m.rows, 2);
    assert_eq!(m.cols, 3);

    m.set(0, 0, 1.0);
    m.set(1, 2, 5.0);
    assert_eq!(m.get(0, 0), 1.0);
    assert_eq!(m.get(1, 2), 5.0);
}

#[test]
fn test_transpose() {
    let mut m = Matrix::new(2, 3, 0.0);
    m.set(0, 0, 1.0);
    m.set(1, 2, 5.0);

    let t = m.transpose();
    assert_eq!(t.rows, 3);
    assert_eq!(t.cols, 2);
    assert_eq!(t.get(0, 0), 1.0);
    assert_eq!(t.get(2, 1), 5.0);
}

#[test]
fn test_element_wise_mul() {
    let mut a = Matrix::new(2, 2, 0.0);
    let mut b = Matrix::new(2, 2, 0.0);
    a.set(0, 0, 2.0);
    a.set(1, 1, 3.0);
    b.set(0, 0, 4.0);
    b.set(1, 1, 5.0);

    let c = a.zip_with(&b, times).unwrap();
    assert_eq!(c.get(0, 0), 8.0);
    assert_eq!(c.get(1, 1), 15.0);
}

#[test]
fn test_matrix_ops() {
    let mut a = Matrix::new(2, 2, 0.0);
    let mut b = Matrix::new(2, 2, 0.0);
    a.set(0, 0, 1.0);
    a.set(0, 1, 2.0);
    a.set(1, 0, 3.0);
    a.set(1, 1, 4.0);

    b.set(0, 0, 2.0);
    b.set(0, 1, 0.0);
    b.set(1, 0, 1.0);
    b.set(1, 1, 2.0);

    let mul = product(&a, &b);
    assert_eq!(mul.get(0, 0), 4.0);
    assert_eq!(mul.get(0, 1), 4.0);
    assert_eq!(mul.get(1, 0), 10.0);
    assert_eq!(mul.get(1, 1), 8.0);

    let add = a.zip_with(&b, plus).unwrap();
    assert_eq!(add.get(0, 0), 3.0);
    assert_eq!(add.get(1, 1), 6.0);

    let sub = a.zip_with(&b, minus).unwrap();
    assert_eq!(sub.get(0, 0), -1.0);
    assert_eq!(sub.get(1, 1), 2.0);

    let scaled = a.map(|x| x * 2.0);
    assert_eq!(scaled.get(0, 0), 2.0);
    assert_eq!(scaled.get(1, 1), 8.0);
}

#[test]
fn test_shuffle_columns() {
    let mut m = Matrix::new(2, 3, 0.0);
    // Fill with distinct values so we can track columns
    m.set(0, 0, 1.0);
    m.set(1, 0, 2.0);
    m.set(0, 1, 3.0);
    m.set(1, 1, 4.0);
    m.set(0, 2, 5.0);
    m.set(1, 2, 6.0);

    let indices = vec![2, 0, 1]; // new positions
    m.shuffle_columns(&indices).unwrap();

    // After shuffling, check that columns moved correctly
    assert_eq!(m.get(0, 0), 5.0);
    assert_eq!(m.get(1, 0), 6.0);
    assert_eq!(m.get(0, 1), 1.0);
    assert_eq!(m.get(1, 1), 2.0);
    assert_eq!(m.get(0, 2), 3.0);
    assert_eq!(m.get(1, 2), 4.0);
}

#[test]
fn test_generate_shuffled_indices() {
    let m: Matrix<Dtype> = Matrix::new(1, 5, 0.0);
    let indices = m.generate_shuffled_indices();
    assert_eq!(indices.len(), 5);
    for &i in &indices {
        assert!(i < 5);
    }
    let mut sorted = indices.clone();
    sorted.sort();
    assert_eq!(sorted, vec![0, 1, 2, 3, 4]); // ensures it's a permutation
}

#[test]
fn test_split_into_batches() {
    let mut m = Matrix::new(2, 5, 0.0);
    for c in 0..5 {
        m.set(0, c, c as Dtype);
        m.set(1, c, c as Dtype + 10.0);
    }

    let batches = m.split_into_batches(2);
    assert_eq!(batches.len(), 3); // last batch smaller

    assert_eq!(batches[0].cols, 2);
    assert_eq!(batches[1].cols, 2);
    assert_eq!(batches[2].cols, 1);

    assert_eq!(batches[0].get(0, 1), 1.0);
    assert_eq!(batches[2].get(1, 0), 14.0);
}

#[test]
fn column_major_layout() {
    let m = from_rows(&[&[1.0, 2.0, 3.0], &[4.0, 5.0, 6.0]]);
    assert_eq!(m.data, vec![1.0, 4.0, 2.0, 5.0, 3.0, 6.0]);
}

#[test]
fn product_is_associative_within_tolerance() {
    let a = from_rows(&[&[0.5, -1.25, 2.0], &[3.0, 0.1, -0.7]]);
    let b = from_rows(&[&[1.5, 0.3], &[-2.0, 4.0], &[0.25, -0.6]]);
    let c = from_rows(&[&[0.9, -1.1, 2.2, 0.0], &[1.3, 0.4, -0.8, 5.0]]);
    let left = product(&product(&a, &b), &c);
    let right = product(&a, &product(&b, &c));
    assert_eq!((left.rows, left.cols), (2, 4));
    assert_eq!((right.rows, right.cols), (2, 4));
    for i in 0..left.data.len() {
        assert!((left.data[i] - right.data[i]).abs() < 1e-4);
    }
}

#[test]
fn product_of_known_values() {
    let a = from_rows(&[&[1.0, 2.0, 3.0]]);
    let b = from_rows(&[&[4.0], &[5.0], &[6.0]]);
    let p = product(&a, &b);
    assert_eq!((p.rows, p.cols), (1, 1));
    assert_eq!(p.get(0, 0), 32.0);
    let outer = product(&b, &a);
    assert_eq!((outer.rows, outer.cols), (3, 3));
    assert_eq!(outer.get(2, 1), 12.0);
}

#[test]
fn product_rejects_mismatched_shapes() {
    let a: Matrix<Dtype> = Matrix::new(2, 3, 1.0);
    let b: Matrix<Dtype> = Matrix::new(2, 3, 1.0);
    let r = a.mul(&b, 0.0, times, plus);
    assert_eq!(
        r.unwrap_err(),
        MatrixError::DimensionMismatch { left_rows: 2, left_cols: 3, right_rows: 2, right_cols: 3 }
    );
}

#[test]
fn transpose_twice_is_identity() {
    let m = from_rows(&[&[1.0, 2.0, 3.0], &[4.0, 5.0, 6.0]]);
    let tt = m.transpose().transpose();
    assert_eq!((tt.rows, tt.cols), (2, 3));
    assert_eq!(tt.data, m.data);
}

#[test]
fn transpose_of_empty_matrix() {
    let m: Matrix<Dtype> = Matrix::new(0, 4, 0.0);
    let t = m.transpose();
    assert_eq!((t.rows, t.cols), (4, 0));
    assert!(t.data.is_empty());
}

#[test]
fn addition_commutes_and_subtraction_antisymmetric() {
    let a = from_rows(&[&[1.5, -2.0], &[0.25, 8.0]]);
    let b = from_rows(&[&[3.0, 0.5], &[-1.0, 2.0]]);
    let ab = a.zip_with(&b, plus).unwrap();
    let ba = b.zip_with(&a, plus).unwrap();
    assert_eq!(ab.data, ba.data);
    let a_minus_b = a.zip_with(&b, minus).unwrap();
    let negated = b.zip_with(&a, minus).unwrap().map(|x| -x);
    assert_eq!(a_minus_b.data, negated.data);
}

#[test]
fn element_wise_mul_then_div_restores() {
    let a = from_rows(&[&[1.5, -2.0, 7.0], &[0.25, 8.0, -0.3]]);
    let b = from_rows(&[&[3.0, 0.5, -4.0], &[-1.0, 2.0, 0.1]]);
    let back = a.zip_with(&b, times).unwrap().zip_with(&b, |x, y| x / y).unwrap();
    for i in 0..a.data.len() {
        assert!((back.data[i] - a.data[i]).abs() < 1e-5);
    }
}

#[test]
fn zip_rejects_mismatched_shapes() {
    let a: Matrix<Dtype> = Matrix::new(2, 2, 1.0);
    let b: Matrix<Dtype> = Matrix::new(2, 3, 1.0);
    assert_eq!(
        a.zip_with(&b, plus).unwrap_err(),
        MatrixError::DimensionMismatch { left_rows: 2, left_cols: 2, right_rows: 2, right_cols: 3 }
    );
}

#[test]
fn sum_cols_adds_each_row() {
    let m = from_rows(&[&[1.0, 2.0, 3.0], &[4.0, 5.0, 6.0]]);
    let s = sum_cols(&m, 0.0, plus);
    assert_eq!((s.rows, s.cols), (2, 1));
    assert_eq!(s.get(0, 0), 6.0);
    assert_eq!(s.get(1, 0), 15.0);
}

#[test]
fn split_then_concatenate_reconstructs() {
    let mut m = Matrix::new(3, 7, 0.0);
    for c in 0..7 {
        for r in 0..3 {
            m.set(r, c, (r * 10 + c) as Dtype);
        }
    }
    let batches = m.split_into_batches(3);
    assert_eq!(batches.len(), 3);
    assert_eq!(batches[0].cols, 3);
    assert_eq!(batches[1].cols, 3);
    assert_eq!(batches[2].cols, 1);
    let joined: Vec<Dtype> = batches.iter().flat_map(|b| b.data.iter().copied()).collect();
    assert_eq!(joined, m.data);
}

#[test]
fn split_with_exact_multiple_and_oversized_batch() {
    let m: Matrix<Dtype> = Matrix::new(2, 6, 1.0);
    let even = m.split_into_batches(2);
    assert_eq!(even.len(), 3);
    assert!(even.iter().all(|b| b.cols == 2 && b.rows == 2));
    let whole = m.split_into_batches(10);
    assert_eq!(whole.len(), 1);
    assert_eq!(whole[0].cols, 6);
    let none: Matrix<Dtype> = Matrix::new(2, 0, 1.0);
    assert_eq!(none.split_into_batches(4).len(), 0);
}

#[test]
fn shuffle_with_identity_is_no_op() {
    let mut m = from_rows(&[&[1.0, 2.0, 3.0], &[4.0, 5.0, 6.0]]);
    let before = m.data.clone();
    m.shuffle_columns(&vec![0, 1, 2]).unwrap();
    assert_eq!(m.data, before);
}

#[test]
fn shuffle_then_inverse_restores() {
    let mut m = from_rows(&[&[1.0, 2.0, 3.0, 4.0], &[5.0, 6.0, 7.0, 8.0]]);
    let before = m.data.clone();
    let p = vec![2, 0, 3, 1];
    let mut q = vec![0; 4];
    for (j, &pj) in p.iter().enumerate() {
        q[pj] = j;
    }
    m.shuffle_columns(&p).unwrap();
    assert_ne!(m.data, before);
    m.shuffle_columns(&q).unwrap();
    assert_eq!(m.data, before);
}

#[test]
fn shuffle_rejects_bad_orders() {
    let mut m = from_rows(&[&[1.0, 2.0, 3.0]]);
    let before = m.data.clone();
    assert_eq!(
        m.shuffle_columns(&vec![0, 1]),
        Err(MatrixError::LengthMismatch { expected: 3, found: 2 })
    );
    assert_eq!(m.shuffle_columns(&vec![0, 0, 1]), Err(MatrixError::NotAPermutation));
    assert_eq!(m.shuffle_columns(&vec![0, 1, 3]), Err(MatrixError::NotAPermutation));
    assert_eq!(m.data, before);
}

#[test]
fn permutation_check() {
    assert!(check_permutation(&vec![1, 2, 0], 3));
    assert!(check_permutation(&vec![], 0));
    assert!(!check_permutation(&vec![1, 1, 0], 3));
    assert!(!check_permutation(&vec![0, 1], 3));
    assert!(!check_permutation(&vec![0, 5, 1], 3));
}

#[test]
fn shuffled_indices_reorder_large_range() {
    let m: Matrix<Dtype> = Matrix::new(1, 200, 0.0);
    let indices = m.generate_shuffled_indices();
    assert!(check_permutation(&indices, 200));
    let identity: Vec<usize> = (0..200).collect();
    assert_ne!(indices, identity);
}

#[test]
fn column_block_extraction() {
    let m = from_rows(&[&[1.0, 2.0, 3.0, 4.0], &[5.0, 6.0, 7.0, 8.0]]);
    let b = m.columns(1, 3);
    assert_eq!((b.rows, b.cols), (2, 2));
    assert_eq!(b.data, vec![2.0, 6.0, 3.0, 7.0]);
    let empty = m.columns(4, 4);
    assert_eq!((empty.rows, empty.cols), (2, 0));
    assert!(empty.data.is_empty());
}

#[test]
fn clone_matrix_copies_everything() {
    let m = from_rows(&[&[1.0, 2.0], &[3.0, 4.0]]);
    let c = m.clone_matrix();
    assert_eq!((c.rows, c.cols), (2, 2));
    assert_eq!(c.data, m.data);
}

#[test]
fn integer_product_is_exactly_associative() {
    let mut a = Matrix::new(2, 3, 0i64);
    let mut b = Matrix::new(3, 2, 0i64);
    let mut c = Matrix::new(2, 4, 0i64);
    for (i, v) in [3, -1, 4, 1, -5, 9].iter().enumerate() {
        a.data[i] = *v;
    }
    for (i, v) in [2, 6, -5, 3, 5, -8].iter().enumerate() {
        b.data[i] = *v;
    }
    for (i, v) in [9, 7, -9, 3, 2, 3, 8, -4].iter().enumerate() {
        c.data[i] = *v;
    }
    let times = |x: i64, y: i64| x * y;
    let plus = |x: i64, y: i64| x + y;
    let ab = a.mul(&b, 0, times, plus).unwrap();
    let bc = b.mul(&c, 0, times, plus).unwrap();
    let left = ab.mul(&c, 0, times, plus).unwrap();
    let right = a.mul(&bc, 0, times, plus).unwrap();
    assert_eq!((left.rows, left.cols), (2, 4));
    assert_eq!(left.data, right.data);
}

#[test]
fn inverse_permutation_undoes_a_random_shuffle() {
    let mut m = Matrix::new(3, 9, 0.0);
    for c in 0..9 {
        for r in 0..3 {
            m.set(r, c, (r * 100 + c) as Dtype);
        }
    }
    let before = m.data.clone();
    let p = m.generate_shuffled_indices();
    let q = inverse_permutation(&p);
    assert!(check_permutation(&q, 9));
    for j in 0..9 {
        assert_eq!(q[p[j]], j);
        assert_eq!(p[q[j]], j);
    }
    m.shuffle_columns(&p).unwrap();
    m.shuffle_columns(&q).unwrap();
    assert_eq!(m.data, before);
}

#[test]
fn inverse_of_known_order() {
    assert_eq!(inverse_permutation(&vec![2, 0, 3, 1]), vec![1, 3, 0, 2]);
    assert_eq!(inverse_permutation(&vec![]), Vec::<usize>::new());
}
