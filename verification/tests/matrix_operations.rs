use neural_network::{Graph, Matrix, MatrixError, Scalar};

fn from_ints(vals: &[i64], shape: (usize, usize), with_grad: bool, g: &mut Graph) -> Matrix {
    let data: Vec<Scalar> = vals.iter().map(|v| Scalar::from_int(*v)).collect();
    Matrix::from_vec(data, shape, with_grad, g).unwrap()
}

fn ints(vals: &[i64]) -> Vec<Scalar> {
    vals.iter().map(|v| Scalar::from_int(*v)).collect()
}

#[test]
fn matrix_multiplication() {
    let mut g = Graph::new();

    let a = from_ints(&[1, 2], (1, 2), false, &mut g);
    let b = from_ints(&[2, 3], (2, 1), false, &mut g);
    let c = a.matmul(&b, &mut g).unwrap();
    assert_eq!(c.shape(&g), (1, 1));
    assert_eq!(c.data(&g), &ints(&[8]));

    let a = from_ints(&[1, 2, 3, 4], (2, 2), false, &mut g);
    let b = from_ints(&[2, 3], (2, 1), false, &mut g);
    let c = a.matmul(&b, &mut g).unwrap();
    assert_eq!(c.shape(&g), (2, 1));
    assert_eq!(c.data(&g), &ints(&[8, 18]));

    let a = from_ints(&[1, 2], (1, 2), false, &mut g);
    let b = from_ints(&[2, 3, 4, 5], (2, 2), false, &mut g);
    let c = a.matmul(&b, &mut g).unwrap();
    assert_eq!(c.shape(&g), (1, 2));
    assert_eq!(c.data(&g), &ints(&[10, 13]));

    let a = from_ints(&[1, 2, 0, 1], (2, 2), false, &mut g);
    let b = from_ints(&[2, 5, 1, 6, 7, 1], (2, 3), false, &mut g);
    let c = a.matmul(&b, &mut g).unwrap();
    assert_eq!(c.shape(&g), (2, 3));
    assert_eq!(c.data(&g), &ints(&[14, 19, 3, 6, 7, 1]));

    let a = from_ints(&[1, 2], (1, 2), false, &mut g);
    let b = from_ints(&[2, 3], (2, 1), false, &mut g);
    let c = a.matmul(&b, &mut g).unwrap().matmul(&a, &mut g).unwrap();
    assert_eq!(c.shape(&g), (1, 2));
    assert_eq!(c.data(&g), &ints(&[8, 16]));

    let a = Matrix::randn(Scalar::zero(), Scalar::one(), (2, 3), false, &mut g).unwrap();
    let b = Matrix::randn(Scalar::zero(), Scalar::one(), (2, 3), false, &mut g).unwrap();
    let res = a.matmul(&b, &mut g);
    assert!(res.is_err());
    assert!(matches!(
        res,
        Err(MatrixError::ShapeMismatchError { a_shape: (2, 3), b_shape: (2, 3), .. })
    ));
}

#[test]
fn matrix_element_wise_addition() {
    let mut g = Graph::new();

    let a = from_ints(&[1, 2, -2, 1], (2, 2), false, &mut g);
    let b = from_ints(&[2, -5, 1, 6], (2, 2), false, &mut g);
    let c = a.add(&b, &mut g).unwrap();
    assert_eq!(c.shape(&g), (2, 2));
    assert_eq!(c.data(&g), &ints(&[3, -3, -1, 7]));

    let b = Matrix::randn(Scalar::zero(), Scalar::one(), (4, 4), false, &mut g).unwrap();
    let res = a.add(&b, &mut g);
    assert!(res.is_err());
}

#[test]
fn matrix_element_wise_multiplication() {
    let mut g = Graph::new();

    let a = from_ints(&[1, 2, -2, 1], (2, 2), false, &mut g);
    let b = from_ints(&[2, -5, 1, 6], (2, 2), false, &mut g);
    let c = a.mul(&b, &mut g).unwrap();
    assert_eq!(c.shape(&g), (2, 2));
    assert_eq!(c.data(&g), &ints(&[2, -10, -2, 6]));

    let b = Matrix::randn(Scalar::zero(), Scalar::one(), (4, 4), false, &mut g).unwrap();
    let res = a.mul(&b, &mut g);
    assert!(res.is_err());
}

#[test]
fn matrix_transpose() {
    let mut g = Graph::new();
    let a = from_ints(&[1, 2, -2, 1, 4, 6], (2, 3), false, &mut g);
    let c = a.t(&mut g).t(&mut g);
    assert_eq!(c.data(&g), a.data(&g));
}

#[test]
fn transpose_layout_is_row_major() {
    let mut g = Graph::new();
    let a = from_ints(&[1, 2, 3, 4, 5, 6], (2, 3), false, &mut g);
    let t = a.t(&mut g);
    assert_eq!(t.shape(&g), (3, 2));
    assert_eq!(t.data(&g), &ints(&[1, 4, 2, 5, 3, 6]));
}

#[test]
fn shape_invariant_holds_after_construction() {
    let mut g = Graph::new();
    let a = Matrix::zeros((3, 4), false, &mut g);
    assert_eq!(a.data(&g).len(), 3 * 4);
    let b = Matrix::ones((4, 2), true, &mut g);
    assert_eq!(b.data(&g).len(), 4 * 2);
    let c = a.matmul(&b, &mut g).unwrap();
    assert_eq!(c.data(&g).len(), 3 * 2);
    let t = c.t(&mut g);
    assert_eq!(t.data(&g).len(), 2 * 3);
    let r = Matrix::randn(Scalar::zero(), Scalar::one(), (2, 5), false, &mut g).unwrap();
    assert_eq!(r.data(&g).len(), 2 * 5);
}

#[test]
fn broadcast_row_replicates() {
    let mut g = Graph::new();
    let row = from_ints(&[1, 2], (1, 2), false, &mut g);
    let big = from_ints(&[10, 20, 30, 40, 50, 60], (3, 2), false, &mut g);
    let c = row.add(&big, &mut g).unwrap();
    assert_eq!(c.shape(&g), (3, 2));
    assert_eq!(c.data(&g), &ints(&[11, 22, 31, 42, 51, 62]));

    let col = from_ints(&[1, 2, 3], (3, 1), false, &mut g);
    let c2 = big.add(&col, &mut g).unwrap();
    assert_eq!(c2.data(&g), &ints(&[11, 21, 32, 42, 53, 63]));

    let cell = from_ints(&[7], (1, 1), false, &mut g);
    let c3 = big.add(&cell, &mut g).unwrap();
    assert_eq!(c3.data(&g), &ints(&[17, 27, 37, 47, 57, 67]));
}

#[test]
fn broadcast_incompatible_is_an_error() {
    let mut g = Graph::new();
    let a = from_ints(&[1, 2, 3, 4, 5, 6], (2, 3), false, &mut g);
    let b = from_ints(&[1, 2], (1, 2), false, &mut g);
    let res = a.add(&b, &mut g);
    assert!(matches!(res, Err(MatrixError::ShapeMismatchError { .. })));

    let res2 = b.broadcast_as((3, 5), &mut g);
    assert!(matches!(
        res2,
        Err(MatrixError::BroadCastError { got_shape: (1, 2), expected_shape: (3, 5) })
    ));
}

#[test]
fn broadcast_resolver_matches_rules() {
    assert_eq!(Matrix::broadcast_shape((1, 2), (3, 2)), (3, 2));
    assert_eq!(Matrix::broadcast_shape((3, 1), (3, 4)), (3, 4));
    assert_eq!(Matrix::broadcast_shape((1, 1), (5, 6)), (5, 6));
    assert_eq!(Matrix::broadcast_shape((2, 3), (2, 3)), (2, 3));
    assert_eq!(Matrix::broadcast_shape((2, 3), (4, 5)), (0, 0));
}

#[test]
fn division_by_zero_is_reported() {
    let mut g = Graph::new();
    let a = from_ints(&[1, 2], (1, 2), false, &mut g);
    let b = from_ints(&[2, 0], (1, 2), false, &mut g);
    let res = a.div(&b, &mut g);
    assert!(matches!(res, Err(MatrixError::DivisionByZeroError)));
}

#[test]
fn overflow_is_reported() {
    let mut g = Graph::new();
    let big = Matrix::from_vec(vec![Scalar::new(i64::MAX, 1)], (1, 1), false, &mut g).unwrap();
    let res = big.mul_scalar(Scalar::from_int(2), &mut g);
    assert!(matches!(res, Err(MatrixError::OverflowError)));
}

#[test]
fn from_vec_rejects_wrong_length() {
    let mut g = Graph::new();
    let res = Matrix::from_vec(ints(&[1, 2, 3]), (2, 2), false, &mut g);
    assert!(matches!(res, Err(MatrixError::ShapeMismatchError { .. })));
}

#[test]
fn scalar_ops_and_sum() {
    let mut g = Graph::new();
    let a = from_ints(&[1, 2, 3, 4, 5, 6], (2, 3), false, &mut g);

    let m = a.mul_scalar(Scalar::from_int(3), &mut g).unwrap();
    assert_eq!(m.data(&g), &ints(&[3, 6, 9, 12, 15, 18]));

    let p = a.powf(2, &mut g).unwrap();
    assert_eq!(p.data(&g), &ints(&[1, 4, 9, 16, 25, 36]));

    let s0 = a.sum(0, &mut g).unwrap();
    assert_eq!(s0.shape(&g), (2, 1));
    assert_eq!(s0.data(&g), &ints(&[6, 15]));

    let s1 = a.sum(1, &mut g).unwrap();
    assert_eq!(s1.shape(&g), (1, 3));
    assert_eq!(s1.data(&g), &ints(&[5, 7, 9]));

    let s9 = a.sum(9, &mut g).unwrap();
    assert_eq!(s9.shape(&g), (2, 3));
    assert_eq!(s9.data(&g), a.data(&g));
}

#[test]
fn sigmoid_is_half_at_zero_and_bounded() {
    let mut g = Graph::new();
    let a = from_ints(&[0, 1, -1, 8], (1, 4), false, &mut g);
    let s = a.sigmoid(&mut g).unwrap();
    let d = s.data(&g);
    assert_eq!(d[0], Scalar::new(1, 2));
    // s(x) = 1/2 + x / (2 * (1 + |x|))
    assert_eq!(d[1], Scalar::new(3, 4));
    assert_eq!(d[2], Scalar::new(1, 4));
    assert_eq!(d[3], Scalar::new(17, 18));
    for v in d.iter() {
        assert!(v.num > 0 && v.num < v.den);
    }
}

#[test]
fn random_values_stay_in_range() {
    let mut g = Graph::new();
    let r = Matrix::randn(Scalar::zero(), Scalar::one(), (4, 4), false, &mut g).unwrap();
    for v in r.data(&g).iter() {
        // in [0, 1): numerator non-negative and strictly below the denominator
        assert!(v.num >= 0 && v.num < v.den);
    }
}

#[test]
fn no_history_keeps_data_and_drops_provenance() {
    let mut g = Graph::new();
    let a = from_ints(&[1, 2], (1, 2), true, &mut g);
    let b = from_ints(&[3, 4], (1, 2), true, &mut g);
    let c = a.add(&b, &mut g).unwrap();
    assert!(c.op(&g).is_some());
    let d = c.no_history(&mut g);
    assert!(d.op(&g).is_none());
    assert_eq!(d.data(&g), c.data(&g));
    assert_eq!(d.shape(&g), c.shape(&g));
    assert_eq!(d.requires_grad(&g), c.requires_grad(&g));
}

#[test]
fn rows_and_columns_build_leaves() {
    let mut g = Graph::new();
    let rows: Vec<Vec<Scalar>> = vec![ints(&[1, 2]), ints(&[3, 4]), ints(&[5, 6])];
    let m = Matrix::from_rows(&rows, &mut g);
    assert_eq!(m.shape(&g), (3, 2));
    assert_eq!(m.data(&g), &ints(&[1, 2, 3, 4, 5, 6]));
    assert!(m.op(&g).is_none());
    assert!(!m.requires_grad(&g));

    // ragged input collapses to the empty sentinel
    let ragged: Vec<Vec<Scalar>> = vec![ints(&[1, 2]), ints(&[3])];
    let s = Matrix::from_rows(&ragged, &mut g);
    assert_eq!(s.shape(&g), (0, 0));
    assert_eq!(s.data(&g).len(), 0);

    let col = Matrix::from_column(&ints(&[7, 8, 9]), &mut g);
    assert_eq!(col.shape(&g), (3, 1));
    assert_eq!(col.data(&g), &ints(&[7, 8, 9]));
    assert!(col.op(&g).is_none());
}
