use perceptron::Matrix;
use perceptron::NetError;

#[test]
fn three_by_one() {
    let a = Matrix::repeat(3, 3, 2);
    let b = Matrix::new(3, 1, vec![1, 2, 3]).unwrap();

    let res = &a.dot(&b).unwrap();

    assert_eq!(res.rows(), a.rows());
    assert_eq!(res.cols(), b.cols());
    assert_eq!(res.data, vec![12, 12, 12]);
}

#[test]
fn three_by_three() {
    let a = Matrix::repeat(3, 3, 2);
    let b = Matrix::repeat(3, 3, 2);

    let res = &a.dot(&b).unwrap();

    assert_eq!(res.rows(), a.rows());
    assert_eq!(res.cols(), b.cols());
    assert_eq!(res.data, vec![12; 9]);
}

#[test]
fn four_by_four() {
    let a = Matrix::repeat(4, 4, 2);
    let b = Matrix::repeat(4, 4, 2);

    let res = &a.dot(&b).unwrap();

    assert_eq!(res.rows(), a.rows());
    assert_eq!(res.cols(), b.cols());
    assert_eq!(res.data, vec![16; 16]);
}

#[test]
fn one_twentyone_by_one_twentyone() {
    let a = Matrix::repeat(121, 121, 2);
    let b = Matrix::repeat(121, 121, 2);

    let res = &a.dot(&b).unwrap();

    assert_eq!(res.rows(), a.rows());
    assert_eq!(res.cols(), b.cols());
    assert_eq!(res.data, vec![484; 14641]);
}

#[test]
fn mul_rectangular_matrices() {
    let a = Matrix::new(2, 3, vec![1, 2, 3, 4, 5, 6]).unwrap();
    let b = Matrix::new(3, 2, vec![7, 8, 9, 10, 11, 12]).unwrap();

    let res = &a.dot(&b).unwrap();

    let expected_data = vec![58, 64, 139, 154];

    assert_eq!(res.rows(), 2);
    assert_eq!(res.cols(), 2);
    assert_eq!(res.data, expected_data);
}

#[test]
fn mul_identity_matrices() {
    let a = Matrix::new(2, 3, vec![1, 2, 3, 4, 5, 6]).unwrap();
    let i_3x3 = Matrix::new(3, 3, vec![1, 0, 0, 0, 1, 0, 0, 0, 1]).unwrap();
    let i_2x2 = Matrix::new(2, 2, vec![1, 0, 0, 1]).unwrap();

    let res_a = &a.dot(&i_3x3).unwrap();
    assert_eq!(res_a.rows(), a.rows());
    assert_eq!(res_a.cols(), a.cols());
    assert_eq!(res_a.data, a.data);

    let res_b = &i_2x2.dot(&a).unwrap();
    assert_eq!(res_b.rows(), a.rows());
    assert_eq!(res_b.cols(), a.cols());
    assert_eq!(res_b.data, a.data);
}

#[test]
fn mul_with_zeros_and_negatives() {
    let a = Matrix::new(2, 2, vec![-1, 0, 2, 3]).unwrap();
    let b = Matrix::new(2, 2, vec![5, -2, 0, 4]).unwrap();

    let res = &a.dot(&b).unwrap();

    let expected_data = vec![-5, 2, 10, 8];

    assert_eq!(res.rows(), 2);
    assert_eq!(res.cols(), 2);
    assert_eq!(res.data, expected_data);
}

#[test]
fn mul_row_vec_by_col_vec_dot_product() {
    let a = Matrix::new(1, 3, vec![1, 2, 3]).unwrap();
    let b = Matrix::new(3, 1, vec![4, 5, 6]).unwrap();

    let res = &a.dot(&b).unwrap();

    let expected_data = vec![32];

    assert_eq!(res.rows(), 1);
    assert_eq!(res.cols(), 1);
    assert_eq!(res.data, expected_data);
}

#[test]
fn mul_col_vec_by_row_vec_outer_product() {
    let a = Matrix::new(3, 1, vec![1, 2, 3]).unwrap();
    let b = Matrix::new(1, 3, vec![4, 5, 6]).unwrap();

    let res = &a.dot(&b).unwrap();

    let expected_data = vec![4, 5, 6, 8, 10, 12, 12, 15, 18];

    assert_eq!(res.rows(), 3);
    assert_eq!(res.cols(), 3);
    assert_eq!(res.data, expected_data);
}

#[test]
#[should_panic]
fn mul_mismatched_dimensions_should_panic() {
    let a = Matrix::repeat(2, 3, 1);
    let b = Matrix::repeat(2, 2, 1);

    let _res = &a.dot(&b).unwrap();
}

#[test]
fn transpose_rectangular_matrix() {
    let mut a = Matrix::new(2, 3, vec![1, 2, 3, 4, 5, 6]).unwrap();

    a.transpose();

    assert_eq!(a.rows(), 3);
    assert_eq!(a.cols(), 2);
    assert_eq!(a.data, vec![1, 2, 3, 4, 5, 6]);
}

#[test]
fn transpose_col_vector_to_row_vector() {
    let mut a = Matrix::new(3, 1, vec![1, 2, 3]).unwrap();

    a.transpose();

    let expected_data = vec![1, 2, 3];

    assert_eq!(a.rows(), 1);
    assert_eq!(a.cols(), 3);
    assert_eq!(a.data, expected_data);
}

#[test]
fn transpose_row_vector_to_col_vector() {
    let mut a = Matrix::new(1, 3, vec![1, 2, 3]).unwrap();

    a.transpose();

    let expected_data = vec![1, 2, 3];

    assert_eq!(a.rows(), 3);
    assert_eq!(a.cols(), 1);
    assert_eq!(a.data, expected_data);
}

// A transposed non-square operand must be read with its strides derived
// from the physical layout: the transpose of a 2x3 matrix times the matrix
// itself is the exact 3x3 Gram matrix.
#[test]
fn transpose_non_square_dot() {
    let a = Matrix::new(2, 3, vec![1, 2, 3, 4, 5, 6]).unwrap();
    let mut at = Matrix::new(2, 3, vec![1, 2, 3, 4, 5, 6]).unwrap();
    at.transpose();

    let res = at.dot(&a).unwrap();

    assert_eq!(res.rows(), 3);
    assert_eq!(res.cols(), 3);
    assert_eq!(res.data, vec![17, 22, 27, 22, 29, 36, 27, 36, 45]);
}

#[test]
fn test_scalar_positive() {
    let m = Matrix::new(2, 2, vec![1, 2, 3, 4]).unwrap();
    let b = Matrix::new(1, 1, vec![2]).unwrap();
    let res = m.mul(&b).unwrap();
    assert_eq!(res.data, vec![2, 4, 6, 8]);
}

#[test]
fn test_scalar_zero() {
    let m = Matrix::new(2, 2, vec![1, 2, 3, 4]).unwrap();
    let b = Matrix::new(1, 1, vec![0]).unwrap();
    let res = m.mul(&b).unwrap();
    assert_eq!(res.data, vec![0, 0, 0, 0]);
}

#[test]
fn test_scalar_one() {
    let m = Matrix::new(2, 2, vec![1, 2, 3, 4]).unwrap();
    let b = Matrix::new(1, 1, vec![1]).unwrap();
    let res = m.mul(&b).unwrap();
    assert_eq!(res.data, vec![1, 2, 3, 4]);
}

#[test]
fn test_scalar_empty_matrix() {
    let m = Matrix::new(0, 3, vec![]).unwrap();
    let b = Matrix::new(1, 1, vec![10]).unwrap();
    let res = m.mul(&b).unwrap();
    let expected: Vec<i64> = vec![];
    assert_eq!(res.data, expected);
}

#[test]
fn test_broadcast_as_scalar() {
    let m = Matrix::new(2, 2, vec![1, 2, 3, 4]).unwrap();
    let b = Matrix::new(1, 1, vec![3]).unwrap();
    let res = m.mul(&b).unwrap();
    assert_eq!(res.data, vec![3, 6, 9, 12]);
}

#[test]
#[should_panic]
fn test_broadcast_err_col_mismatch() {
    let m = Matrix::new(2, 3, vec![1; 6]).unwrap();
    let b = Matrix::new(1, 2, vec![1; 2]).unwrap();
    let _ = m.mul(&b).unwrap();
}

#[test]
fn test_broadcast_row_broadcast() {
    let m = Matrix::new(3, 2, vec![1, 2, 3, 4, 5, 6]).unwrap();
    let b = Matrix::new(1, 2, vec![2, 3]).unwrap();

    let res = m.mul(&b).unwrap();

    assert_eq!(res.data, [2, 6, 6, 12, 10, 18]);
}

#[test]
fn test_broadcast_element_wise() {
    let m = Matrix::new(3, 2, vec![1, 2, 3, 4, 5, 6]).unwrap();
    let b = Matrix::new(3, 2, vec![1; 6]).unwrap();

    let res = m.mul(&b).unwrap();

    assert_eq!(res.data, [1, 2, 3, 4, 5, 6]);
}

#[test]
fn test_broadcast_double_multiply() {
    let m = Matrix::new(1, 3, vec![1, 2, 3]).unwrap();
    let b = Matrix::new(1, 3, vec![2, 3, 4]).unwrap();

    let res = m.mul(&b).unwrap();

    assert_eq!(res.data, [2, 6, 12]);
}

#[test]
fn test_broadcast_as_scalar_add() {
    let m = Matrix::new(2, 2, vec![1, 2, 3, 4]).unwrap();
    let b = Matrix::new(1, 1, vec![3]).unwrap();
    let res = m.add(&b).unwrap();

    assert_eq!(res.data, vec![4, 5, 6, 7]);
}

#[test]
#[should_panic]
fn test_broadcast_err_col_mismatch_add() {
    let m = Matrix::new(2, 3, vec![1; 6]).unwrap();
    let b = Matrix::new(1, 2, vec![1; 2]).unwrap();
    let _ = m.add(&b).unwrap();
}

#[test]
fn test_broadcast_row_broadcast_add() {
    let m = Matrix::new(3, 2, vec![1, 2, 3, 4, 5, 6]).unwrap();
    let b = Matrix::new(1, 2, vec![2, 3]).unwrap();

    let res = m.add(&b).unwrap();

    assert_eq!(res.data, [3, 5, 5, 7, 7, 9]);
}

#[test]
fn test_broadcast_element_wise_add() {
    let m = Matrix::new(3, 2, vec![1, 2, 3, 4, 5, 6]).unwrap();
    let b = Matrix::new(3, 2, vec![1; 6]).unwrap();

    let res = m.add(&b).unwrap();

    assert_eq!(res.data, [2, 3, 4, 5, 6, 7]);
}

#[test]
fn test_broadcast_double_add() {
    let m = Matrix::new(1, 3, vec![1, 2, 3]).unwrap();
    let b = Matrix::new(1, 3, vec![2, 3, 4]).unwrap();

    let res = m.add(&b).unwrap();

    assert_eq!(res.data, [3, 5, 7]);
}

#[test]
fn sub_element_wise() {
    let m = Matrix::new(2, 2, vec![5, 6, 7, 8]).unwrap();
    let b = Matrix::new(2, 2, vec![1, 2, 3, 4]).unwrap();

    let res = m.sub(&b).unwrap();

    assert_eq!(res.data, [4, 4, 4, 4]);
}

#[test]
fn new_rejects_wrong_buffer_length() {
    let r = Matrix::new(2, 2, vec![1, 2, 3]);
    assert_eq!(r.unwrap_err(), NetError::DimensionMismatch);
}

#[test]
fn eye_builds_identity() {
    let m = Matrix::eye(3);
    assert_eq!(m.rows(), 3);
    assert_eq!(m.cols(), 3);
    assert_eq!(m.data, vec![1, 0, 0, 0, 1, 0, 0, 0, 1]);
}

#[test]
fn uniform_entries_in_unit_range() {
    let m = Matrix::uniform(5, 7);
    assert_eq!(m.rows(), 5);
    assert_eq!(m.cols(), 7);
    assert_eq!(m.data.len(), 35);
    assert!(m.data.iter().all(|&x| -1 <= x && x <= 1));
}

#[test]
fn dot_overflow_is_reported() {
    let a = Matrix::new(1, 1, vec![i64::MAX]).unwrap();
    let b = Matrix::new(1, 1, vec![2]).unwrap();
    assert_eq!(a.dot(&b).unwrap_err(), NetError::Overflow);
}

#[test]
fn mul_overflow_is_reported() {
    let a = Matrix::new(1, 2, vec![i64::MAX, 1]).unwrap();
    let b = Matrix::new(1, 2, vec![2, 2]).unwrap();
    assert_eq!(a.mul(&b).unwrap_err(), NetError::Overflow);
}

#[test]
fn add_overflow_is_reported() {
    let a = Matrix::new(1, 1, vec![i64::MAX]).unwrap();
    let b = Matrix::new(1, 1, vec![1]).unwrap();
    assert_eq!(a.add(&b).unwrap_err(), NetError::Overflow);
}

// Associativity on a concrete triple of rectangular matrices.
#[test]
fn dot_is_associative() {
    let a = Matrix::new(2, 3, vec![1, -2, 3, 0, 4, -1]).unwrap();
    let b = Matrix::new(3, 2, vec![2, 1, 0, -3, 5, 2]).unwrap();
    let c = Matrix::new(2, 2, vec![1, 2, 3, -1]).unwrap();

    let left = a.dot(&b).unwrap().dot(&c).unwrap();
    let right = a.dot(&b.dot(&c).unwrap()).unwrap();

    assert_eq!(left.rows(), right.rows());
    assert_eq!(left.cols(), right.cols());
    assert_eq!(left.data, right.data);
}

#[test]
fn powi_squares_entries() {
    let m = Matrix::new(2, 2, vec![1, -2, 3, 0]).unwrap();
    let r = m.powi(2).unwrap();
    assert_eq!(r.data, vec![1, 4, 9, 0]);
}

#[test]
fn powi_zero_exponent_gives_ones() {
    let m = Matrix::new(1, 3, vec![5, -7, 0]).unwrap();
    let r = m.powi(0).unwrap();
    assert_eq!(r.data, vec![1, 1, 1]);
}

#[test]
fn powi_reciprocal_truncates() {
    let m = Matrix::new(1, 3, vec![1, -1, 2]).unwrap();
    let r = m.powi(-1).unwrap();
    assert_eq!(r.data, vec![1, -1, 0]);
}

#[test]
fn powi_reciprocal_of_zero_fails() {
    let m = Matrix::new(1, 1, vec![0]).unwrap();
    assert_eq!(m.powi(-1).unwrap_err(), NetError::Overflow);
}

#[test]
fn powi_overflow_is_reported() {
    let m = Matrix::new(1, 1, vec![1 << 40]).unwrap();
    assert_eq!(m.powi(2).unwrap_err(), NetError::Overflow);
}
