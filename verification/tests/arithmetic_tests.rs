use numerus::errors::MatrixError;
use numerus::math_utilities::Matrix;
use numerus::matrix_operations::{add_matrices, multiply_matrices, subtract_matrices};

#[test]
fn add_matrices_adds_elementwise() {
    let a: Matrix<i64> = Matrix::from_slice(2, 2, &[1, 2, 3, 4]);
    let b: Matrix<i64> = Matrix::from_slice(2, 2, &[10, 20, 30, 40]);
    let r = add_matrices(&a, &b).unwrap();
    assert_eq!(r.data(), &[11, 22, 33, 44]);
}

#[test]
fn subtract_matrices_subtracts_elementwise() {
    let a: Matrix<i64> = Matrix::from_slice(2, 2, &[10, 20, 30, 40]);
    let b: Matrix<i64> = Matrix::from_slice(2, 2, &[1, 2, 3, 4]);
    let r = subtract_matrices(&a, &b).unwrap();
    assert_eq!(r.data(), &[9, 18, 27, 36]);
}

#[test]
fn multiply_matrices_triple_loop() {
    let a: Matrix<i64> = Matrix::from_slice(2, 3, &[1, 2, 3, 4, 5, 6]);
    let b: Matrix<i64> = Matrix::from_slice(3, 2, &[7, 8, 9, 10, 11, 12]);
    let r = multiply_matrices(&a, &b).unwrap();
    assert_eq!(r.nrows(), 2);
    assert_eq!(r.ncols(), 2);
    assert_eq!(r.data(), &[58, 64, 139, 154]);
}

#[test]
fn add_then_subtract_recovers_left_operand() {
    let a: Matrix<i64> = Matrix::from_slice(2, 3, &[1, -2, 3, -4, 5, -6]);
    let b: Matrix<i64> = Matrix::from_slice(2, 3, &[9, 8, 7, 6, 5, 4]);
    let sum = add_matrices(&a, &b).unwrap();
    let back = subtract_matrices(&sum, &b).unwrap();
    assert_eq!(back.data(), a.data());
}

#[test]
fn multiply_by_identity_is_exact() {
    let a: Matrix<i64> = Matrix::from_slice(2, 3, &[1, -2, 3, -4, 5, -6]);
    let ident: Matrix<i64> = Matrix::identity(3);
    let r = multiply_matrices(&a, &ident).unwrap();
    assert_eq!(r.data(), a.data());
}

#[test]
fn mismatched_shapes_are_rejected_for_add() {
    let a: Matrix<i64> = Matrix::from_slice(2, 3, &[1, 2, 3, 4, 5, 6]);
    let b: Matrix<i64> = Matrix::from_slice(3, 2, &[1, 2, 3, 4, 5, 6]);
    assert_eq!(add_matrices(&a, &b).unwrap_err(), MatrixError::DimensionMismatch);
    assert_eq!(subtract_matrices(&a, &b).unwrap_err(), MatrixError::DimensionMismatch);
}

#[test]
fn mismatched_shapes_are_rejected_for_multiply() {
    let a: Matrix<i64> = Matrix::from_slice(2, 3, &[1, 2, 3, 4, 5, 6]);
    let b: Matrix<i64> = Matrix::from_slice(2, 3, &[1, 2, 3, 4, 5, 6]);
    assert_eq!(multiply_matrices(&a, &b).unwrap_err(), MatrixError::DimensionMismatch);
}

#[test]
fn empty_matrices_add_to_empty() {
    let a: Matrix<i64> = Matrix::new(0, 0);
    let b: Matrix<i64> = Matrix::new(0, 0);
    let r = add_matrices(&a, &b).unwrap();
    assert_eq!(r.nrows(), 0);
    assert_eq!(r.ncols(), 0);
}
