use numerus::errors::MatrixError;
use numerus::math_utilities::{max, min, sign, sqr, swap, Matrix, Vector};

#[test]
fn vector_new_is_zero_filled() {
    let v: Vector<i64> = Vector::new(3);
    assert_eq!(v.size(), 3);
    assert_eq!(v.data(), &[0, 0, 0]);
}

#[test]
fn vector_with_value_fills() {
    let v: Vector<i64> = Vector::with_value(4, 7);
    assert_eq!(v.data(), &[7, 7, 7, 7]);
}

#[test]
fn vector_from_slice_copies() {
    let v: Vector<i64> = Vector::from_slice(&[1, 2, 3]);
    assert_eq!(v.size(), 3);
    assert_eq!(v.data(), &[1, 2, 3]);
}

#[test]
fn vector_resize_reallocates_zero_filled() {
    let mut v: Vector<i64> = Vector::from_slice(&[5, 6]);
    v.resize(4);
    assert_eq!(v.data(), &[0, 0, 0, 0]);
    v.resize(1);
    assert_eq!(v.data(), &[0]);
}

#[test]
fn vector_assign_overwrites() {
    let mut v: Vector<i64> = Vector::from_slice(&[5, 6]);
    v.assign(3, 9);
    assert_eq!(v.data(), &[9, 9, 9]);
}

#[test]
fn vector_get_and_put_bounds_check() {
    let mut v: Vector<i64> = Vector::from_slice(&[1, 2]);
    assert_eq!(v.get(1), Ok(2));
    assert_eq!(v.get(2), Err(MatrixError::IndexOutOfRange));
    assert_eq!(v.put(0, 10), Ok(()));
    assert_eq!(v.get(0), Ok(10));
    assert_eq!(v.put(5, 10), Err(MatrixError::IndexOutOfRange));
    assert_eq!(v.data(), &[10, 2]);
}

#[test]
fn vector_clone_deep_copies() {
    let v: Vector<i64> = Vector::from_slice(&[1, 2]);
    let mut w = v.clone();
    w.set_at(0, 9);
    assert_eq!(v.data(), &[1, 2]);
    assert_eq!(w.data(), &[9, 2]);
}

#[test]
fn matrix_new_is_zero_filled() {
    let m: Matrix<i64> = Matrix::new(2, 3);
    assert_eq!(m.nrows(), 2);
    assert_eq!(m.ncols(), 3);
    assert_eq!(m.data(), &[0, 0, 0, 0, 0, 0]);
}

#[test]
fn matrix_with_value_fills() {
    let m: Matrix<i64> = Matrix::with_value(2, 2, 5);
    assert_eq!(m.data(), &[5, 5, 5, 5]);
}

#[test]
fn matrix_from_slice_is_row_major() {
    let m: Matrix<i64> = Matrix::from_slice(2, 3, &[1, 2, 3, 4, 5, 6]);
    assert_eq!(m.at(0, 0), 1);
    assert_eq!(m.at(0, 2), 3);
    assert_eq!(m.at(1, 0), 4);
    assert_eq!(m.at(1, 2), 6);
}

#[test]
fn matrix_get_and_put_bounds_check() {
    let mut m: Matrix<i64> = Matrix::from_slice(2, 2, &[1, 2, 3, 4]);
    assert_eq!(m.get(1, 1), Ok(4));
    assert_eq!(m.get(2, 0), Err(MatrixError::IndexOutOfRange));
    assert_eq!(m.get(0, 2), Err(MatrixError::IndexOutOfRange));
    assert_eq!(m.put(0, 1, 9), Ok(()));
    assert_eq!(m.get(0, 1), Ok(9));
    assert_eq!(m.put(2, 2, 9), Err(MatrixError::IndexOutOfRange));
    assert_eq!(m.data(), &[1, 9, 3, 4]);
}

#[test]
fn matrix_swap_elements_swaps_cells() {
    let mut m: Matrix<i64> = Matrix::from_slice(2, 2, &[1, 2, 3, 4]);
    m.swap_elements(0, 0, 1, 1);
    assert_eq!(m.data(), &[4, 2, 3, 1]);
}

#[test]
fn matrix_resize_reallocates_zero_filled() {
    let mut m: Matrix<i64> = Matrix::from_slice(2, 2, &[1, 2, 3, 4]);
    m.resize(3, 2);
    assert_eq!(m.nrows(), 3);
    assert_eq!(m.ncols(), 2);
    assert_eq!(m.data(), &[0, 0, 0, 0, 0, 0]);
}

#[test]
fn matrix_assign_overwrites() {
    let mut m: Matrix<i64> = Matrix::from_slice(2, 2, &[1, 2, 3, 4]);
    m.assign(1, 3, 8);
    assert_eq!(m.nrows(), 1);
    assert_eq!(m.ncols(), 3);
    assert_eq!(m.data(), &[8, 8, 8]);
}

#[test]
fn matrix_identity_entries() {
    let m: Matrix<i64> = Matrix::identity(3);
    assert_eq!(m.data(), &[1, 0, 0, 0, 1, 0, 0, 0, 1]);
}

#[test]
fn matrix_clone_deep_copies() {
    let m: Matrix<i64> = Matrix::from_slice(2, 2, &[1, 2, 3, 4]);
    let mut c = m.clone();
    c.set_at(0, 0, 9);
    assert_eq!(m.data(), &[1, 2, 3, 4]);
    assert_eq!(c.data(), &[9, 2, 3, 4]);
}

#[test]
fn sqr_squares() {
    assert_eq!(sqr(7i64), 49);
    assert_eq!(sqr(-3i64), 9);
}

#[test]
fn max_and_min_pick_extremes() {
    assert_eq!(max(3i64, 5i64), 5);
    assert_eq!(max(5i64, 3i64), 5);
    assert_eq!(min(3i64, 5i64), 3);
    assert_eq!(min(5i64, 3i64), 3);
}

#[test]
fn sign_carries_sign_of_second_argument() {
    assert_eq!(sign(3i64, 2i64), 3);
    assert_eq!(sign(-3i64, 2i64), 3);
    assert_eq!(sign(3i64, -2i64), -3);
    assert_eq!(sign(-3i64, -2i64), -3);
}

#[test]
fn swap_exchanges_values() {
    let mut a: i64 = 1;
    let mut b: i64 = 2;
    swap(&mut a, &mut b);
    assert_eq!(a, 2);
    assert_eq!(b, 1);
}
