use numerus::errors::MatrixError;
use numerus::lu_decomposition::LU;
use numerus::math_utilities::{Matrix, Vector};
use numerus::matrix_operations::multiply_matrices;
use numerus::scalar::Scalar;

#[derive(Clone, Copy, Debug, PartialEq)]
struct Real(f64);

impl Scalar for Real {
    fn spec_zero() -> Real {
        Real(0.0)
    }
    fn spec_one() -> Real {
        Real(1.0)
    }
    fn spec_tiny() -> Real {
        Real(1.0e-40)
    }
    fn spec_plus(self, rhs: Real) -> Real {
        Real(self.0 + rhs.0)
    }
    fn spec_minus(self, rhs: Real) -> Real {
        Real(self.0 - rhs.0)
    }
    fn spec_times(self, rhs: Real) -> Real {
        Real(self.0 * rhs.0)
    }
    fn spec_divided_by(self, rhs: Real) -> Real {
        Real(self.0 / rhs.0)
    }
    fn spec_negate(self) -> Real {
        Real(-self.0)
    }
    fn spec_abs(self) -> Real {
        Real(self.0.abs())
    }
    fn spec_less(self, rhs: Real) -> bool {
        self.0 < rhs.0
    }
    fn spec_geq(self, rhs: Real) -> bool {
        self.0 >= rhs.0
    }
    fn spec_is_zero(self) -> bool {
        self.0 == 0.0
    }
    fn zero() -> Real {
        Real(0.0)
    }
    fn one() -> Real {
        Real(1.0)
    }
    fn tiny() -> Real {
        Real(1.0e-40)
    }
    fn plus(self, rhs: Real) -> Real {
        Real(self.0 + rhs.0)
    }
    fn minus(self, rhs: Real) -> Real {
        Real(self.0 - rhs.0)
    }
    fn times(self, rhs: Real) -> Real {
        Real(self.0 * rhs.0)
    }
    fn divided_by(self, rhs: Real) -> Real {
        Real(self.0 / rhs.0)
    }
    fn negate(self) -> Real {
        Real(-self.0)
    }
    fn abs(self) -> Real {
        Real(self.0.abs())
    }
    fn lt(self, rhs: Real) -> bool {
        self.0 < rhs.0
    }
    fn ge(self, rhs: Real) -> bool {
        self.0 >= rhs.0
    }
    fn is_zero(self) -> bool {
        self.0 == 0.0
    }
}

fn mat(rows: usize, cols: usize, entries: &[f64]) -> Matrix<Real> {
    let mut wrapped: Vec<Real> = Vec::new();
    for &e in entries {
        wrapped.push(Real(e));
    }
    Matrix::from_slice(rows, cols, &wrapped)
}

fn vect(entries: &[f64]) -> Vector<Real> {
    let mut wrapped: Vec<Real> = Vec::new();
    for &e in entries {
        wrapped.push(Real(e));
    }
    Vector::from_slice(&wrapped)
}

fn close(a: f64, b: f64, tol: f64) -> bool {
    (a - b).abs() < tol
}

#[test]
fn solve_three_by_three_and_unit_determinant() {
    // A = [[1,2,3],[0,1,4],[5,6,0]] has determinant exactly 1; with
    // b = [2,-1,1] the solution is x = [-61, 51, -13].
    let a = mat(3, 3, &[1.0, 2.0, 3.0, 0.0, 1.0, 4.0, 5.0, 6.0, 0.0]);
    let b = vect(&[2.0, -1.0, 1.0]);
    let lu = LU::new(&a).unwrap();
    let mut x: Vector<Real> = Vector::new(3);
    lu.solve(&b, &mut x).unwrap();
    assert!(close(x.at(0).0, -61.0, 1e-9));
    assert!(close(x.at(1).0, 51.0, 1e-9));
    assert!(close(x.at(2).0, -13.0, 1e-9));
    // A * x must reproduce b within 1e-9.
    for i in 0..3 {
        let mut dot = 0.0;
        for j in 0..3 {
            dot += a.at(i, j).0 * x.at(j).0;
        }
        assert!(close(dot, b.at(i).0, 1e-9));
    }
    assert!(close(lu.det().0, 1.0, 1e-9));
}

#[test]
fn round_trip_recovers_known_solution() {
    let a = mat(3, 3, &[1.0, 2.0, 3.0, 0.0, 1.0, 4.0, 5.0, 6.0, 0.0]);
    let x0 = mat(3, 1, &[1.5, -2.0, 0.25]);
    let b_col = multiply_matrices(&a, &x0).unwrap();
    let b = vect(&[b_col.at(0, 0).0, b_col.at(1, 0).0, b_col.at(2, 0).0]);
    let lu = LU::new(&a).unwrap();
    let mut x: Vector<Real> = Vector::new(3);
    lu.solve(&b, &mut x).unwrap();
    assert!(close(x.at(0).0, 1.5, 1e-9));
    assert!(close(x.at(1).0, -2.0, 1e-9));
    assert!(close(x.at(2).0, 0.25, 1e-9));
}

#[test]
fn zero_pivot_candidate_triggers_row_swap() {
    // Column 0 has a zero pivot candidate in row 0 and a nonzero entry
    // below it, so elimination must swap rows and still solve exactly.
    let a = mat(2, 2, &[0.0, 1.0, 1.0, 0.0]);
    let b = vect(&[3.0, 5.0]);
    let lu = LU::new(&a).unwrap();
    let mut x: Vector<Real> = Vector::new(2);
    lu.solve(&b, &mut x).unwrap();
    assert!(close(x.at(0).0, 5.0, 1e-12));
    assert!(close(x.at(1).0, 3.0, 1e-12));
    // One swap happened, so the determinant carries a negative sign.
    assert!(close(lu.det().0, -1.0, 1e-12));
}

#[test]
fn zero_row_fails_construction_as_singular() {
    let a = mat(2, 2, &[1.0, 2.0, 0.0, 0.0]);
    assert_eq!(LU::new(&a).unwrap_err(), MatrixError::SingularMatrix);
    let first_row_zero = mat(2, 2, &[0.0, 0.0, 1.0, 2.0]);
    assert_eq!(LU::new(&first_row_zero).unwrap_err(), MatrixError::SingularMatrix);
}

#[test]
fn non_square_matrix_is_rejected() {
    let a = mat(2, 3, &[1.0, 2.0, 3.0, 4.0, 5.0, 6.0]);
    assert_eq!(LU::new(&a).unwrap_err(), MatrixError::NotSquare);
}

#[test]
fn determinant_without_swaps_is_diagonal_product() {
    // Scaled pivoting keeps the rows of this matrix in place, so the
    // determinant is the plain product of the pivots: 2 * 1.5 = 3.
    let a = mat(2, 2, &[2.0, 1.0, 1.0, 2.0]);
    let lu = LU::new(&a).unwrap();
    assert!(close(lu.det().0, 3.0, 1e-12));
}

#[test]
fn inverse_times_matrix_is_identity() {
    let a = mat(3, 3, &[1.0, 2.0, 3.0, 0.0, 1.0, 4.0, 5.0, 6.0, 0.0]);
    let lu = LU::new(&a).unwrap();
    let mut ainv: Matrix<Real> = Matrix::new(3, 3);
    lu.inverse(&mut ainv);
    let product = multiply_matrices(&ainv, &a).unwrap();
    for i in 0..3 {
        for j in 0..3 {
            let expected = if i == j { 1.0 } else { 0.0 };
            assert!(close(product.at(i, j).0, expected, 1e-9));
        }
    }
}

#[test]
fn inverse_of_two_by_two() {
    let a = mat(2, 2, &[4.0, 7.0, 2.0, 6.0]);
    let lu = LU::new(&a).unwrap();
    let mut ainv: Matrix<Real> = Matrix::new(2, 2);
    lu.inverse(&mut ainv);
    assert!(close(ainv.at(0, 0).0, 0.6, 1e-12));
    assert!(close(ainv.at(0, 1).0, -0.7, 1e-12));
    assert!(close(ainv.at(1, 0).0, -0.2, 1e-12));
    assert!(close(ainv.at(1, 1).0, 0.4, 1e-12));
}

#[test]
fn solve_matrix_solves_each_column() {
    let a = mat(2, 2, &[2.0, 1.0, 1.0, 2.0]);
    // Columns [1,0] and [0,1]: the solutions are the columns of the
    // inverse [[2/3,-1/3],[-1/3,2/3]].
    let b = mat(2, 2, &[1.0, 0.0, 0.0, 1.0]);
    let lu = LU::new(&a).unwrap();
    let mut x: Matrix<Real> = Matrix::new(2, 2);
    lu.solve_matrix(&b, &mut x).unwrap();
    assert!(close(x.at(0, 0).0, 2.0 / 3.0, 1e-12));
    assert!(close(x.at(1, 0).0, -1.0 / 3.0, 1e-12));
    assert!(close(x.at(0, 1).0, -1.0 / 3.0, 1e-12));
    assert!(close(x.at(1, 1).0, 2.0 / 3.0, 1e-12));
}

#[test]
fn solve_rejects_mismatched_sizes() {
    let a = mat(2, 2, &[2.0, 1.0, 1.0, 2.0]);
    let lu = LU::new(&a).unwrap();
    let b = vect(&[1.0, 2.0, 3.0]);
    let mut x: Vector<Real> = Vector::new(2);
    assert_eq!(lu.solve(&b, &mut x).unwrap_err(), MatrixError::DimensionMismatch);
    let b2 = vect(&[1.0, 2.0]);
    let mut x2: Vector<Real> = Vector::new(3);
    assert_eq!(lu.solve(&b2, &mut x2).unwrap_err(), MatrixError::DimensionMismatch);
}

#[test]
fn solve_matrix_rejects_mismatched_shapes() {
    let a = mat(2, 2, &[2.0, 1.0, 1.0, 2.0]);
    let lu = LU::new(&a).unwrap();
    let b = mat(3, 1, &[1.0, 2.0, 3.0]);
    let mut x: Matrix<Real> = Matrix::new(3, 1);
    assert_eq!(lu.solve_matrix(&b, &mut x).unwrap_err(), MatrixError::DimensionMismatch);
    let b2 = mat(2, 2, &[1.0, 0.0, 0.0, 1.0]);
    let mut x2: Matrix<Real> = Matrix::new(2, 1);
    assert_eq!(lu.solve_matrix(&b2, &mut x2).unwrap_err(), MatrixError::DimensionMismatch);
}

#[test]
fn factor_readback_returns_compact_storage() {
    // [[2,1],[1,2]] factors without swaps into U = [[2,1],[0,1.5]]
    // with the single multiplier 0.5 stored below the diagonal.
    let a = mat(2, 2, &[2.0, 1.0, 1.0, 2.0]);
    let lu = LU::new(&a).unwrap();
    let mut f: Matrix<Real> = Matrix::new(2, 2);
    lu.lu_decomposition(&mut f).unwrap();
    assert!(close(f.at(0, 0).0, 2.0, 1e-12));
    assert!(close(f.at(0, 1).0, 1.0, 1e-12));
    assert!(close(f.at(1, 0).0, 0.5, 1e-12));
    assert!(close(f.at(1, 1).0, 1.5, 1e-12));
    let mut too_small: Matrix<Real> = Matrix::new(1, 2);
    assert_eq!(lu.lu_decomposition(&mut too_small).unwrap_err(), MatrixError::DimensionMismatch);
    let mut too_narrow: Matrix<Real> = Matrix::new(2, 1);
    assert_eq!(lu.lu_decomposition(&mut too_narrow).unwrap_err(), MatrixError::DimensionMismatch);
}

#[test]
fn factor_readback_fills_top_left_block_of_larger_output() {
    let a = mat(2, 2, &[2.0, 1.0, 1.0, 2.0]);
    let lu = LU::new(&a).unwrap();
    let mut f: Matrix<Real> = Matrix::with_value(3, 3, Real(9.0));
    lu.lu_decomposition(&mut f).unwrap();
    assert!(close(f.at(0, 0).0, 2.0, 1e-12));
    assert!(close(f.at(0, 1).0, 1.0, 1e-12));
    assert!(close(f.at(1, 0).0, 0.5, 1e-12));
    assert!(close(f.at(1, 1).0, 1.5, 1e-12));
    // Entries outside the top-left block are untouched.
    assert_eq!(f.at(0, 2), Real(9.0));
    assert_eq!(f.at(1, 2), Real(9.0));
    assert_eq!(f.at(2, 0), Real(9.0));
    assert_eq!(f.at(2, 1), Real(9.0));
    assert_eq!(f.at(2, 2), Real(9.0));
}

#[test]
fn exactly_zero_pivot_is_substituted_not_fatal() {
    // No row is all zero, but elimination meets an exactly zero pivot;
    // the tiny substitution keeps the factorization usable and the
    // determinant collapses to nearly zero instead of failing.
    let a = mat(2, 2, &[1.0, 1.0, 1.0, 1.0]);
    let lu = LU::new(&a).unwrap();
    assert!(lu.det().0.abs() < 1e-30);
}

#[test]
fn empty_matrix_factors_with_unit_determinant() {
    let a = mat(0, 0, &[]);
    let lu = LU::new(&a).unwrap();
    assert!(close(lu.det().0, 1.0, 1e-15));
    let b = vect(&[]);
    let mut x: Vector<Real> = Vector::new(0);
    lu.solve(&b, &mut x).unwrap();
    assert_eq!(x.size(), 0);
}

#[test]
fn one_by_one_solve_and_determinant() {
    let a = mat(1, 1, &[5.0]);
    let b = vect(&[10.0]);
    let lu = LU::new(&a).unwrap();
    let mut x: Vector<Real> = Vector::new(1);
    lu.solve(&b, &mut x).unwrap();
    assert!(close(x.at(0).0, 2.0, 1e-15));
    assert!(close(lu.det().0, 5.0, 1e-15));
}
