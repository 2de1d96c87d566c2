use vstd::prelude::*;

use crate::errors::MatrixError;
use crate::math_utilities::{entry_of, lemma_flat_coords, lemma_row_major_index, Matrix};
use crate::scalar::Scalar;

verus! {

/// The elementwise sum of two flat buffers of equal length.
pub open spec fn madd<T: Scalar>(a: Seq<T>, b: Seq<T>) -> Seq<T> {
    Seq::new(a.len(), |p: int| a[p].spec_plus(b[p]))
}

/// The elementwise difference of two flat buffers of equal length.
pub open spec fn msub<T: Scalar>(a: Seq<T>, b: Seq<T>) -> Seq<T> {
    Seq::new(a.len(), |p: int| a[p].spec_minus(b[p]))
}

/// The left-to-right accumulation of the first `k` products of the dot
/// product of row `i` of `a` (with `inner` columns) and column `j` of
/// `b` (with `bcols` columns), starting from zero exactly as the
/// executable triple loop does.
pub open spec fn mul_acc<T: Scalar>(
    a: Seq<T>,
    b: Seq<T>,
    inner: int,
    bcols: int,
    i: int,
    j: int,
    k: nat,
) -> T
    decreases k,
{
    if k == 0 {
        T::spec_zero()
    } else {
        mul_acc(a, b, inner, bcols, i, j, (k - 1) as nat).spec_plus(
            entry_of(a, inner, i, k - 1).spec_times(entry_of(b, bcols, k - 1, j)),
        )
    }
}

/// The matrix product of a `rows` by `inner` buffer and an `inner` by
/// `bcols` buffer, entry by entry.
pub open spec fn mmul<T: Scalar>(
    a: Seq<T>,
    b: Seq<T>,
    rows: int,
    inner: int,
    bcols: int,
) -> Seq<T> {
    Seq::new(
        (rows * bcols) as nat,
        |p: int| mul_acc(a, b, inner, bcols, p / bcols, p % bcols, inner as nat),
    )
}

/// The flat buffer of the identity matrix of dimension `n`.
pub open spec fn ident_seq<T: Scalar>(n: int) -> Seq<T> {
    Seq::new(
        (n * n) as nat,
        |p: int|
            if p / n == p % n {
                T::spec_one()
            } else {
                T::spec_zero()
            },
    )
}

/// Elementwise sum of two matrices of identical dimensions; any other
/// shapes are rejected.
pub fn add_matrices<T: Scalar>(a: &Matrix<T>, b: &Matrix<T>) -> (r: Result<
    Matrix<T>,
    MatrixError,
>)
    requires
        a.wf(),
        b.wf(),
    ensures
        (a.spec_rows() == b.spec_rows() && a.spec_cols() == b.spec_cols()) <==> r is Ok,
        !(a.spec_rows() == b.spec_rows() && a.spec_cols() == b.spec_cols()) ==> r == Err::<
            Matrix<T>,
            MatrixError,
        >(MatrixError::DimensionMismatch),
        r is Ok ==> r->Ok_0.wf(),
        r is Ok ==> r->Ok_0.spec_rows() == a.spec_rows(),
        r is Ok ==> r->Ok_0.spec_cols() == a.spec_cols(),
        r is Ok ==> r->Ok_0@ == madd(a@, b@),
{
    if a.nrows() != b.nrows() || a.ncols() != b.ncols() {
        return Err(MatrixError::DimensionMismatch);
    }
    let sa: &[T] = a.data();
    let sb: &[T] = b.data();
    let total: usize = sa.len();
    let mut data: Vec<T> = Vec::new();
    let mut p: usize = 0;
    while p < total
        invariant
            p <= total,
            total == a@.len(),
            a@.len() == b@.len(),
            sa@ == a@,
            sb@ == b@,
            data@.len() == p,
            forall|q: int| 0 <= q < p ==> data@[q] == a@[q].spec_plus(b@[q]),
        decreases total - p,
    {
        data.push(sa[p].plus(sb[p]));
        p = p + 1;
    }
    let m: Matrix<T> = Matrix::from_slice(a.nrows(), a.ncols(), data.as_slice());
    proof {
        assert(m@ =~= madd(a@, b@));
    }
    Ok(m)
}

/// Elementwise difference of two matrices of identical dimensions; any
/// other shapes are rejected.
pub fn subtract_matrices<T: Scalar>(a: &Matrix<T>, b: &Matrix<T>) -> (r: Result<
    Matrix<T>,
    MatrixError,
>)
    requires
        a.wf(),
        b.wf(),
    ensures
        (a.spec_rows() == b.spec_rows() && a.spec_cols() == b.spec_cols()) <==> r is Ok,
        !(a.spec_rows() == b.spec_rows() && a.spec_cols() == b.spec_cols()) ==> r == Err::<
            Matrix<T>,
            MatrixError,
        >(MatrixError::DimensionMismatch),
        r is Ok ==> r->Ok_0.wf(),
        r is Ok ==> r->Ok_0.spec_rows() == a.spec_rows(),
        r is Ok ==> r->Ok_0.spec_cols() == a.spec_cols(),
        r is Ok ==> r->Ok_0@ == msub(a@, b@),
{
    if a.nrows() != b.nrows() || a.ncols() != b.ncols() {
        return Err(MatrixError::DimensionMismatch);
    }
    let sa: &[T] = a.data();
    let sb: &[T] = b.data();
    let total: usize = sa.len();
    let mut data: Vec<T> = Vec::new();
    let mut p: usize = 0;
    while p < total
        invariant
            p <= total,
            total == a@.len(),
            a@.len() == b@.len(),
            sa@ == a@,
            sb@ == b@,
            data@.len() == p,
            forall|q: int| 0 <= q < p ==> data@[q] == a@[q].spec_minus(b@[q]),
        decreases total - p,
    {
        data.push(sa[p].minus(sb[p]));
        p = p + 1;
    }
    let m: Matrix<T> = Matrix::from_slice(a.nrows(), a.ncols(), data.as_slice());
    proof {
        assert(m@ =~= msub(a@, b@));
    }
    Ok(m)
}

/// Matrix product; the left operand's column count must equal the
/// right operand's row count, and any other shapes are rejected. Each
/// result entry is the dot product of a row of `a` and a column of
/// `b`, accumulated left to right from zero.
pub fn multiply_matrices<T: Scalar>(a: &Matrix<T>, b: &Matrix<T>) -> (r: Result<
    Matrix<T>,
    MatrixError,
>)
    requires
        a.wf(),
        b.wf(),
    ensures
        (a.spec_cols() == b.spec_rows()) <==> r is Ok,
        a.spec_cols() != b.spec_rows() ==> r == Err::<Matrix<T>, MatrixError>(
            MatrixError::DimensionMismatch,
        ),
        r is Ok ==> r->Ok_0.wf(),
        r is Ok ==> r->Ok_0.spec_rows() == a.spec_rows(),
        r is Ok ==> r->Ok_0.spec_cols() == b.spec_cols(),
        r is Ok ==> r->Ok_0@ == mmul(a@, b@, a.spec_rows(), a.spec_cols(), b.spec_cols()),
{
    if a.ncols() != b.nrows() {
        return Err(MatrixError::DimensionMismatch);
    }
    let rows: usize = a.nrows();
    let inner: usize = a.ncols();
    let bcols: usize = b.ncols();
    let mut data: Vec<T> = Vec::new();
    let mut i: usize = 0;
    while i < rows
        invariant
            i <= rows,
            a.wf(),
            b.wf(),
            a.spec_rows() == rows,
            a.spec_cols() == inner,
            b.spec_rows() == inner,
            b.spec_cols() == bcols,
            data@.len() == i * bcols,
            forall|q: int|
                0 <= q < i * bcols ==> data@[q] == mul_acc(
                    a@,
                    b@,
                    inner as int,
                    bcols as int,
                    q / bcols as int,
                    q % bcols as int,
                    inner as nat,
                ),
        decreases rows - i,
    {
        let mut j: usize = 0;
        while j < bcols
            invariant
                i < rows,
                j <= bcols,
                a.wf(),
                b.wf(),
                a.spec_rows() == rows,
                a.spec_cols() == inner,
                b.spec_rows() == inner,
                b.spec_cols() == bcols,
                data@.len() == i * bcols + j,
                forall|q: int|
                    0 <= q < i * bcols + j ==> data@[q] == mul_acc(
                        a@,
                        b@,
                        inner as int,
                        bcols as int,
                        q / bcols as int,
                        q % bcols as int,
                        inner as nat,
                    ),
            decreases bcols - j,
        {
            let mut sum: T = T::zero();
            let mut k: usize = 0;
            while k < inner
                invariant
                    i < rows,
                    j < bcols,
                    k <= inner,
                    a.wf(),
                    b.wf(),
                    a.spec_rows() == rows,
                    a.spec_cols() == inner,
                    b.spec_rows() == inner,
                    b.spec_cols() == bcols,
                    sum == mul_acc(
                        a@,
                        b@,
                        inner as int,
                        bcols as int,
                        i as int,
                        j as int,
                        k as nat,
                    ),
                decreases inner - k,
            {
                sum = sum.plus(a.at(i, k).times(b.at(k, j)));
                k = k + 1;
            }
            proof {
                lemma_flat_coords(bcols as int, i as int, j as int);
            }
            data.push(sum);
            j = j + 1;
        }
        proof {
            assert((i + 1) * bcols == i * bcols + bcols) by (nonlinear_arith);
        }
        i = i + 1;
    }
    let m: Matrix<T> = Matrix::from_slice(rows, bcols, data.as_slice());
    proof {
        assert(m@ =~= mmul(a@, b@, rows as int, inner as int, bcols as int));
    }
    Ok(m)
}

/// Law: subtracting `b` elementwise after adding it recovers the left
/// operand exactly, for any scalar type whose subtraction undoes its
/// addition.
pub proof fn lemma_add_then_subtract_recovers<T: Scalar>(a: Seq<T>, b: Seq<T>)
    requires
        a.len() == b.len(),
        forall|x: T, y: T| #[trigger] x.spec_plus(y).spec_minus(y) == x,
    ensures
        msub(madd(a, b), b) == a,
{
    assert(msub(madd(a, b), b) =~= a);
}

/// Law: for `i64` buffers the round trip through `madd` and `msub` is
/// exact with no hypothesis, since wrapping subtraction undoes
/// wrapping addition on every input.
pub proof fn lemma_i64_add_then_subtract_recovers(a: Seq<i64>, b: Seq<i64>)
    requires
        a.len() == b.len(),
    ensures
        msub(madd(a, b), b) == a,
{
    assert forall|x: i64, y: i64| #[trigger] x.spec_plus(y).spec_minus(y) == x by {
        assert(x.wrapping_add(y).wrapping_sub(y) == x);
    }
    lemma_add_then_subtract_recovers(a, b);
}

/// How one accumulation step against an identity column collapses:
/// the running sum stays zero until the diagonal term is reached and
/// then carries the matching entry of `a` unchanged.
proof fn lemma_mul_acc_identity<T: Scalar>(a: Seq<T>, rows: int, cols: int, i: int, j: int, k: nat)
    requires
        a.len() == rows * cols,
        0 <= i < rows,
        0 <= j < cols,
        k <= cols,
        forall|x: T| #[trigger] x.spec_times(T::spec_one()) == x,
        forall|x: T| #[trigger] x.spec_times(T::spec_zero()) == T::spec_zero(),
        forall|x: T| #[trigger] x.spec_plus(T::spec_zero()) == x,
        forall|x: T| #[trigger] T::spec_zero().spec_plus(x) == x,
    ensures
        mul_acc(a, ident_seq(cols), cols, cols, i, j, k) == (if k <= j {
            T::spec_zero()
        } else {
            entry_of(a, cols, i, j)
        }),
    decreases k,
{
    if k > 0 {
        lemma_mul_acc_identity(a, rows, cols, i, j, (k - 1) as nat);
        lemma_row_major_index(k - 1, j, cols, cols);
        lemma_flat_coords(cols, k - 1, j);
        assert(entry_of(ident_seq::<T>(cols), cols, k - 1, j) == (if k - 1 == j {
            T::spec_one()
        } else {
            T::spec_zero()
        }));
    }
}

/// Law: multiplying by the identity matrix on the right returns the
/// left operand exactly, for any scalar type whose one is a
/// multiplicative identity and whose zero annihilates products and is
/// an additive identity.
pub proof fn lemma_multiply_identity_right<T: Scalar>(a: Seq<T>, rows: int, cols: int)
    requires
        rows >= 0,
        cols >= 0,
        a.len() == rows * cols,
        forall|x: T| #[trigger] x.spec_times(T::spec_one()) == x,
        forall|x: T| #[trigger] x.spec_times(T::spec_zero()) == T::spec_zero(),
        forall|x: T| #[trigger] x.spec_plus(T::spec_zero()) == x,
        forall|x: T| #[trigger] T::spec_zero().spec_plus(x) == x,
    ensures
        mmul(a, ident_seq(cols), rows, cols, cols) == a,
{
    let m = mmul(a, ident_seq::<T>(cols), rows, cols, cols);
    assert forall|p: int| 0 <= p < rows * cols implies m[p] == a[p] by {
        assert(cols != 0) by (nonlinear_arith)
            requires
                0 <= p < rows * cols,
                cols >= 0,
        ;
        vstd::arithmetic::div_mod::lemma_fundamental_div_mod(p, cols);
        vstd::arithmetic::div_mod::lemma_mod_bound(p, cols);
        let i = p / cols;
        let j = p % cols;
        assert(i < rows) by (nonlinear_arith)
            requires
                p < rows * cols,
                p == cols * i + j,
                0 <= j < cols,
                0 <= i,
        ;
        assert(i >= 0) by (nonlinear_arith)
            requires
                p >= 0,
                p == cols * i + j,
                0 <= j < cols,
        ;
        lemma_mul_acc_identity(a, rows, cols, i, j, cols as nat);
        assert(p == i * cols + j);
    }
    assert(m =~= a);
}

/// Law: for `i64` buffers right-multiplication by the identity is
/// exact with no hypothesis, since wrapping arithmetic keeps one as a
/// multiplicative identity and zero as an absorbing and neutral
/// element.
pub proof fn lemma_i64_multiply_identity_right(a: Seq<i64>, rows: int, cols: int)
    requires
        rows >= 0,
        cols >= 0,
        a.len() == rows * cols,
    ensures
        mmul(a, ident_seq(cols), rows, cols, cols) == a,
{
    assert forall|x: i64| #[trigger] x.spec_times(1i64) == x by {
        assert(x.wrapping_mul(1) == x) by (nonlinear_arith);
    }
    assert forall|x: i64| #[trigger] x.spec_times(0i64) == 0i64 by {
        assert(x.wrapping_mul(0) == 0) by (nonlinear_arith);
    }
    lemma_multiply_identity_right(a, rows, cols);
}

} // verus!
