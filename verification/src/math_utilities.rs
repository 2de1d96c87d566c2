use vstd::prelude::*;

use crate::errors::MatrixError;
use crate::scalar::Scalar;

verus! {

/// The entry of a flat row-major buffer `a` with `cols` columns at row
/// `i`, column `j`.
pub open spec fn entry_of<T>(a: Seq<T>, cols: int, i: int, j: int) -> T {
    a[i * cols + j]
}

/// A row-major position is inside the buffer of a `rows` by `cols`
/// container.
pub proof fn lemma_row_major_index(i: int, j: int, rows: int, cols: int)
    requires
        0 <= i < rows,
        0 <= j < cols,
    ensures
        0 <= i * cols + j,
        i * cols + j < rows * cols,
{
    assert(0 <= i * cols + j && i * cols + j < rows * cols) by (nonlinear_arith)
        requires
            0 <= i < rows,
            0 <= j < cols,
    ;
}

/// A row-major position decomposes back into its coordinates.
pub proof fn lemma_flat_coords(cols: int, i: int, j: int)
    requires
        0 <= i,
        0 <= j < cols,
    ensures
        (i * cols + j) / cols == i,
        (i * cols + j) % cols == j,
{
    vstd::arithmetic::div_mod::lemma_fundamental_div_mod_converse(i * cols + j, cols, i, j);
}

/// A flat position equals the row-major recomposition of its
/// coordinates, which lie in range.
pub proof fn lemma_flat_recompose(p: int, cols: int)
    requires
        cols > 0,
    ensures
        p == (p / cols) * cols + p % cols,
        0 <= p % cols < cols,
{
    vstd::arithmetic::div_mod::lemma_fundamental_div_mod(p, cols);
    vstd::arithmetic::div_mod::lemma_mod_bound(p, cols);
    assert((p / cols) * cols == cols * (p / cols)) by (nonlinear_arith);
}

/// Distinct in-range coordinates occupy distinct row-major positions.
pub proof fn lemma_row_major_distinct(cols: int, i: int, j: int, r: int, c: int)
    requires
        0 <= i,
        0 <= r,
        0 <= j < cols,
        0 <= c < cols,
        !(i == r && j == c),
    ensures
        i * cols + j != r * cols + c,
{
    vstd::arithmetic::div_mod::lemma_fundamental_div_mod_converse(i * cols + j, cols, i, j);
    vstd::arithmetic::div_mod::lemma_fundamental_div_mod_converse(r * cols + c, cols, r, c);
}

/// The square of a value.
pub fn sqr<T: Scalar>(a: T) -> (r: T)
    ensures
        r == a.spec_times(a),
{
    a.times(a)
}

/// The larger of two values; on a tie the first argument is kept.
pub open spec fn spec_max<T: Scalar>(a: T, b: T) -> T {
    if a.spec_less(b) {
        b
    } else {
        a
    }
}

pub fn max<T: Scalar>(a: T, b: T) -> (r: T)
    ensures
        r == spec_max(a, b),
{
    if a.lt(b) {
        b
    } else {
        a
    }
}

/// The smaller of two values; on a tie the first argument is kept.
pub open spec fn spec_min<T: Scalar>(a: T, b: T) -> T {
    if b.spec_less(a) {
        b
    } else {
        a
    }
}

pub fn min<T: Scalar>(a: T, b: T) -> (r: T)
    ensures
        r == spec_min(a, b),
{
    if b.lt(a) {
        b
    } else {
        a
    }
}

/// The magnitude of `a` carrying the sign of `b`.
pub open spec fn spec_sign<T: Scalar>(a: T, b: T) -> T {
    if b.spec_geq(T::spec_zero()) {
        if a.spec_geq(T::spec_zero()) {
            a
        } else {
            a.spec_negate()
        }
    } else {
        if a.spec_geq(T::spec_zero()) {
            a.spec_negate()
        } else {
            a
        }
    }
}

pub fn sign<T: Scalar>(a: T, b: T) -> (r: T)
    ensures
        r == spec_sign(a, b),
{
    if b.ge(T::zero()) {
        if a.ge(T::zero()) {
            a
        } else {
            a.negate()
        }
    } else {
        if a.ge(T::zero()) {
            a.negate()
        } else {
            a
        }
    }
}

/// Exchanges the values behind two mutable references.
pub fn swap<T>(a: &mut T, b: &mut T)
    ensures
        *final(a) == *old(b),
        *final(b) == *old(a),
{
    core::mem::swap(a, b);
}

/// An owned contiguous buffer of `size` elements.
#[derive(Debug)]
pub struct Vector<T> {
    data: Vec<T>,
}

impl<T> View for Vector<T> {
    type V = Seq<T>;

    closed spec fn view(&self) -> Seq<T> {
        self.data@
    }
}

impl<T: Copy> Clone for Vector<T> {
    /// Deep-copies the buffer.
    fn clone(&self) -> (r: Vector<T>)
        ensures
            r@ == self@,
    {
        Vector { data: vstd::slice::slice_to_vec(self.data.as_slice()) }
    }
}

impl<T: Copy> Vector<T> {
    /// A vector with every element equal to `value`.
    pub fn with_value(size: usize, value: T) -> (v: Vector<T>)
        ensures
            v@.len() == size,
            forall|i: int| 0 <= i < size ==> v@[i] == value,
    {
        let mut data: Vec<T> = Vec::new();
        let mut k: usize = 0;
        while k < size
            invariant
                k <= size,
                data@.len() == k,
                forall|i: int| 0 <= i < k ==> data@[i] == value,
            decreases size - k,
        {
            data.push(value);
            k = k + 1;
        }
        Vector { data }
    }

    /// A vector holding a copy of the given slice.
    pub fn from_slice(slice: &[T]) -> (v: Vector<T>)
        ensures
            v@ == slice@,
    {
        Vector { data: vstd::slice::slice_to_vec(slice) }
    }

    /// The number of elements.
    pub fn size(&self) -> (r: usize)
        ensures
            r == self@.len(),
    {
        self.data.len()
    }

    /// Reallocates to `new_size` elements, every one equal to `value`.
    pub fn assign(&mut self, new_size: usize, value: T)
        ensures
            final(self)@.len() == new_size,
            forall|i: int| 0 <= i < new_size ==> final(self)@[i] == value,
    {
        let fresh: Vector<T> = Vector::with_value(new_size, value);
        *self = fresh;
    }

    /// A read-only view of the backing buffer.
    pub fn data(&self) -> (r: &[T])
        ensures
            r@ == self@,
    {
        self.data.as_slice()
    }

    /// The element at position `i`; the caller shows `i` is in range.
    pub fn at(&self, i: usize) -> (r: T)
        requires
            i < self@.len(),
        ensures
            r == self@[i as int],
    {
        self.data[i]
    }

    /// Overwrites the element at position `i`; the caller shows `i` is
    /// in range.
    pub fn set_at(&mut self, i: usize, value: T)
        requires
            i < old(self)@.len(),
        ensures
            final(self)@ == old(self)@.update(i as int, value),
    {
        self.data.set(i, value);
    }

    /// Bounds-checked element read.
    pub fn get(&self, i: usize) -> (r: Result<T, MatrixError>)
        ensures
            i < self@.len() ==> r == Ok::<T, MatrixError>(self@[i as int]),
            i >= self@.len() ==> r == Err::<T, MatrixError>(MatrixError::IndexOutOfRange),
    {
        if i < self.data.len() {
            Ok(self.data[i])
        } else {
            Err(MatrixError::IndexOutOfRange)
        }
    }

    /// Bounds-checked element write.
    pub fn put(&mut self, i: usize, value: T) -> (r: Result<(), MatrixError>)
        ensures
            i < old(self)@.len() ==> r == Ok::<(), MatrixError>(())
                && final(self)@ == old(self)@.update(i as int, value),
            i >= old(self)@.len() ==> r == Err::<(), MatrixError>(MatrixError::IndexOutOfRange)
                && final(self)@ == old(self)@,
    {
        if i < self.data.len() {
            self.data.set(i, value);
            Ok(())
        } else {
            Err(MatrixError::IndexOutOfRange)
        }
    }
}

impl<T: Scalar> Vector<T> {
    /// A zero-filled vector of `size` elements.
    pub fn new(size: usize) -> (v: Vector<T>)
        ensures
            v@.len() == size,
            forall|i: int| 0 <= i < size ==> v@[i] == T::spec_zero(),
    {
        Vector::with_value(size, T::zero())
    }

    /// Reallocates to `new_size` elements, every one zero: resizing
    /// never keeps old contents.
    pub fn resize(&mut self, new_size: usize)
        ensures
            final(self)@.len() == new_size,
            forall|i: int| 0 <= i < new_size ==> final(self)@[i] == T::spec_zero(),
    {
        let fresh: Vector<T> = Vector::new(new_size);
        *self = fresh;
    }
}

/// A dense `rows` by `cols` container over a single owned flat buffer
/// in row-major order. The buffer always holds exactly `rows * cols`
/// elements.
#[derive(Debug)]
pub struct Matrix<T> {
    rows: usize,
    cols: usize,
    data: Vec<T>,
}

impl<T> View for Matrix<T> {
    type V = Seq<T>;

    closed spec fn view(&self) -> Seq<T> {
        self.data@
    }
}

impl<T> Matrix<T> {
    /// The number of rows.
    pub closed spec fn spec_rows(&self) -> int {
        self.rows as int
    }

    /// The number of columns.
    pub closed spec fn spec_cols(&self) -> int {
        self.cols as int
    }

    /// The container invariant: the flat buffer holds exactly one
    /// element per cell.
    pub open spec fn wf(&self) -> bool {
        self@.len() == self.spec_rows() * self.spec_cols()
    }

    /// The entry at row `i`, column `j`.
    pub open spec fn at_spec(&self, i: int, j: int) -> T {
        entry_of(self@, self.spec_cols(), i, j)
    }
}

impl<T: Copy> Clone for Matrix<T> {
    /// Deep-copies the buffer.
    fn clone(&self) -> (r: Matrix<T>)
        ensures
            r@ == self@,
            r.spec_rows() == self.spec_rows(),
            r.spec_cols() == self.spec_cols(),
    {
        Matrix {
            rows: self.rows,
            cols: self.cols,
            data: vstd::slice::slice_to_vec(self.data.as_slice()),
        }
    }
}

impl<T: Copy> Matrix<T> {
    /// A matrix with every entry equal to `value`.
    pub fn with_value(rows: usize, cols: usize, value: T) -> (m: Matrix<T>)
        requires
            rows * cols <= usize::MAX,
        ensures
            m.wf(),
            m.spec_rows() == rows,
            m.spec_cols() == cols,
            forall|p: int| 0 <= p < m@.len() ==> m@[p] == value,
    {
        let total: usize = rows * cols;
        let filled: Vector<T> = Vector::with_value(total, value);
        Matrix { rows, cols, data: filled.data }
    }

    /// A matrix holding a copy of the given flat row-major slice, whose
    /// length must match the dimensions exactly.
    pub fn from_slice(rows: usize, cols: usize, slice: &[T]) -> (m: Matrix<T>)
        requires
            slice@.len() == rows * cols,
        ensures
            m.wf(),
            m.spec_rows() == rows,
            m.spec_cols() == cols,
            m@ == slice@,
    {
        Matrix { rows, cols, data: vstd::slice::slice_to_vec(slice) }
    }

    /// The number of rows.
    pub fn nrows(&self) -> (r: usize)
        ensures
            r == self.spec_rows(),
    {
        self.rows
    }

    /// The number of columns.
    pub fn ncols(&self) -> (r: usize)
        ensures
            r == self.spec_cols(),
    {
        self.cols
    }

    /// The entry at `(i, j)`; the caller shows the coordinates are in
    /// range.
    pub fn at(&self, i: usize, j: usize) -> (r: T)
        requires
            self.wf(),
            i < self.spec_rows(),
            j < self.spec_cols(),
        ensures
            r == self.at_spec(i as int, j as int),
    {
        // Reading the length as a usize bounds the flat index below.
        let len: usize = self.data.len();
        proof {
            lemma_row_major_index(i as int, j as int, self.spec_rows(), self.spec_cols());
        }
        let p: usize = i * self.cols + j;
        self.data[p]
    }

    /// Overwrites the entry at `(i, j)`; the caller shows the
    /// coordinates are in range.
    pub fn set_at(&mut self, i: usize, j: usize, value: T)
        requires
            old(self).wf(),
            i < old(self).spec_rows(),
            j < old(self).spec_cols(),
        ensures
            final(self).wf(),
            final(self).spec_rows() == old(self).spec_rows(),
            final(self).spec_cols() == old(self).spec_cols(),
            final(self)@ == old(self)@.update(
                i as int * old(self).spec_cols() + j as int,
                value,
            ),
    {
        // Reading the length as a usize bounds the flat index below.
        let len: usize = self.data.len();
        proof {
            lemma_row_major_index(i as int, j as int, self.spec_rows(), self.spec_cols());
        }
        let p: usize = i * self.cols + j;
        self.data.set(p, value);
    }

    /// Bounds-checked entry read.
    pub fn get(&self, i: usize, j: usize) -> (r: Result<T, MatrixError>)
        requires
            self.wf(),
        ensures
            i < self.spec_rows() && j < self.spec_cols() ==> r == Ok::<T, MatrixError>(
                self.at_spec(i as int, j as int),
            ),
            !(i < self.spec_rows() && j < self.spec_cols()) ==> r == Err::<T, MatrixError>(
                MatrixError::IndexOutOfRange,
            ),
    {
        if i < self.rows && j < self.cols {
            Ok(self.at(i, j))
        } else {
            Err(MatrixError::IndexOutOfRange)
        }
    }

    /// Bounds-checked entry write.
    pub fn put(&mut self, i: usize, j: usize, value: T) -> (r: Result<(), MatrixError>)
        requires
            old(self).wf(),
        ensures
            final(self).wf(),
            final(self).spec_rows() == old(self).spec_rows(),
            final(self).spec_cols() == old(self).spec_cols(),
            i < old(self).spec_rows() && j < old(self).spec_cols() ==> r == Ok::<
                (),
                MatrixError,
            >(()) && final(self)@ == old(self)@.update(
                i as int * old(self).spec_cols() + j as int,
                value,
            ),
            !(i < old(self).spec_rows() && j < old(self).spec_cols()) ==> r == Err::<
                (),
                MatrixError,
            >(MatrixError::IndexOutOfRange) && final(self)@ == old(self)@,
    {
        if i < self.rows && j < self.cols {
            self.set_at(i, j, value);
            Ok(())
        } else {
            Err(MatrixError::IndexOutOfRange)
        }
    }

    /// Swaps the entries at `(row1, col1)` and `(row2, col2)` in place.
    pub fn swap_elements(&mut self, row1: usize, col1: usize, row2: usize, col2: usize)
        requires
            old(self).wf(),
            row1 < old(self).spec_rows(),
            col1 < old(self).spec_cols(),
            row2 < old(self).spec_rows(),
            col2 < old(self).spec_cols(),
        ensures
            final(self).wf(),
            final(self).spec_rows() == old(self).spec_rows(),
            final(self).spec_cols() == old(self).spec_cols(),
            final(self)@ == old(self)@.update(
                row1 as int * old(self).spec_cols() + col1 as int,
                old(self).at_spec(row2 as int, col2 as int),
            ).update(
                row2 as int * old(self).spec_cols() + col2 as int,
                old(self).at_spec(row1 as int, col1 as int),
            ),
    {
        let a: T = self.at(row1, col1);
        let b: T = self.at(row2, col2);
        self.set_at(row1, col1, b);
        self.set_at(row2, col2, a);
    }

    /// A read-only view of the backing buffer.
    pub fn data(&self) -> (r: &[T])
        ensures
            r@ == self@,
    {
        self.data.as_slice()
    }
}

impl<T: Scalar> Matrix<T> {
    /// A zero-filled matrix.
    pub fn new(rows: usize, cols: usize) -> (m: Matrix<T>)
        requires
            rows * cols <= usize::MAX,
        ensures
            m.wf(),
            m.spec_rows() == rows,
            m.spec_cols() == cols,
            forall|p: int| 0 <= p < m@.len() ==> m@[p] == T::spec_zero(),
    {
        Matrix::with_value(rows, cols, T::zero())
    }

    /// Reallocates to `new_rows` by `new_cols`, every entry equal to
    /// `value`.
    pub fn assign(&mut self, new_rows: usize, new_cols: usize, value: T)
        requires
            new_rows * new_cols <= usize::MAX,
        ensures
            final(self).wf(),
            final(self).spec_rows() == new_rows,
            final(self).spec_cols() == new_cols,
            forall|p: int| 0 <= p < final(self)@.len() ==> final(self)@[p] == value,
    {
        let fresh: Matrix<T> = Matrix::with_value(new_rows, new_cols, value);
        *self = fresh;
    }

    /// Reallocates to `new_rows` by `new_cols` with every entry zero:
    /// resizing never keeps old contents.
    pub fn resize(&mut self, new_rows: usize, new_cols: usize)
        requires
            new_rows * new_cols <= usize::MAX,
        ensures
            final(self).wf(),
            final(self).spec_rows() == new_rows,
            final(self).spec_cols() == new_cols,
            forall|p: int| 0 <= p < final(self)@.len() ==> final(self)@[p] == T::spec_zero(),
    {
        let fresh: Matrix<T> = Matrix::new(new_rows, new_cols);
        *self = fresh;
    }

    /// The identity matrix of dimension `n`.
    pub fn identity(n: usize) -> (m: Matrix<T>)
        requires
            n * n <= usize::MAX,
        ensures
            m.wf(),
            m.spec_rows() == n,
            m.spec_cols() == n,
            forall|i: int, j: int|
                0 <= i < n && 0 <= j < n ==> m.at_spec(i, j) == (if i == j {
                    T::spec_one()
                } else {
                    T::spec_zero()
                }),
    {
        let mut m: Matrix<T> = Matrix::new(n, n);
        proof {
            assert forall|i: int, j: int| 0 <= i < n && 0 <= j < n implies #[trigger] m.at_spec(
                i,
                j,
            ) == T::spec_zero() by {
                lemma_row_major_index(i, j, n as int, n as int);
            }
        }
        let mut k: usize = 0;
        while k < n
            invariant
                k <= n,
                m.wf(),
                m.spec_rows() == n,
                m.spec_cols() == n,
                forall|i: int, j: int|
                    0 <= i < n && 0 <= j < n ==> #[trigger] m.at_spec(i, j) == (if i == j && i
                        < k {
                        T::spec_one()
                    } else {
                        T::spec_zero()
                    }),
            decreases n - k,
        {
            let ghost prev: Seq<T> = m@;
            proof {
                assert forall|i: int, j: int| 0 <= i < n && 0 <= j < n implies #[trigger] prev[i
                    * (n as int) + j] == (if i == j && i < k {
                    T::spec_one()
                } else {
                    T::spec_zero()
                }) by {
                    assert(m.at_spec(i, j) == (if i == j && i < k {
                        T::spec_one()
                    } else {
                        T::spec_zero()
                    }));
                }
            }
            m.set_at(k, k, T::one());
            proof {
                assert forall|i: int, j: int| 0 <= i < n && 0 <= j < n implies #[trigger] m
                    .at_spec(i, j) == (if i == j && i < k + 1 {
                    T::spec_one()
                } else {
                    T::spec_zero()
                }) by {
                    lemma_row_major_index(i, j, n as int, n as int);
                    lemma_row_major_index(k as int, k as int, n as int, n as int);
                    if !(i == k && j == k) {
                        lemma_row_major_distinct(n as int, i, j, k as int, k as int);
                    }
                    assert(prev[i * (n as int) + j] == (if i == j && i < k {
                        T::spec_one()
                    } else {
                        T::spec_zero()
                    }));
                }
            }
            k = k + 1;
        }
        m
    }
}

} // verus!
