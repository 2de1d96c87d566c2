use vstd::prelude::*;

use crate::errors::MatrixError;
use crate::math_utilities::{
    entry_of, lemma_flat_coords, lemma_flat_recompose, lemma_row_major_index, Matrix, Vector,
};
use crate::matrix_operations::ident_seq;
use crate::scalar::Scalar;
use vstd::arithmetic::div_mod::lemma_fundamental_div_mod_converse;

verus! {

// ---------------------------------------------------------------------
// The factorization algorithm, step by step, as spec functions over the
// flat row-major working buffer.
// ---------------------------------------------------------------------

/// The running maximum of the magnitudes of the first `j` entries of
/// row `i`, accumulated from zero exactly as the executable scan does.
pub open spec fn row_max_upto<T: Scalar>(a: Seq<T>, n: int, i: int, j: nat) -> T
    decreases j,
{
    if j == 0 {
        T::spec_zero()
    } else {
        let prev = row_max_upto(a, n, i, (j - 1) as nat);
        let t = entry_of(a, n, i, j - 1).spec_abs();
        if prev.spec_less(t) {
            t
        } else {
            prev
        }
    }
}

/// A row whose maximum magnitude is exactly zero makes the matrix
/// structurally singular: the scaling pass cannot produce its
/// reciprocal scale factor.
pub open spec fn has_zero_row<T: Scalar>(a: Seq<T>, n: int) -> bool {
    exists|i: int|
        0 <= i < n && (#[trigger] row_max_upto(a, n, i, n as nat)).spec_is_zero()
}

/// The reciprocal scale factor of row `i`, one over the row's maximum
/// magnitude.
pub open spec fn scale_of_row<T: Scalar>(a: Seq<T>, n: int, i: int) -> T {
    T::spec_one().spec_divided_by(row_max_upto(a, n, i, n as nat))
}

/// The tail of the pivot search for step `k`: rows `i` up to `n` are
/// still to be scanned and `(big, imax)` is the best scaled magnitude
/// seen so far; only a strict improvement moves the choice.
pub open spec fn pivot_scan<T: Scalar>(
    a: Seq<T>,
    vv: Seq<T>,
    n: int,
    k: int,
    i: int,
    big: T,
    imax: int,
) -> (T, int)
    decreases n - i,
{
    if i < 0 || i >= n {
        (big, imax)
    } else {
        let t = vv[i].spec_times(entry_of(a, n, i, k).spec_abs());
        if big.spec_less(t) {
            pivot_scan(a, vv, n, k, i + 1, t, i)
        } else {
            pivot_scan(a, vv, n, k, i + 1, big, imax)
        }
    }
}

/// The pivot row chosen at step `k`: the full scan from row `k` with a
/// zero running best.
pub open spec fn pivot_choice<T: Scalar>(a: Seq<T>, vv: Seq<T>, n: int, k: int) -> int {
    pivot_scan(a, vv, n, k, k, T::spec_zero(), k).1
}

/// Rows `r1` and `r2` exchanged in their first `j` columns.
pub open spec fn swap_rows_upto<T>(a: Seq<T>, n: int, r1: int, r2: int, j: int) -> Seq<T> {
    Seq::new(
        a.len(),
        |p: int|
            if p / n == r1 && p % n < j {
                a[r2 * n + p % n]
            } else if p / n == r2 && p % n < j {
                a[r1 * n + p % n]
            } else {
                a[p]
            },
    )
}

/// The flat buffer with rows `r1` and `r2` exchanged.
pub open spec fn swap_rows<T>(a: Seq<T>, n: int, r1: int, r2: int) -> Seq<T> {
    swap_rows_upto(a, n, r1, r2, n)
}

/// The working buffer after the zero-pivot substitution of step `k`: a
/// pivot of exactly zero magnitude is replaced by the tiny value, so a
/// later division yields a large finite result instead of failing.
pub open spec fn fix_pivot<T: Scalar>(a: Seq<T>, n: int, k: int) -> Seq<T> {
    if entry_of(a, n, k, k).spec_is_zero() {
        a.update(k * n + k, T::spec_tiny())
    } else {
        a
    }
}

/// Row `i` of elimination step `k`, reduced through column `j`: the
/// multiplier overwrites the eliminated entry in column `k` and each
/// later column up to `j` is reduced against pivot row `k`.
pub open spec fn elim_row_upto<T: Scalar>(a: Seq<T>, n: int, k: int, i: int, j: int) -> Seq<T> {
    let m = entry_of(a, n, i, k).spec_divided_by(entry_of(a, n, k, k));
    Seq::new(
        a.len(),
        |p: int|
            if p / n == i && p % n == k {
                m
            } else if p / n == i && k < p % n < j {
                a[p].spec_minus(m.spec_times(a[k * n + p % n]))
            } else {
                a[p]
            },
    )
}

/// Row `i` fully reduced by elimination step `k`.
pub open spec fn elim_row<T: Scalar>(a: Seq<T>, n: int, k: int, i: int) -> Seq<T> {
    elim_row_upto(a, n, k, i, n)
}

/// The first `c` rows below the pivot row reduced by elimination step
/// `k`, in ascending order: rows `k + 1` through `k + c`.
pub open spec fn elim_rows<T: Scalar>(a: Seq<T>, n: int, k: int, c: nat) -> Seq<T>
    decreases c,
{
    if c == 0 {
        a
    } else {
        elim_row(elim_rows(a, n, k, (c - 1) as nat), n, k, k + c)
    }
}

/// The working state of the elimination pass: the flat working buffer,
/// the row scale factors, the pivot rows recorded so far, and the
/// running parity sign.
pub struct ElimState<T> {
    pub a: Seq<T>,
    pub vv: Seq<T>,
    pub piv: Seq<usize>,
    pub d: T,
}

/// One pivot step: choose the pivot row by scaled partial pivoting,
/// swap it into place (flipping the sign and moving the scale factor),
/// record it, substitute the tiny value for an exactly zero pivot, and
/// reduce every row below.
pub open spec fn lu_step<T: Scalar>(s: ElimState<T>, n: int, k: int) -> ElimState<T> {
    let r = pivot_choice(s.a, s.vv, n, k);
    let a1 = if r != k {
        swap_rows(s.a, n, k, r)
    } else {
        s.a
    };
    let vv1 = if r != k {
        s.vv.update(r, s.vv[k])
    } else {
        s.vv
    };
    let d1 = if r != k {
        s.d.spec_negate()
    } else {
        s.d
    };
    let a2 = fix_pivot(a1, n, k);
    let a3 = elim_rows(a2, n, k, (n - k - 1) as nat);
    ElimState { a: a3, vv: vv1, piv: s.piv.push(r as usize), d: d1 }
}

/// The elimination state before any pivot step: the untouched buffer,
/// the scale factors of the scaling pass, no pivots, and a positive
/// sign.
pub open spec fn lu_init<T: Scalar>(a: Seq<T>, n: int) -> ElimState<T> {
    ElimState {
        a,
        vv: Seq::new(n as nat, |i: int| scale_of_row(a, n, i)),
        piv: Seq::empty(),
        d: T::spec_one(),
    }
}

/// The elimination state after the first `k` pivot steps.
pub open spec fn lu_elim<T: Scalar>(a: Seq<T>, n: int, k: nat) -> ElimState<T>
    decreases k,
{
    if k == 0 {
        lu_init(a, n)
    } else {
        lu_step(lu_elim(a, n, (k - 1) as nat), n, k - 1)
    }
}

/// How many of the first `k` recorded pivot rows differ from their
/// step index; each such step swapped two rows.
pub open spec fn swap_count(piv: Seq<usize>, k: nat) -> nat
    decreases k,
{
    if k == 0 {
        0
    } else {
        swap_count(piv, (k - 1) as nat) + (if piv[k - 1] as int != k - 1 {
            1nat
        } else {
            0nat
        })
    }
}

/// The determinant sign left by `c` row swaps: `c` successive
/// negations of one, so each swap flips the sign exactly once.
pub open spec fn parity_sign<T: Scalar>(c: nat) -> T
    decreases c,
{
    if c == 0 {
        T::spec_one()
    } else {
        parity_sign::<T>((c - 1) as nat).spec_negate()
    }
}

/// The running product of the first `k` diagonal entries of the
/// compact factor, starting from `init`.
pub open spec fn diag_prod<T: Scalar>(a: Seq<T>, n: int, init: T, k: nat) -> T
    decreases k,
{
    if k == 0 {
        init
    } else {
        diag_prod(a, n, init, (k - 1) as nat).spec_times(entry_of(a, n, k - 1, k - 1))
    }
}

/// The running sum of one substitution row: `acc` minus the products
/// of the stored factors of row `i` in columns `lo` up to `hi` with
/// the matching solution entries, accumulated left to right.
pub open spec fn sub_dot<T: Scalar>(
    lu: Seq<T>,
    n: int,
    i: int,
    x: Seq<T>,
    lo: int,
    hi: int,
    acc: T,
) -> T
    decreases hi - lo,
{
    if lo >= hi {
        acc
    } else {
        sub_dot(
            lu,
            n,
            i,
            x,
            lo + 1,
            hi,
            acc.spec_minus(entry_of(lu, n, i, lo).spec_times(x[lo])),
        )
    }
}

/// One forward-substitution row: the permuted entry is unscrambled in
/// place, and once a nonzero partial sum has been seen — tracked by
/// `ii`, zero meaning not yet — the accumulated dot product of the
/// already-solved entries is subtracted.
pub open spec fn forward_step<T: Scalar>(
    lu: Seq<T>,
    n: int,
    piv: Seq<usize>,
    x: Seq<T>,
    ii: int,
    i: int,
) -> (Seq<T>, int) {
    let ip = piv[i] as int;
    let sum0 = x[ip];
    let x1 = x.update(ip, x[i]);
    if ii != 0 {
        (x1.update(i, sub_dot(lu, n, i, x1, ii - 1, i, sum0)), ii)
    } else if !sum0.spec_is_zero() {
        (x1.update(i, sum0), i + 1)
    } else {
        (x1.update(i, sum0), 0)
    }
}

/// The first `c` forward-substitution rows applied to `b`, starting
/// with no nonzero partial sum seen.
pub open spec fn forward_rec<T: Scalar>(
    lu: Seq<T>,
    n: int,
    piv: Seq<usize>,
    b: Seq<T>,
    c: nat,
) -> (Seq<T>, int)
    decreases c,
{
    if c == 0 {
        (b, 0)
    } else {
        let prev = forward_rec(lu, n, piv, b, (c - 1) as nat);
        forward_step(lu, n, piv, prev.0, prev.1, c - 1)
    }
}

/// Back substitution over rows `i` through `n - 1`, processed bottom
/// up: each entry becomes its accumulated sum divided by the diagonal
/// entry of the upper factor.
pub open spec fn back_rec<T: Scalar>(lu: Seq<T>, n: int, x: Seq<T>, i: int) -> Seq<T>
    decreases n - i,
{
    if i < 0 || i >= n {
        x
    } else {
        let x1 = back_rec(lu, n, x, i + 1);
        let s = sub_dot(lu, n, i, x1, i + 1, n, x1[i]);
        x1.update(i, s.spec_divided_by(entry_of(lu, n, i, i)))
    }
}

/// The full solve against one right-hand side: forward substitution
/// with the recorded permutation, then back substitution.
pub open spec fn lu_solve<T: Scalar>(lu: Seq<T>, n: int, piv: Seq<usize>, b: Seq<T>) -> Seq<T> {
    back_rec(lu, n, forward_rec(lu, n, piv, b, n as nat).0, 0)
}

/// The `j`-th column of a flat row-major buffer with `cols` columns
/// and `rows` rows.
pub open spec fn col_of<T>(a: Seq<T>, cols: int, rows: int, j: int) -> Seq<T> {
    Seq::new(rows as nat, |i: int| entry_of(a, cols, i, j))
}

// ---------------------------------------------------------------------
// Supporting lemmas about the spec functions.
// ---------------------------------------------------------------------

/// Forward substitution only updates entries in place.
proof fn lemma_forward_rec_len<T: Scalar>(lu: Seq<T>, n: int, piv: Seq<usize>, b: Seq<T>, c: nat)
    requires
        b.len() == n,
        c <= n,
        forall|t: int| 0 <= t < c ==> (#[trigger] piv[t] as int) < n,
    ensures
        forward_rec(lu, n, piv, b, c).0.len() == b.len(),
    decreases c,
{
    if c > 0 {
        lemma_forward_rec_len(lu, n, piv, b, (c - 1) as nat);
    }
}

/// Back substitution only updates entries in place.
proof fn lemma_back_rec_len<T: Scalar>(lu: Seq<T>, n: int, x: Seq<T>, i: int)
    requires
        x.len() == n,
    ensures
        back_rec(lu, n, x, i).len() == x.len(),
    decreases n - i,
{
    if 0 <= i < n {
        lemma_back_rec_len(lu, n, x, i + 1);
    }
}

/// A solve returns one entry per right-hand-side entry.
pub proof fn lemma_lu_solve_len<T: Scalar>(lu: Seq<T>, n: int, piv: Seq<usize>, b: Seq<T>)
    requires
        b.len() == n,
        forall|t: int| 0 <= t < n ==> (#[trigger] piv[t] as int) < n,
    ensures
        lu_solve(lu, n, piv, b).len() == b.len(),
{
    lemma_forward_rec_len(lu, n, piv, b, n as nat);
    lemma_back_rec_len(lu, n, forward_rec(lu, n, piv, b, n as nat).0, 0);
}

/// The pivot search never chooses a row above the step or outside the
/// matrix.
proof fn lemma_pivot_scan_bounds<T: Scalar>(
    a: Seq<T>,
    vv: Seq<T>,
    n: int,
    k: int,
    i: int,
    big: T,
    imax: int,
)
    requires
        0 <= k <= imax < n,
        k <= i <= n,
    ensures
        k <= pivot_scan(a, vv, n, k, i, big, imax).1 < n,
    decreases n - i,
{
    if i < n {
        let t = vv[i].spec_times(entry_of(a, n, i, k).spec_abs());
        if big.spec_less(t) {
            lemma_pivot_scan_bounds(a, vv, n, k, i + 1, t, i);
        } else {
            lemma_pivot_scan_bounds(a, vv, n, k, i + 1, big, imax);
        }
    }
}

/// The swap count reads only the prefix it is given.
proof fn lemma_swap_count_prefix(p1: Seq<usize>, p2: Seq<usize>, k: nat)
    requires
        forall|t: int| 0 <= t < k ==> p1[t] == p2[t],
    ensures
        swap_count(p1, k) == swap_count(p2, k),
    decreases k,
{
    if k > 0 {
        lemma_swap_count_prefix(p1, p2, (k - 1) as nat);
    }
}

/// After `k` elimination steps, exactly `k` pivots are recorded, each
/// lies at or below its step inside the matrix, and the running sign
/// is the parity of the swaps performed.
proof fn lemma_elim_invariants<T: Scalar>(a: Seq<T>, n: int, k: nat)
    requires
        k <= n,
        n <= usize::MAX,
    ensures
        lu_elim::<T>(a, n, k).piv.len() == k,
        forall|t: int|
            0 <= t < k ==> t <= (#[trigger] lu_elim::<T>(a, n, k).piv[t]) as int
                && (lu_elim::<T>(a, n, k).piv[t] as int) < n,
        lu_elim::<T>(a, n, k).d == parity_sign::<T>(
            swap_count(lu_elim::<T>(a, n, k).piv, k),
        ),
    decreases k,
{
    if k > 0 {
        let prev = lu_elim::<T>(a, n, (k - 1) as nat);
        lemma_elim_invariants::<T>(a, n, (k - 1) as nat);
        lemma_pivot_scan_bounds::<T>(
            prev.a,
            prev.vv,
            n,
            k - 1,
            k - 1,
            T::spec_zero(),
            k - 1,
        );
        let cur = lu_elim::<T>(a, n, k);
        let r = pivot_choice(prev.a, prev.vv, n, k - 1);
        assert(cur == lu_step(prev, n, k - 1));
        assert(cur.piv == prev.piv.push(r as usize));
        assert(k - 1 <= r < n);
        assert(cur.piv[k - 1] == r as usize);
        assert forall|t: int| 0 <= t < k - 1 implies cur.piv[t] == prev.piv[t] by {}
        lemma_swap_count_prefix(cur.piv, prev.piv, (k - 1) as nat);
        assert forall|t: int|
            0 <= t < k implies t <= (#[trigger] cur.piv[t]) as int && (cur.piv[t] as int)
            < n by {
            if t < k - 1 {
                assert(t <= (prev.piv[t] as int) && (prev.piv[t] as int) < n);
            }
        }
        assert(swap_count(cur.piv, k) == swap_count(prev.piv, (k - 1) as nat) + (if cur.piv[
            k - 1
        ] as int != k - 1 {
            1nat
        } else {
            0nat
        }));
        if r != k - 1 {
            assert(cur.d == prev.d.spec_negate());
            assert(swap_count(cur.piv, k) == swap_count(prev.piv, (k - 1) as nat) + 1);
        } else {
            assert(cur.d == prev.d);
            assert(swap_count(cur.piv, k) == swap_count(prev.piv, (k - 1) as nat));
        }
    }
}

// ---------------------------------------------------------------------
// The factorization engine.
// ---------------------------------------------------------------------

/// A pivoted LU factorization: the dimension, the compact combined
/// triangular factors (unit-lower multipliers below the diagonal, the
/// upper factor on and above it), the pivot row recorded at each
/// elimination step, and the parity sign of the row swaps. Built once
/// from a snapshot of its input and immutable afterwards.
#[derive(Debug)]
pub struct LU<T> {
    n: usize,
    lu: Matrix<T>,
    index: Vec<usize>,
    d: T,
}

impl<T: Scalar> LU<T> {
    /// The dimension of the factored matrix.
    pub closed spec fn spec_n(&self) -> int {
        self.n as int
    }

    /// The flat buffer of the compact combined factors.
    pub closed spec fn spec_lu(&self) -> Seq<T> {
        self.lu@
    }

    /// The pivot row chosen at each elimination step.
    pub closed spec fn spec_index(&self) -> Seq<usize> {
        self.index@
    }

    /// The parity sign of the row swaps.
    pub closed spec fn spec_d(&self) -> T {
        self.d
    }

    /// Validity: square compact storage, one in-range pivot recorded
    /// per step at or below that step, and the sign equal to the
    /// parity of the swaps performed.
    pub closed spec fn wf(&self) -> bool {
        &&& self.lu.wf()
        &&& self.lu.spec_rows() == self.spec_n()
        &&& self.lu.spec_cols() == self.spec_n()
        &&& self.spec_index().len() == self.spec_n()
        &&& forall|k: int|
            0 <= k < self.spec_n() ==> k <= (#[trigger] self.spec_index()[k]) as int
                && (self.spec_index()[k] as int) < self.spec_n()
        &&& self.spec_d() == parity_sign::<T>(
            swap_count(self.spec_index(), self.spec_n() as nat),
        )
    }

    /// Law: the sign of a valid factorization is the parity of its
    /// recorded row swaps — it has been flipped exactly once per swap.
    pub proof fn lemma_sign_is_swap_parity(f: LU<T>)
        requires
            f.wf(),
        ensures
            f.spec_d() == parity_sign::<T>(swap_count(f.spec_index(), f.spec_n() as nat)),
    {
    }

    /// Law: a valid factorization stores exactly one pivot row per
    /// step, each at or below its step inside the matrix.
    pub proof fn lemma_pivot_bounds(f: LU<T>)
        requires
            f.wf(),
        ensures
            f.spec_n() >= 0,
            f.spec_lu().len() == f.spec_n() * f.spec_n(),
            f.spec_index().len() == f.spec_n(),
            forall|k: int|
                0 <= k < f.spec_n() ==> k <= (#[trigger] f.spec_index()[k]) as int && (
                f.spec_index()[k] as int) < f.spec_n(),
    {
    }

    /// Builds the factorization of a square matrix: a scaling pass
    /// computes each row's reciprocal maximum magnitude, rejecting a
    /// matrix with an all-zero-magnitude row as singular, and an
    /// elimination pass performs one scaled-partial-pivoting step per
    /// column. The input is read through a private copy and never
    /// changed.
    pub fn new(a: &Matrix<T>) -> (r: Result<LU<T>, MatrixError>)
        requires
            a.wf(),
        ensures
            (a.spec_rows() == a.spec_cols() && !has_zero_row(a@, a.spec_rows())) <==> r is Ok,
            a.spec_rows() != a.spec_cols() ==> r == Err::<LU<T>, MatrixError>(
                MatrixError::NotSquare,
            ),
            a.spec_rows() == a.spec_cols() && has_zero_row(a@, a.spec_rows()) ==> r == Err::<
                LU<T>,
                MatrixError,
            >(MatrixError::SingularMatrix),
            r is Ok ==> r->Ok_0.wf(),
            r is Ok ==> r->Ok_0.spec_n() == a.spec_rows(),
            r is Ok ==> r->Ok_0.spec_lu() == lu_elim(
                a@,
                a.spec_rows(),
                a.spec_rows() as nat,
            ).a,
            r is Ok ==> r->Ok_0.spec_index() == lu_elim(
                a@,
                a.spec_rows(),
                a.spec_rows() as nat,
            ).piv,
            r is Ok ==> r->Ok_0.spec_d() == lu_elim(
                a@,
                a.spec_rows(),
                a.spec_rows() as nat,
            ).d,
    {
        let n: usize = a.nrows();
        if a.ncols() != n {
            return Err(MatrixError::NotSquare);
        }
        let mut lu: Matrix<T> = a.clone();
        let mut vv: Vector<T> = Vector::new(n);
        let mut index: Vec<usize> = Vec::new();
        let mut d: T = T::one();

        // Scaling pass: vv[i] = 1 / max_j |a[i][j]|, failing on a row
        // with maximum magnitude exactly zero.
        let mut i: usize = 0;
        while i < n
            invariant
                i <= n,
                a.wf(),
                a.spec_rows() == n as int,
                a.spec_cols() == n as int,
                lu.wf(),
                lu.spec_rows() == n as int,
                lu.spec_cols() == n as int,
                lu@ == a@,
                vv@.len() == n as int,
                forall|t: int| 0 <= t < i ==> vv@[t] == scale_of_row(a@, n as int, t),
                forall|t: int|
                    0 <= t < i ==> !(#[trigger] row_max_upto(a@, n as int, t, n as int as nat)).spec_is_zero(),
            decreases n - i,
        {
            let mut big: T = T::zero();
            let mut j: usize = 0;
            while j < n
                invariant
                    j <= n,
                    i < n,
                    a.wf(),
                    a.spec_rows() == n as int,
                    a.spec_cols() == n as int,
                    lu.wf(),
                    lu.spec_rows() == n as int,
                    lu.spec_cols() == n as int,
                    lu@ == a@,
                    big == row_max_upto(a@, n as int, i as int, j as nat),
                decreases n - j,
            {
                let temp: T = lu.at(i, j).abs();
                if big.lt(temp) {
                    big = temp;
                }
                j = j + 1;
            }
            if big.is_zero() {
                proof {
                    assert(row_max_upto(a@, n as int, i as int, n as int as nat).spec_is_zero());
                    assert(row_max_upto(
                        a@,
                        a.spec_rows(),
                        i as int,
                        a.spec_rows() as nat,
                    ).spec_is_zero());
                    assert(has_zero_row(a@, a.spec_rows()));
                }
                return Err(MatrixError::SingularMatrix);
            }
            vv.set_at(i, T::one().divided_by(big));
            i = i + 1;
        }
        proof {
            assert(!has_zero_row(a@, n as int));
            assert(vv@ =~= lu_init(a@, n as int).vv);
        }

        // Elimination pass: one scaled-partial-pivoting step per column.
        let mut k: usize = 0;
        while k < n
            invariant
                k <= n,
                a.wf(),
                a.spec_rows() == n as int,
                a.spec_cols() == n as int,
                lu.wf(),
                lu.spec_rows() == n as int,
                lu.spec_cols() == n as int,
                vv@.len() == n as int,
                index@.len() == k,
                lu@ == lu_elim(a@, n as int, k as nat).a,
                vv@ == lu_elim(a@, n as int, k as nat).vv,
                index@ == lu_elim(a@, n as int, k as nat).piv,
                d == lu_elim(a@, n as int, k as nat).d,
            decreases n - k,
        {
            let ghost s_pre: ElimState<T> = lu_elim(a@, n as int, k as nat);

            // Select the pivot row for this step.
            let mut big: T = T::zero();
            let mut imax: usize = k;
            let mut i2: usize = k;
            while i2 < n
                invariant
                    k <= i2 <= n,
                    k < n,
                    a.wf(),
                    lu.wf(),
                    lu.spec_rows() == n as int,
                    lu.spec_cols() == n as int,
                    vv@.len() == n as int,
                    lu@ == s_pre.a,
                    vv@ == s_pre.vv,
                    k <= imax < n,
                    pivot_scan(s_pre.a, s_pre.vv, n as int, k as int, i2 as int, big, imax as int)
                        == pivot_scan(
                        s_pre.a,
                        s_pre.vv,
                        n as int,
                        k as int,
                        k as int,
                        T::spec_zero(),
                        k as int,
                    ),
                decreases n - i2,
            {
                let ghost pb: T = big;
                let ghost pm: int = imax as int;
                let temp: T = vv.at(i2).times(lu.at(i2, k).abs());
                if big.lt(temp) {
                    big = temp;
                    imax = i2;
                }
                proof {
                    assert(pivot_scan(s_pre.a, s_pre.vv, n as int, k as int, i2 as int, pb, pm)
                        == pivot_scan(
                        s_pre.a,
                        s_pre.vv,
                        n as int,
                        k as int,
                        i2 + 1,
                        big,
                        imax as int,
                    ));
                }
                i2 = i2 + 1;
            }
            proof {
                assert(imax as int == pivot_choice(s_pre.a, s_pre.vv, n as int, k as int));
            }

            // Swap the pivot row into place, flip the sign, and move
            // the scale factor with the row.
            if imax != k {
                let ghost before: Seq<T> = lu@;
                let mut j2: usize = 0;
                while j2 < n
                    invariant
                        j2 <= n,
                        k < n,
                        imax < n,
                        imax != k,
                        lu.wf(),
                        lu.spec_rows() == n as int,
                        lu.spec_cols() == n as int,
                        before.len() == n as int * n as int,
                        lu@ == swap_rows_upto(before, n as int, k as int, imax as int, j2 as int),
                    decreases n - j2,
                {
                    proof {
                        lemma_flat_coords(n as int, imax as int, j2 as int);
                        lemma_flat_coords(n as int, k as int, j2 as int);
                        lemma_row_major_index(imax as int, j2 as int, n as int, n as int);
                        lemma_row_major_index(k as int, j2 as int, n as int, n as int);
                    }
                    lu.swap_elements(imax, j2, k, j2);
                    proof {
                        assert forall|p: int| 0 <= p < lu@.len() implies lu@[p]
                            == swap_rows_upto(
                            before,
                            n as int,
                            k as int,
                            imax as int,
                            j2 + 1,
                        )[p] by {
                            lemma_flat_recompose(p, n as int);
                            let pi = p / n as int;
                            let pj = p % n as int;
                            if pi == imax as int && pj == j2 as int {
                                assert(p == imax as int * n as int + j2 as int);
                            } else {
                                lemma_fundamental_div_mod_converse(
                                    imax as int * n as int + j2 as int,
                                    n as int,
                                    imax as int,
                                    j2 as int,
                                );
                            }
                            if pi == k as int && pj == j2 as int {
                                assert(p == k as int * n as int + j2 as int);
                            } else {
                                lemma_fundamental_div_mod_converse(
                                    k as int * n as int + j2 as int,
                                    n as int,
                                    k as int,
                                    j2 as int,
                                );
                            }
                        }
                        assert(lu@ =~= swap_rows_upto(before, n as int, k as int, imax as int, j2 + 1));
                    }
                    j2 = j2 + 1;
                }
                proof {
                    assert(lu@ =~= swap_rows(before, n as int, k as int, imax as int));
                }
                d = d.negate();
                let vk: T = vv.at(k);
                vv.set_at(imax, vk);
            }
            index.push(imax);
            let ghost a1: Seq<T> = lu@;

            // Substitute the tiny value for an exactly zero pivot.
            if lu.at(k, k).is_zero() {
                proof {
                    lemma_row_major_index(k as int, k as int, n as int, n as int);
                }
                lu.set_at(k, k, T::tiny());
            }
            let ghost a2: Seq<T> = lu@;
            proof {
                assert(a2 == fix_pivot(a1, n as int, k as int));
            }

            // Reduce every row below the pivot row.
            let mut i3: usize = k + 1;
            while i3 < n
                invariant
                    k < n,
                    k + 1 <= i3 <= n,
                    a.wf(),
                    lu.wf(),
                    lu.spec_rows() == n as int,
                    lu.spec_cols() == n as int,
                    a2.len() == n as int * n as int,
                    lu@ == elim_rows(a2, n as int, k as int, (i3 - k - 1) as nat),
                decreases n - i3,
            {
                let ghost row_start: Seq<T> = lu@;
                proof {
                    lemma_row_major_index(k as int, k as int, n as int, n as int);
                    lemma_row_major_index(i3 as int, k as int, n as int, n as int);
                }
                let piv_val: T = lu.at(k, k);
                let m_val: T = lu.at(i3, k).divided_by(piv_val);
                lu.set_at(i3, k, m_val);
                proof {
                    assert forall|p: int| 0 <= p < lu@.len() implies lu@[p]
                        == elim_row_upto(row_start, n as int, k as int, i3 as int, k + 1)[p] by {
                        lemma_flat_recompose(p, n as int);
                        let pi = p / n as int;
                        let pj = p % n as int;
                        if !(pi == i3 as int && pj == k as int) {
                            lemma_fundamental_div_mod_converse(
                                i3 as int * n as int + k as int,
                                n as int,
                                i3 as int,
                                k as int,
                            );
                        }
                    }
                    assert(lu@ =~= elim_row_upto(row_start, n as int, k as int, i3 as int, k + 1));
                }
                let mut j3: usize = k + 1;
                while j3 < n
                    invariant
                        k < n,
                        k < i3 < n,
                        k + 1 <= j3 <= n,
                        lu.wf(),
                        lu.spec_rows() == n as int,
                        lu.spec_cols() == n as int,
                        row_start.len() == n as int * n as int,
                        m_val == entry_of(row_start, n as int, i3 as int, k as int).spec_divided_by(
                            entry_of(row_start, n as int, k as int, k as int),
                        ),
                        lu@ == elim_row_upto(row_start, n as int, k as int, i3 as int, j3 as int),
                    decreases n - j3,
                {
                    proof {
                        lemma_flat_coords(n as int, i3 as int, j3 as int);
                        lemma_flat_coords(n as int, k as int, j3 as int);
                        lemma_row_major_index(i3 as int, j3 as int, n as int, n as int);
                        lemma_row_major_index(k as int, j3 as int, n as int, n as int);
                        lemma_row_major_distinct_rows(n as int, k as int, i3 as int, j3 as int);
                    }
                    let sub: T = lu.at(i3, j3).minus(m_val.times(lu.at(k, j3)));
                    lu.set_at(i3, j3, sub);
                    proof {
                        assert forall|p: int| 0 <= p < lu@.len() implies lu@[p]
                            == elim_row_upto(
                            row_start,
                            n as int,
                            k as int,
                            i3 as int,
                            j3 + 1,
                        )[p] by {
                            lemma_flat_recompose(p, n as int);
                            let pi = p / n as int;
                            let pj = p % n as int;
                            if !(pi == i3 as int && pj == j3 as int) {
                                lemma_fundamental_div_mod_converse(
                                    i3 as int * n as int + j3 as int,
                                    n as int,
                                    i3 as int,
                                    j3 as int,
                                );
                            }
                        }
                        assert(lu@ =~= elim_row_upto(
                            row_start,
                            n as int,
                            k as int,
                            i3 as int,
                            j3 + 1,
                        ));
                    }
                    j3 = j3 + 1;
                }
                proof {
                    assert(lu@ == elim_row(row_start, n as int, k as int, i3 as int));
                    assert(lu@ == elim_rows(a2, n as int, k as int, (i3 - k) as nat));
                }
                i3 = i3 + 1;
            }
            proof {
                assert(lu@ == lu_step(s_pre, n as int, k as int).a);
                assert(vv@ =~= lu_step(s_pre, n as int, k as int).vv);
                assert(index@ == lu_step(s_pre, n as int, k as int).piv);
                assert(d == lu_step(s_pre, n as int, k as int).d);
                assert(lu_elim(a@, n as int, (k + 1) as nat) == lu_step(s_pre, n as int, k as int));
            }
            k = k + 1;
        }
        proof {
            lemma_elim_invariants::<T>(a@, n as int, n as nat);
        }
        Ok(LU { n, lu, index, d })
    }

    /// Solves `A x = b` with the recorded factorization: the
    /// permutation is applied to `b` while forward-substituting
    /// through the unit lower factor — leading zero partial sums are
    /// skipped — and the upper factor is then solved bottom up. Both
    /// vectors must match the dimension.
    pub fn solve(&self, b: &Vector<T>, x: &mut Vector<T>) -> (r: Result<(), MatrixError>)
        requires
            self.wf(),
        ensures
            (b@.len() == self.spec_n() && old(x)@.len() == self.spec_n()) <==> r is Ok,
            !(b@.len() == self.spec_n() && old(x)@.len() == self.spec_n()) ==> r == Err::<
                (),
                MatrixError,
            >(MatrixError::DimensionMismatch) && final(x)@ == old(x)@,
            r is Ok ==> final(x)@.len() == self.spec_n(),
            r is Ok ==> final(x)@ == lu_solve(
                self.spec_lu(),
                self.spec_n(),
                self.spec_index(),
                b@,
            ),
    {
        let n: usize = self.n;
        if b.size() != n || x.size() != n {
            return Err(MatrixError::DimensionMismatch);
        }

        // Copy the right-hand side into the solution vector.
        let mut i: usize = 0;
        while i < n
            invariant
                i <= n,
                b@.len() == n,
                x@.len() == n,
                forall|t: int| 0 <= t < i ==> x@[t] == b@[t],
            decreases n - i,
        {
            let bv: T = b.at(i);
            x.set_at(i, bv);
            i = i + 1;
        }
        proof {
            assert(x@ =~= b@);
        }

        // Forward substitution, unscrambling the permutation as it
        // goes and skipping leading zero terms.
        let mut ii: usize = 0;
        let mut i: usize = 0;
        while i < n
            invariant
                i <= n,
                ii <= i,
                self.wf(),
                n as int == self.spec_n(),
                b@.len() == n,
                x@.len() == n,
                x@ == forward_rec(self.spec_lu(), n as int, self.spec_index(), b@, i as nat).0,
                ii as int == forward_rec(
                    self.spec_lu(),
                    n as int,
                    self.spec_index(),
                    b@,
                    i as nat,
                ).1,
            decreases n - i,
        {
            let ghost xpre: Seq<T> = x@;
            let ghost iipre: int = ii as int;
            let ip: usize = self.index[i];
            let mut sum: T = x.at(ip);
            let ghost sum0: T = sum;
            let xi: T = x.at(i);
            x.set_at(ip, xi);
            let ghost x1: Seq<T> = x@;
            if ii != 0 {
                let mut j: usize = ii - 1;
                while j < i
                    invariant
                        ii >= 1,
                        ii - 1 <= j <= i,
                        i < n,
                        self.wf(),
                        n as int == self.spec_n(),
                        x@.len() == n,
                        x@ == x1,
                        sub_dot(self.spec_lu(), n as int, i as int, x1, j as int, i as int, sum)
                            == sub_dot(
                            self.spec_lu(),
                            n as int,
                            i as int,
                            x1,
                            ii - 1,
                            i as int,
                            sum0,
                        ),
                    decreases i - j,
                {
                    let ghost sumpre: T = sum;
                    sum = sum.minus(self.lu.at(i, j).times(x.at(j)));
                    proof {
                        assert(sub_dot(
                            self.spec_lu(),
                            n as int,
                            i as int,
                            x1,
                            j as int,
                            i as int,
                            sumpre,
                        ) == sub_dot(
                            self.spec_lu(),
                            n as int,
                            i as int,
                            x1,
                            j + 1,
                            i as int,
                            sum,
                        ));
                    }
                    j = j + 1;
                }
            } else if !sum.is_zero() {
                ii = i + 1;
            }
            x.set_at(i, sum);
            proof {
                assert(forward_rec(
                    self.spec_lu(),
                    n as int,
                    self.spec_index(),
                    b@,
                    (i + 1) as nat,
                ) == forward_step(
                    self.spec_lu(),
                    n as int,
                    self.spec_index(),
                    xpre,
                    iipre,
                    i as int,
                ));
            }
            i = i + 1;
        }
        let ghost xf: Seq<T> = x@;

        // Back substitution through the upper factor.
        let mut i: usize = n;
        while i > 0
            invariant
                i <= n,
                self.wf(),
                n as int == self.spec_n(),
                x@.len() == n,
                xf.len() == n,
                x@ == back_rec(self.spec_lu(), n as int, xf, i as int),
            decreases i,
        {
            i = i - 1;
            let ghost xpre: Seq<T> = x@;
            let mut sum: T = x.at(i);
            let ghost suminit: T = sum;
            let mut j: usize = i + 1;
            while j < n
                invariant
                    i < n,
                    i + 1 <= j <= n,
                    self.wf(),
                    n as int == self.spec_n(),
                    x@.len() == n,
                    x@ == xpre,
                    suminit == xpre[i as int],
                    sub_dot(self.spec_lu(), n as int, i as int, xpre, j as int, n as int, sum)
                        == sub_dot(
                        self.spec_lu(),
                        n as int,
                        i as int,
                        xpre,
                        i + 1,
                        n as int,
                        suminit,
                    ),
                decreases n - j,
            {
                let ghost sumpre: T = sum;
                sum = sum.minus(self.lu.at(i, j).times(x.at(j)));
                proof {
                    assert(sub_dot(
                        self.spec_lu(),
                        n as int,
                        i as int,
                        xpre,
                        j as int,
                        n as int,
                        sumpre,
                    ) == sub_dot(
                        self.spec_lu(),
                        n as int,
                        i as int,
                        xpre,
                        j + 1,
                        n as int,
                        sum,
                    ));
                }
                j = j + 1;
            }
            let dv: T = self.lu.at(i, i);
            x.set_at(i, sum.divided_by(dv));
        }
        Ok(())
    }

    /// Solves one linear system per column of `b`, writing the
    /// solutions into the matching columns of `x`; all the columns
    /// reuse the one factorization.
    pub fn solve_matrix(&self, b: &Matrix<T>, x: &mut Matrix<T>) -> (r: Result<(), MatrixError>)
        requires
            self.wf(),
            b.wf(),
            old(x).wf(),
        ensures
            (b.spec_rows() == self.spec_n() && old(x).spec_rows() == self.spec_n()
                && b.spec_cols() == old(x).spec_cols()) <==> r is Ok,
            !(b.spec_rows() == self.spec_n() && old(x).spec_rows() == self.spec_n()
                && b.spec_cols() == old(x).spec_cols()) ==> r == Err::<(), MatrixError>(
                MatrixError::DimensionMismatch,
            ) && final(x)@ == old(x)@,
            final(x).wf(),
            final(x).spec_rows() == old(x).spec_rows(),
            final(x).spec_cols() == old(x).spec_cols(),
            r is Ok ==> forall|j: int|
                0 <= j < b.spec_cols() ==> col_of(
                    final(x)@,
                    b.spec_cols(),
                    self.spec_n(),
                    j,
                ) == lu_solve(
                    self.spec_lu(),
                    self.spec_n(),
                    self.spec_index(),
                    col_of(b@, b.spec_cols(), self.spec_n(), j),
                ),
    {
        let n: usize = self.n;
        if b.nrows() != n || x.nrows() != n || b.ncols() != x.ncols() {
            return Err(MatrixError::DimensionMismatch);
        }
        let bcols: usize = b.ncols();

        let mut j: usize = 0;
        while j < bcols
            invariant
                j <= bcols,
                self.wf(),
                b.wf(),
                x.wf(),
                n as int == self.spec_n(),
                b.spec_rows() == n as int,
                b.spec_cols() == bcols as int,
                x.spec_rows() == n as int,
                x.spec_cols() == bcols as int,
                forall|jj: int, i: int|
                    0 <= jj < j && 0 <= i < n ==> #[trigger] entry_of(
                        x@,
                        bcols as int,
                        i,
                        jj,
                    ) == lu_solve(
                        self.spec_lu(),
                        n as int,
                        self.spec_index(),
                        col_of(b@, bcols as int, n as int, jj),
                    )[i],
            decreases bcols - j,
        {
            // Gather column j of b.
            let mut xx: Vector<T> = Vector::new(n);
            let mut i: usize = 0;
            while i < n
                invariant
                    i <= n,
                    j < bcols,
                    b.wf(),
                    b.spec_rows() == n as int,
                    b.spec_cols() == bcols as int,
                    xx@.len() == n,
                    forall|t: int|
                        0 <= t < i ==> xx@[t] == entry_of(b@, bcols as int, t, j as int),
                decreases n - i,
            {
                let bv: T = b.at(i, j);
                xx.set_at(i, bv);
                i = i + 1;
            }
            proof {
                assert(xx@ =~= col_of(b@, bcols as int, n as int, j as int));
            }

            // Solve for this column.
            let mut xx_out: Vector<T> = Vector::new(n);
            let solved: Result<(), MatrixError> = self.solve(&xx, &mut xx_out);
            proof {
                assert(solved is Ok);
            }

            // Scatter the solution into column j of x.
            let ghost colstart: Seq<T> = x@;
            let mut i: usize = 0;
            while i < n
                invariant
                    i <= n,
                    j < bcols,
                    x.wf(),
                    x.spec_rows() == n as int,
                    x.spec_cols() == bcols as int,
                    colstart.len() == (n as int) * (bcols as int),
                    xx_out@.len() == n,
                    forall|p: int|
                        0 <= p < x@.len() ==> x@[p] == (if p % (bcols as int) == j as int && p / (
                        bcols as int) < i {
                            xx_out@[p / (bcols as int)]
                        } else {
                            colstart[p]
                        }),
                decreases n - i,
            {
                let ov: T = xx_out.at(i);
                x.set_at(i, j, ov);
                proof {
                    lemma_flat_coords(bcols as int, i as int, j as int);
                    lemma_row_major_index(i as int, j as int, n as int, bcols as int);
                    assert forall|p: int| 0 <= p < x@.len() implies x@[p] == (if p % (
                    bcols as int) == j as int && p / (bcols as int) < i + 1 {
                        xx_out@[p / (bcols as int)]
                    } else {
                        colstart[p]
                    }) by {
                        lemma_flat_recompose(p, bcols as int);
                    }
                }
                i = i + 1;
            }
            proof {
                assert forall|i: int| 0 <= i < n implies #[trigger] entry_of(
                    x@,
                    bcols as int,
                    i,
                    j as int,
                ) == lu_solve(
                    self.spec_lu(),
                    n as int,
                    self.spec_index(),
                    col_of(b@, bcols as int, n as int, j as int),
                )[i] by {
                    lemma_flat_coords(bcols as int, i, j as int);
                    lemma_row_major_index(i, j as int, n as int, bcols as int);
                }
                assert forall|jj: int, i: int| 0 <= jj < j && 0 <= i < n implies #[trigger] entry_of(
                    x@,
                    bcols as int,
                    i,
                    jj,
                ) == lu_solve(
                    self.spec_lu(),
                    n as int,
                    self.spec_index(),
                    col_of(b@, bcols as int, n as int, jj),
                )[i] by {
                    lemma_flat_coords(bcols as int, i, jj);
                    lemma_row_major_index(i, jj, n as int, bcols as int);
                    assert(entry_of(colstart, bcols as int, i, jj) == entry_of(
                        x@,
                        bcols as int,
                        i,
                        jj,
                    ));
                }
            }
            j = j + 1;
        }
        proof {
            assert forall|jj: int| 0 <= jj < bcols implies col_of(
                x@,
                bcols as int,
                n as int,
                jj,
            ) == lu_solve(
                self.spec_lu(),
                n as int,
                self.spec_index(),
                col_of(b@, bcols as int, n as int, jj),
            ) by {
                lemma_lu_solve_len(
                    self.spec_lu(),
                    n as int,
                    self.spec_index(),
                    col_of(b@, bcols as int, n as int, jj),
                );
                assert(col_of(x@, bcols as int, n as int, jj) =~= lu_solve(
                    self.spec_lu(),
                    n as int,
                    self.spec_index(),
                    col_of(b@, bcols as int, n as int, jj),
                ));
            }
        }
        Ok(())
    }

    /// The inverse, computed by solving against the identity matrix.
    /// It always succeeds once the factorization exists; if a tiny
    /// pivot was substituted during construction the entries are large
    /// but finite rather than an error.
    pub fn inverse(&self, ainv: &mut Matrix<T>)
        requires
            self.wf(),
            old(ainv).wf(),
        ensures
            final(ainv).wf(),
            final(ainv).spec_rows() == self.spec_n(),
            final(ainv).spec_cols() == self.spec_n(),
            forall|j: int|
                0 <= j < self.spec_n() ==> col_of(
                    final(ainv)@,
                    self.spec_n(),
                    self.spec_n(),
                    j,
                ) == lu_solve(
                    self.spec_lu(),
                    self.spec_n(),
                    self.spec_index(),
                    col_of(ident_seq::<T>(self.spec_n()), self.spec_n(), self.spec_n(), j),
                ),
    {
        let n: usize = self.n;
        let total: usize = self.lu.data().len();
        proof {
            assert((n as int) * (n as int) <= usize::MAX);
        }
        let ident: Matrix<T> = Matrix::identity(n);
        proof {
            assert forall|p: int| 0 <= p < ident@.len() implies ident@[p] == ident_seq::<T>(
                n as int,
            )[p] by {
                assert((n as int) > 0) by (nonlinear_arith)
                    requires
                        0 <= p < (n as int) * (n as int),
                ;
                lemma_flat_recompose(p, n as int);
                let pi = p / (n as int);
                let pj = p % (n as int);
                assert(0 <= pi && pi < n as int) by (nonlinear_arith)
                    requires
                        0 <= p < (n as int) * (n as int),
                        p == pi * (n as int) + pj,
                        0 <= pj < (n as int),
                ;
                assert(ident.at_spec(pi, pj) == ident@[p]);
            }
            assert(ident@ =~= ident_seq::<T>(n as int));
        }
        let mut out: Matrix<T> = Matrix::identity(n);
        let solved: Result<(), MatrixError> = self.solve_matrix(&ident, &mut out);
        proof {
            assert(solved is Ok);
        }
        *ainv = out;
    }

    /// The determinant: the parity sign of the row swaps times the
    /// product of the diagonal of the compact factor, accumulated left
    /// to right.
    pub fn det(&self) -> (r: T)
        requires
            self.wf(),
        ensures
            r == diag_prod(self.spec_lu(), self.spec_n(), self.spec_d(), self.spec_n() as nat),
    {
        let n: usize = self.n;
        let mut dd: T = self.d;
        let mut i: usize = 0;
        while i < n
            invariant
                i <= n,
                self.wf(),
                n as int == self.spec_n(),
                dd == diag_prod(self.spec_lu(), n as int, self.spec_d(), i as nat),
            decreases n - i,
        {
            dd = dd.times(self.lu.at(i, i));
            i = i + 1;
        }
        dd
    }

    /// Copies the compact combined factors into the top-left `n` by
    /// `n` block of the caller's matrix, which must have at least `n`
    /// rows and `n` columns; entries outside that block are left
    /// untouched and no computation is performed. A smaller output is
    /// rejected. The readback depends on the stored factorization
    /// alone, so the matrix that was factored is not a parameter.
    pub fn lu_decomposition(&self, x: &mut Matrix<T>) -> (r: Result<(), MatrixError>)
        requires
            self.wf(),
            old(x).wf(),
        ensures
            (old(x).spec_rows() >= self.spec_n() && old(x).spec_cols() >= self.spec_n())
                <==> r is Ok,
            !(old(x).spec_rows() >= self.spec_n() && old(x).spec_cols() >= self.spec_n())
                ==> r == Err::<(), MatrixError>(MatrixError::DimensionMismatch) && final(x)@
                == old(x)@,
            final(x).wf(),
            final(x).spec_rows() == old(x).spec_rows(),
            final(x).spec_cols() == old(x).spec_cols(),
            r is Ok ==> forall|i: int, j: int|
                0 <= i < self.spec_n() && 0 <= j < self.spec_n() ==> #[trigger] entry_of(
                    final(x)@,
                    old(x).spec_cols(),
                    i,
                    j,
                ) == entry_of(self.spec_lu(), self.spec_n(), i, j),
            r is Ok ==> forall|i: int, j: int|
                0 <= i < old(x).spec_rows() && 0 <= j < old(x).spec_cols() && !(i
                    < self.spec_n() && j < self.spec_n()) ==> #[trigger] entry_of(
                    final(x)@,
                    old(x).spec_cols(),
                    i,
                    j,
                ) == entry_of(old(x)@, old(x).spec_cols(), i, j),
    {
        let n: usize = self.n;
        if x.nrows() < n || x.ncols() < n {
            return Err(MatrixError::DimensionMismatch);
        }
        let xr: usize = x.nrows();
        let xc: usize = x.ncols();
        let ghost orig: Seq<T> = x@;
        let mut i: usize = 0;
        while i < n
            invariant
                i <= n,
                self.wf(),
                n as int == self.spec_n(),
                x.wf(),
                x.spec_rows() == xr as int,
                x.spec_cols() == xc as int,
                n <= xr,
                n <= xc,
                orig.len() == (xr as int) * (xc as int),
                forall|p: int|
                    0 <= p < x@.len() ==> x@[p] == (if p / (xc as int) < i && p % (xc as int)
                        < n {
                        entry_of(self.spec_lu(), n as int, p / (xc as int), p % (xc as int))
                    } else {
                        orig[p]
                    }),
            decreases n - i,
        {
            let mut j: usize = 0;
            while j < n
                invariant
                    i < n,
                    j <= n,
                    self.wf(),
                    n as int == self.spec_n(),
                    x.wf(),
                    x.spec_rows() == xr as int,
                    x.spec_cols() == xc as int,
                    n <= xr,
                    n <= xc,
                    orig.len() == (xr as int) * (xc as int),
                    forall|p: int|
                        0 <= p < x@.len() ==> x@[p] == (if (p / (xc as int) < i && p % (
                        xc as int) < n) || (p / (xc as int) == i && p % (xc as int) < j) {
                            entry_of(
                                self.spec_lu(),
                                n as int,
                                p / (xc as int),
                                p % (xc as int),
                            )
                        } else {
                            orig[p]
                        }),
                decreases n - j,
            {
                let v: T = self.lu.at(i, j);
                x.set_at(i, j, v);
                proof {
                    lemma_flat_coords(xc as int, i as int, j as int);
                    lemma_row_major_index(i as int, j as int, xr as int, xc as int);
                    assert forall|p: int| 0 <= p < x@.len() implies x@[p] == (if (p / (
                    xc as int) < i && p % (xc as int) < n) || (p / (xc as int) == i && p % (
                    xc as int) < j + 1) {
                        entry_of(self.spec_lu(), n as int, p / (xc as int), p % (xc as int))
                    } else {
                        orig[p]
                    }) by {
                        lemma_flat_recompose(p, xc as int);
                    }
                }
                j = j + 1;
            }
            i = i + 1;
        }
        proof {
            assert forall|i2: int, j2: int|
                0 <= i2 < self.spec_n() && 0 <= j2 < self.spec_n() implies #[trigger] entry_of(
                x@,
                xc as int,
                i2,
                j2,
            ) == entry_of(self.spec_lu(), self.spec_n(), i2, j2) by {
                lemma_flat_coords(xc as int, i2, j2);
                lemma_row_major_index(i2, j2, xr as int, xc as int);
            }
            assert forall|i2: int, j2: int|
                0 <= i2 < xr && 0 <= j2 < xc && !(i2 < self.spec_n() && j2 < self.spec_n())
                implies #[trigger] entry_of(x@, xc as int, i2, j2) == entry_of(
                orig,
                xc as int,
                i2,
                j2,
            ) by {
                lemma_flat_coords(xc as int, i2, j2);
                lemma_row_major_index(i2, j2, xr as int, xc as int);
            }
        }
        Ok(())
    }
}

/// Law: a factorization whose elimination performed no row swap keeps
/// the positive sign, so its determinant is the plain product of the
/// diagonal of the compact factor.
pub proof fn lemma_det_no_swaps<T: Scalar>(f: LU<T>)
    requires
        f.wf(),
        swap_count(f.spec_index(), f.spec_n() as nat) == 0,
    ensures
        f.spec_d() == T::spec_one(),
        diag_prod(f.spec_lu(), f.spec_n(), f.spec_d(), f.spec_n() as nat) == diag_prod(
            f.spec_lu(),
            f.spec_n(),
            T::spec_one(),
            f.spec_n() as nat,
        ),
{
    LU::lemma_sign_is_swap_parity(f);
}

/// Law: each additional row swap flips the determinant sign exactly
/// once more.
pub proof fn lemma_parity_flip<T: Scalar>(c: nat)
    ensures
        parity_sign::<T>(c + 1) == parity_sign::<T>(c).spec_negate(),
{
}

/// Two cells of the same column in different rows occupy distinct flat
/// positions.
proof fn lemma_row_major_distinct_rows(cols: int, r1: int, r2: int, j: int)
    requires
        0 <= r1,
        0 <= r2,
        r1 != r2,
        0 <= j < cols,
    ensures
        r1 * cols + j != r2 * cols + j,
{
    lemma_fundamental_div_mod_converse(r1 * cols + j, cols, r1, j);
    lemma_fundamental_div_mod_converse(r2 * cols + j, cols, r2, j);
}


} // verus!
