use vstd::prelude::*;

verus! {

/// Arithmetic interface of the element type that the containers and the
/// LU engine work over.
///
/// Each executable operation is tied by its `ensures` to a spec-level
/// counterpart, and every contract of this crate describes matrix and
/// vector contents through those spec functions. The `i64`
/// implementation below is verified against its spec functions
/// (wrapping arithmetic, division rounding toward zero and yielding
/// zero when undefined). An implementation supplied by a caller of this
/// crate — for example a wrapper around a floating-point type — is
/// compiled without verification, so for such a type the contracts of
/// this crate hold exactly as far as its operations match their own
/// spec counterparts.
pub trait Scalar: Sized + Copy {
    /// The additive identity; containers zero-fill with it.
    spec fn spec_zero() -> Self;

    /// The multiplicative identity.
    spec fn spec_one() -> Self;

    /// The small nonzero value substituted for a pivot of exactly zero
    /// magnitude during elimination.
    spec fn spec_tiny() -> Self;

    spec fn spec_plus(self, rhs: Self) -> Self;

    spec fn spec_minus(self, rhs: Self) -> Self;

    spec fn spec_times(self, rhs: Self) -> Self;

    spec fn spec_divided_by(self, rhs: Self) -> Self;

    spec fn spec_negate(self) -> Self;

    /// The magnitude used by the pivot-selection scans.
    spec fn spec_abs(self) -> Self;

    spec fn spec_less(self, rhs: Self) -> bool;

    spec fn spec_geq(self, rhs: Self) -> bool;

    /// Whether the value compares equal to zero under the type's own
    /// equality (which may identify more values than structural
    /// equality does).
    spec fn spec_is_zero(self) -> bool;

    fn zero() -> (r: Self)
        ensures
            r == Self::spec_zero(),
    ;

    fn one() -> (r: Self)
        ensures
            r == Self::spec_one(),
    ;

    fn tiny() -> (r: Self)
        ensures
            r == Self::spec_tiny(),
    ;

    fn plus(self, rhs: Self) -> (r: Self)
        ensures
            r == self.spec_plus(rhs),
    ;

    fn minus(self, rhs: Self) -> (r: Self)
        ensures
            r == self.spec_minus(rhs),
    ;

    fn times(self, rhs: Self) -> (r: Self)
        ensures
            r == self.spec_times(rhs),
    ;

    fn divided_by(self, rhs: Self) -> (r: Self)
        ensures
            r == self.spec_divided_by(rhs),
    ;

    fn negate(self) -> (r: Self)
        ensures
            r == self.spec_negate(),
    ;

    fn abs(self) -> (r: Self)
        ensures
            r == self.spec_abs(),
    ;

    fn lt(self, rhs: Self) -> (r: bool)
        ensures
            r == self.spec_less(rhs),
    ;

    fn ge(self, rhs: Self) -> (r: bool)
        ensures
            r == self.spec_geq(rhs),
    ;

    fn is_zero(self) -> (r: bool)
        ensures
            r == self.spec_is_zero(),
    ;
}

impl Scalar for i64 {
    open spec fn spec_zero() -> i64 {
        0
    }

    open spec fn spec_one() -> i64 {
        1
    }

    open spec fn spec_tiny() -> i64 {
        1
    }

    open spec fn spec_plus(self, rhs: i64) -> i64 {
        self.wrapping_add(rhs)
    }

    open spec fn spec_minus(self, rhs: i64) -> i64 {
        self.wrapping_sub(rhs)
    }

    open spec fn spec_times(self, rhs: i64) -> i64 {
        self.wrapping_mul(rhs)
    }

    open spec fn spec_divided_by(self, rhs: i64) -> i64 {
        match self.checked_div(rhs) {
            Some(q) => q,
            None => 0,
        }
    }

    open spec fn spec_negate(self) -> i64 {
        (0i64).wrapping_sub(self)
    }

    open spec fn spec_abs(self) -> i64 {
        if self < 0 {
            (0i64).wrapping_sub(self)
        } else {
            self
        }
    }

    open spec fn spec_less(self, rhs: i64) -> bool {
        self < rhs
    }

    open spec fn spec_geq(self, rhs: i64) -> bool {
        self >= rhs
    }

    open spec fn spec_is_zero(self) -> bool {
        self == 0
    }

    fn zero() -> i64 {
        0
    }

    fn one() -> i64 {
        1
    }

    fn tiny() -> i64 {
        1
    }

    fn plus(self, rhs: i64) -> i64 {
        self.wrapping_add(rhs)
    }

    fn minus(self, rhs: i64) -> i64 {
        self.wrapping_sub(rhs)
    }

    fn times(self, rhs: i64) -> i64 {
        self.wrapping_mul(rhs)
    }

    fn divided_by(self, rhs: i64) -> i64 {
        match self.checked_div(rhs) {
            Some(q) => q,
            None => 0,
        }
    }

    fn negate(self) -> i64 {
        (0i64).wrapping_sub(self)
    }

    fn abs(self) -> i64 {
        if self < 0 {
            (0i64).wrapping_sub(self)
        } else {
            self
        }
    }

    fn lt(self, rhs: i64) -> bool {
        self < rhs
    }

    fn ge(self, rhs: i64) -> bool {
        self >= rhs
    }

    fn is_zero(self) -> bool {
        self == 0
    }
}

} // verus!
