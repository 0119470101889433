//! The arithmetic that the factorization is written against.
//!
//! Every algorithm of this crate is generic over [`Scalar`], a handful of primitive operations.
//! The contracts name the result of each operation by a spec function of the scalar type, so a
//! contract such as that of `SparseLdlt::factor` fixes which operations are applied to which
//! operands in which order: it holds of rounded arithmetic just as it holds of exact arithmetic.
//!
//! [`ExactScalar`] marks the scalar types whose operations are exact whenever their result is
//! finite. What the factors mean as real matrices is stated and proved for those.
use vstd::prelude::*;

verus! {

/// A number type: the operations that factoring and solving need.
///
/// An operation never fails. A type that cannot represent a result answers with a value that is
/// not finite. A matrix that stores such a value is refused, and an elimination that comes to a pivot
/// that is not finite has broken down.
pub trait Scalar: Copy {
    /// What [`Scalar::of_u64`] returns.
    spec fn of_u64_spec(n: u64) -> Self;

    /// What [`Scalar::plus`] returns.
    spec fn plus_spec(a: Self, b: Self) -> Self;

    /// What [`Scalar::minus`] returns.
    spec fn minus_spec(a: Self, b: Self) -> Self;

    /// What [`Scalar::times`] returns.
    spec fn times_spec(a: Self, b: Self) -> Self;

    /// What [`Scalar::over`] returns.
    spec fn over_spec(a: Self, b: Self) -> Self;

    /// What [`Scalar::magnitude`] returns.
    spec fn magnitude_spec(a: Self) -> Self;

    /// What [`Scalar::larger`] returns.
    spec fn larger_spec(a: Self, b: Self) -> Self;

    /// What [`Scalar::root`] returns.
    spec fn root_spec(a: Self) -> Self;

    /// What [`Scalar::less`] returns.
    spec fn less_spec(a: Self, b: Self) -> bool;

    /// What [`Scalar::is_zero`] returns.
    spec fn is_zero_spec(a: Self) -> bool;

    /// What [`Scalar::is_finite`] returns.
    spec fn is_finite_spec(a: Self) -> bool;

    /// The whole number `n`.
    fn of_u64(n: u64) -> (r: Self)
        ensures
            r == Self::of_u64_spec(n),
    ;

    /// The sum `a + b`.
    fn plus(a: Self, b: Self) -> (r: Self)
        ensures
            r == Self::plus_spec(a, b),
    ;

    /// The difference `a - b`.
    fn minus(a: Self, b: Self) -> (r: Self)
        ensures
            r == Self::minus_spec(a, b),
    ;

    /// The product `a * b`.
    fn times(a: Self, b: Self) -> (r: Self)
        ensures
            r == Self::times_spec(a, b),
    ;

    /// The quotient `a / b`.
    fn over(a: Self, b: Self) -> (r: Self)
        ensures
            r == Self::over_spec(a, b),
    ;

    /// The absolute value of `a`.
    fn magnitude(a: Self) -> (r: Self)
        ensures
            r == Self::magnitude_spec(a),
    ;

    /// The larger of `a` and `b`.
    fn larger(a: Self, b: Self) -> (r: Self)
        ensures
            r == Self::larger_spec(a, b),
    ;

    /// The square root of `a`, as closely as the type can represent it.
    fn root(a: Self) -> (r: Self)
        ensures
            r == Self::root_spec(a),
    ;

    /// Whether `a < b`.
    fn less(a: Self, b: Self) -> (r: bool)
        ensures
            r == Self::less_spec(a, b),
    ;

    /// Whether `a` is zero.
    fn is_zero(a: Self) -> (r: bool)
        ensures
            r == Self::is_zero_spec(a),
    ;

    /// Whether `a` stands for a number at all, as opposed to an overflow or an undefined result.
    fn is_finite(a: Self) -> (r: bool)
        ensures
            r == Self::is_finite_spec(a),
    ;
}

/// A scalar type whose operations are exact: a finite result of an operation has finite operands
/// and the value that real arithmetic gives.
pub trait ExactScalar: Scalar {
    /// The real number that a finite scalar stands for.
    spec fn value(a: Self) -> real;

    /// Zero is finite and has the value zero.
    proof fn zero_is_exact()
        ensures
            Self::is_finite_spec(Self::of_u64_spec(0)),
            Self::value(Self::of_u64_spec(0)) == 0real,
    ;

    /// A whole number that can be represented has its own value.
    proof fn of_u64_is_exact(n: u64)
        requires
            Self::is_finite_spec(Self::of_u64_spec(n)),
        ensures
            Self::value(Self::of_u64_spec(n)) == n as real,
    ;

    /// A finite sum is exact.
    proof fn plus_is_exact(a: Self, b: Self)
        requires
            Self::is_finite_spec(Self::plus_spec(a, b)),
        ensures
            Self::is_finite_spec(a),
            Self::is_finite_spec(b),
            Self::value(Self::plus_spec(a, b)) == Self::value(a) + Self::value(b),
    ;

    /// A finite difference is exact.
    proof fn minus_is_exact(a: Self, b: Self)
        requires
            Self::is_finite_spec(Self::minus_spec(a, b)),
        ensures
            Self::is_finite_spec(a),
            Self::is_finite_spec(b),
            Self::value(Self::minus_spec(a, b)) == Self::value(a) - Self::value(b),
    ;

    /// A finite product is exact.
    proof fn times_is_exact(a: Self, b: Self)
        requires
            Self::is_finite_spec(Self::times_spec(a, b)),
        ensures
            Self::is_finite_spec(a),
            Self::is_finite_spec(b),
            Self::value(Self::times_spec(a, b)) == Self::value(a) * Self::value(b),
    ;

    /// A finite quotient is exact, and its divisor is not zero.
    proof fn over_is_exact(a: Self, b: Self)
        requires
            Self::is_finite_spec(Self::over_spec(a, b)),
        ensures
            Self::is_finite_spec(a),
            Self::is_finite_spec(b),
            Self::value(b) != 0real,
            Self::value(Self::over_spec(a, b)) == Self::value(a) / Self::value(b),
    ;

    /// The magnitude of a finite scalar is finite and exact.
    proof fn magnitude_is_exact(a: Self)
        requires
            Self::is_finite_spec(a),
        ensures
            Self::is_finite_spec(Self::magnitude_spec(a)),
            Self::value(Self::magnitude_spec(a)) == if Self::value(a) < 0real {
                -Self::value(a)
            } else {
                Self::value(a)
            },
    ;

    /// The larger of two finite scalars is finite and has the larger value.
    proof fn larger_is_exact(a: Self, b: Self)
        requires
            Self::is_finite_spec(a),
            Self::is_finite_spec(b),
        ensures
            Self::is_finite_spec(Self::larger_spec(a, b)),
            Self::value(Self::larger_spec(a, b)) == if Self::value(a) < Self::value(b) {
                Self::value(b)
            } else {
                Self::value(a)
            },
    ;

    /// A finite scalar tests as zero exactly where its value is zero.
    proof fn is_zero_is_exact(a: Self)
        requires
            Self::is_finite_spec(a),
        ensures
            Self::is_zero_spec(a) <==> Self::value(a) == 0real,
    ;

    /// Finite scalars are ordered as their values are.
    proof fn less_is_exact(a: Self, b: Self)
        requires
            Self::is_finite_spec(a),
            Self::is_finite_spec(b),
        ensures
            Self::less_spec(a, b) <==> Self::value(a) < Self::value(b),
    ;
}

} // verus!
