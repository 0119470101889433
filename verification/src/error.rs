//! The failures of factoring and solving.
use vstd::prelude::*;

verus! {

/// Failure modes of the factorization and the solves.
#[derive(Debug, Clone, PartialEq)]
pub enum LdltError<T> {
    /// A zero pivot was hit at this column: the matrix is singular, or the factorization without
    /// pivoting broke down there. A pivot that overflows is such a breakdown too.
    ZeroPivot(usize),
    /// A pivot that is not exactly zero but has lost every significant digit to cancellation: its
    /// magnitude is below [`crate::near_zero_pivot_rel`] times `scale`.
    ///
    /// The sign pattern of `D` is the inertia of the matrix. A pivot of this magnitude still has a
    /// sign, but that sign is rounding noise, and so would be the inertia. Recover by moving off
    /// the near-singular point: shift the matrix, or call
    /// [`crate::SparseLdlt::factor_shifted`], which does that and reports the shift it used.
    NearZeroPivot {
        /// The column at which the pivot collapsed.
        column: usize,
        /// The computed pivot. Its sign is not trustworthy at this magnitude.
        pivot: T,
        /// The largest magnitude of a diagonal entry, which the tolerance is relative to.
        scale: T,
        /// A diagonal shift large enough to clear the breakdown: the square root of the relative
        /// tolerance times `scale`, comfortably outside the tolerance band.
        suggested_shift: T,
    },
    /// The arrays are inconsistent, hold a value that is not finite, or the elimination order is
    /// not a permutation.
    InvalidInput(&'static str),
    /// A right-hand side does not match the order of the factored matrix.
    SizeMismatch {
        /// The order of the factored matrix.
        expected: usize,
        /// The length that was supplied.
        got: usize,
    },
}

/// An [`LdltError`] as the contracts see it.
pub enum Fault<T> {
    /// See [`LdltError::ZeroPivot`].
    ZeroPivot(int),
    /// See [`LdltError::NearZeroPivot`].
    NearZeroPivot { column: int, pivot: T, scale: T, suggested_shift: T },
    /// See [`LdltError::InvalidInput`].
    InvalidInput(Seq<char>),
    /// See [`LdltError::SizeMismatch`].
    SizeMismatch { expected: int, got: int },
}

impl<T> View for LdltError<T> {
    type V = Fault<T>;

    open spec fn view(&self) -> Fault<T> {
        match *self {
            LdltError::ZeroPivot(k) => Fault::ZeroPivot(k as int),
            LdltError::NearZeroPivot {
                column,
                pivot,
                scale,
                suggested_shift,
            } => Fault::NearZeroPivot { column: column as int, pivot, scale, suggested_shift },
            LdltError::InvalidInput(m) => Fault::InvalidInput(m@),
            LdltError::SizeMismatch { expected, got } => Fault::SizeMismatch {
                expected: expected as int,
                got: got as int,
            },
        }
    }
}

} // verus!
