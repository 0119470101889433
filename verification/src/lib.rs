//! Sparse symmetric indefinite `L D Lᵀ` factorization, verified.
//!
//! Factors a symmetric sparse matrix `A = L D Lᵀ`, where `L` is unit lower triangular and `D` is a
//! signed diagonal, and then solves `A x = b`. Since `D` may hold negative entries, this handles
//! indefinite systems (saddle points, shifted eigenvalue problems, quasidefinite systems) and not
//! just positive definite ones. It exposes `D`, so that the inertia of the matrix can be read off
//! its signs.
//!
//! The matrix is given in compressed sparse column form. Only the upper triangle, that is the
//! entries whose row is not above their column's number, is read, so a matrix with both triangles
//! stored is accepted too.
//!
//! No pivoting is performed. The factorization breaks down where an entry of `D` reaches zero
//! ([`LdltError::ZeroPivot`]), and also where cancellation has destroyed one
//! ([`LdltError::NearZeroPivot`]): such a pivot still has a sign, but the sign is rounding noise.
//! A pivot that overflows is a breakdown too, and a stored value that is not finite is refused
//! ([`LdltError::InvalidInput`]).
//! [`SparseLdlt::factor_shifted`] retries with a diagonal shift, and [`SparseLdlt::shift`] says how
//! far the matrix was moved. [`amd`] finds a fill-reducing elimination order for
//! [`SparseLdlt::factor_perm`].
//!
//! Everything is generic over the number type ([`Scalar`]). The contracts fix which operations are
//! applied in which order, so they hold of rounded arithmetic too. What the results mean as real
//! numbers is proved for exact number types ([`ExactScalar`], of which [`Ratio`] is one) in
//! [`laws`].
pub mod csc;
pub mod error;
pub mod exact;
pub mod graph;
pub mod inertia;
pub mod laws;
pub mod ldlt;
pub mod model;
pub mod numeric;
pub mod ordering;
pub mod outcome;
pub mod permute;
pub mod ratio;
pub mod scalar;
pub mod sums;
pub mod symbolic;

pub use crate::error::LdltError;
pub use crate::ldlt::SparseLdlt;
pub use crate::ordering::amd;
pub use crate::outcome::near_zero_pivot_rel;
pub use crate::ratio::Ratio;
pub use crate::scalar::{ExactScalar, Scalar};
