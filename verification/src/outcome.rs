//! What each way of factoring returns: the factorization, or the breakdown that stops it.
use vstd::prelude::*;

use crate::csc;
use crate::error::Fault;
use crate::graph;
use crate::model;
use crate::ordering;
use crate::permute;
use crate::scalar::Scalar;

verus! {

/// The inverse of the relative tolerance below which a pivot counts as destroyed.
///
/// At one in ten trillion, about a thousand times the rounding unit of double precision, a pivot
/// has lost essentially all of its significant digits to cancellation, so its magnitude is
/// meaningless and its sign is rounding noise. Since the sign pattern of `D` is the inertia of the
/// matrix, accepting such a pivot would mean to return an inertia that is noise.
///
/// The threshold is deliberately not configurable: scale the matrix so that the tolerance means
/// what it should mean, or use [`crate::SparseLdlt::factor_shifted`].
pub const NEAR_ZERO_PIVOT_REL_INVERSE: u64 = 10_000_000_000_000;

/// The number of shifts that are tried after a breakdown.
pub const SHIFT_ATTEMPTS: u64 = 8;

/// By how much each of these shifts exceeds the one before.
pub const SHIFT_GROWTH: u64 = 8;

/// What [`near_zero_pivot_rel`] returns.
pub open spec fn tolerance<T: Scalar>() -> T {
    T::over_spec(T::of_u64_spec(1), T::of_u64_spec(NEAR_ZERO_PIVOT_REL_INVERSE))
}

/// The relative tolerance below which a pivot counts as destroyed rather than merely small.
pub fn near_zero_pivot_rel<T: Scalar>() -> (r: T)
    ensures
        r == tolerance::<T>(),
{
    T::over(T::of_u64(1), T::of_u64(NEAR_ZERO_PIVOT_REL_INVERSE))
}

/// A factorization as the contracts see it.
pub struct Factorization<T> {
    /// The factors of the matrix, its rows and columns taken in elimination order.
    pub factors: model::Factors<T>,
    /// The row that is eliminated at each step.
    pub order: Seq<int>,
    /// What was added to the diagonal.
    pub shift: T,
}

/// The numbers `0..n` in order.
pub open spec fn identity(n: int) -> Seq<int> {
    Seq::new(n as nat, |i: int| i)
}

/// Pivot `k` of the matrix.
pub open spec fn pivot_at<T: Scalar>(a: Seq<Seq<(int, T)>>, k: int) -> T {
    model::factors(a, a.len() as int).pivots[k]
}

/// The pivot `d` is destroyed by cancellation, in a matrix whose diagonal has the magnitude
/// `scale`. A matrix without any diagonal gives no scale to compare with.
pub open spec fn is_collapsed<T: Scalar>(d: T, scale: T) -> bool {
    &&& T::less_spec(T::of_u64_spec(0), scale)
    &&& T::less_spec(T::magnitude_spec(d), T::times_spec(tolerance(), scale))
}

/// Pivot `k` is destroyed.
pub open spec fn collapses<T: Scalar>(a: Seq<Seq<(int, T)>>, k: int) -> bool {
    !T::is_zero_spec(pivot_at(a, k)) && is_collapsed(pivot_at(a, k), csc::scale(a, a.len() as int))
}

/// The elimination stops at column `k`: the pivot is zero, or, where it is to stop there too, the
/// pivot is not finite or is destroyed.
pub open spec fn breaks<T: Scalar>(a: Seq<Seq<(int, T)>>, strict: bool, k: int) -> bool {
    T::is_zero_spec(pivot_at(a, k)) || (strict && (!T::is_finite_spec(pivot_at(a, k)) || collapses(
        a,
        k,
    )))
}

/// The first column from `k` on at which the elimination stops; the number of columns where there
/// is none.
pub open spec fn first_break<T: Scalar>(a: Seq<Seq<(int, T)>>, strict: bool, k: int) -> int
    decreases a.len() - k,
{
    if k >= a.len() {
        a.len() as int
    } else if breaks(a, strict, k) {
        k
    } else {
        first_break(a, strict, k + 1)
    }
}

/// No pivot overflows, up to and with the one at which the elimination stops.
pub open spec fn stays_finite<T: Scalar>(a: Seq<Seq<(int, T)>>, strict: bool) -> bool {
    forall|k: int|
        0 <= k < a.len() && k <= first_break(a, strict, 0) ==> T::is_finite_spec(
            #[trigger] pivot_at(a, k),
        )
}

/// The columns below `k` whose pivots are destroyed, ascending.
pub open spec fn collapsed_columns<T: Scalar>(a: Seq<Seq<(int, T)>>, k: int) -> Seq<int>
    decreases k,
{
    if k <= 0 {
        Seq::empty()
    } else if collapses(a, k - 1) {
        collapsed_columns(a, k - 1).push(k - 1)
    } else {
        collapsed_columns(a, k - 1)
    }
}

/// The shift that is suggested for a matrix whose diagonal has the magnitude `scale`.
pub open spec fn suggested_shift<T: Scalar>(scale: T) -> T {
    T::times_spec(T::root_spec(tolerance()), scale)
}

/// The breakdown at column `k`. A pivot that is not finite leaves nothing to divide by, as a zero
/// pivot does.
pub open spec fn fault_at<T: Scalar>(a: Seq<Seq<(int, T)>>, k: int) -> Fault<T> {
    if T::is_zero_spec(pivot_at(a, k)) || !T::is_finite_spec(pivot_at(a, k)) {
        Fault::ZeroPivot(k)
    } else {
        let scale = csc::scale(a, a.len() as int);
        Fault::NearZeroPivot {
            column: k,
            pivot: pivot_at(a, k),
            scale,
            suggested_shift: suggested_shift(scale),
        }
    }
}

/// Factoring the matrix `a` in its own order.
pub open spec fn factored<T: Scalar>(a: Seq<Seq<(int, T)>>, strict: bool) -> Result<
    Factorization<T>,
    Fault<T>,
> {
    let k = first_break(a, strict, 0);
    if k < a.len() {
        Err(fault_at(a, k))
    } else {
        Ok(
            Factorization {
                factors: model::factors(a, a.len() as int),
                order: identity(a.len() as int),
                shift: T::of_u64_spec(0),
            },
        )
    }
}

/// What is wrong with the elimination order, `None` where nothing is.
pub open spec fn order_defect(n: int, order: Seq<int>) -> Option<Seq<char>> {
    if order.len() != n {
        Some("order length must be n"@)
    } else if !ordering::is_permutation(n, order) {
        Some("order must be a permutation of 0..n"@)
    } else {
        None
    }
}

/// The failure that a value that is not finite causes.
pub open spec fn overflow_fault<T>() -> Fault<T> {
    Fault::InvalidInput("values contain a non-finite entry (NaN or infinity)"@)
}

/// Factoring the matrix `a` with its rows and columns taken in the given order.
pub open spec fn factored_in_order<T: Scalar>(a: Seq<Seq<(int, T)>>, order: Seq<int>) -> Result<
    Factorization<T>,
    Fault<T>,
> {
    let b = permute::permuted(a, order);
    if permute::has_overflow(b) {
        Err(overflow_fault())
    } else {
        match factored(b, true) {
            Ok(f) => Ok(Factorization { factors: f.factors, order, shift: f.shift }),
            Err(e) => Err(e),
        }
    }
}

/// Factoring the matrix `a`, in the given order or in its own.
pub open spec fn attempt<T: Scalar>(a: Seq<Seq<(int, T)>>, order: Option<Seq<int>>) -> Result<
    Factorization<T>,
    Fault<T>,
> {
    match order {
        Some(order) => factored_in_order(a, order),
        None => factored(a, true),
    }
}

/// Factoring the matrix `a` with `shift` added to its diagonal.
pub open spec fn attempt_shifted<T: Scalar>(
    a: Seq<Seq<(int, T)>>,
    order: Option<Seq<int>>,
    shift: T,
) -> Result<Factorization<T>, Fault<T>> {
    if !T::is_finite_spec(shift) {
        Err(overflow_fault())
    } else {
        match attempt(permute::shifted(a, shift), order) {
            Ok(f) => Ok(Factorization { factors: f.factors, order: f.order, shift }),
            Err(e) => Err(e),
        }
    }
}

/// Factoring with the shifts `shift`, `8 * shift`, .., `left` of them at most, after `last` failed.
pub open spec fn retried<T: Scalar>(
    a: Seq<Seq<(int, T)>>,
    order: Option<Seq<int>>,
    shift: T,
    left: int,
    last: Fault<T>,
) -> Result<Factorization<T>, Fault<T>>
    decreases left,
{
    if left <= 0 {
        Err(last)
    } else {
        match attempt_shifted(a, order, shift) {
            Ok(f) => Ok(f),
            Err(e) => retried(
                a,
                order,
                T::times_spec(shift, T::of_u64_spec(SHIFT_GROWTH)),
                left - 1,
                e,
            ),
        }
    }
}

/// The first shift to try after a breakdown; `None` after a failure that no shift can mend.
pub open spec fn first_shift<T: Scalar>(a: Seq<Seq<(int, T)>>, fault: Fault<T>) -> Option<T> {
    match fault {
        Fault::NearZeroPivot { suggested_shift, .. } => Some(suggested_shift),
        Fault::ZeroPivot(_) => Some(suggested_shift(csc::scale(a, a.len() as int))),
        _ => None,
    }
}

/// Factoring the matrix `a`, and after a breakdown the matrix with growing shifts. A matrix
/// without any diagonal gives no scale to shift by, so its breakdown stands.
pub open spec fn factored_with_retry<T: Scalar>(
    a: Seq<Seq<(int, T)>>,
    order: Option<Seq<int>>,
) -> Result<Factorization<T>, Fault<T>> {
    match attempt(a, order) {
        Ok(f) => Ok(f),
        Err(fault) => match first_shift(a, fault) {
            Some(shift) => if T::less_spec(T::of_u64_spec(0), shift) {
                retried(a, order, shift, SHIFT_ATTEMPTS as int, fault)
            } else {
                Err(fault)
            },
            None => Err(fault),
        },
    }
}

/// The right-hand side `b` of row `r`, less the products of the first `j` entries of the row of
/// `L` with the solution of `L z = b`.
pub open spec fn forward<T: Scalar>(f: model::Factors<T>, b: Seq<T>, r: int, j: int) -> T
    decreases j,
{
    if j <= 0 {
        b[r]
    } else {
        let rest = forward(f, b, r, j - 1);
        match (f.lower)(r, j - 1) {
            Some(l) => T::minus_spec(rest, T::times_spec(l, forward(f, b, j - 1, j - 1))),
            None => rest,
        }
    }
}

/// The right-hand side `w` of row `j`, less the products of the entries of column `j` of `L` in
/// the rows below `r` with the solution of `Lᵀ x = w`.
pub open spec fn backward<T: Scalar>(f: model::Factors<T>, w: Seq<T>, j: int, r: int) -> T
    decreases w.len() - j, r - j,
{
    if r <= j + 1 || r > w.len() {
        w[j]
    } else {
        let rest = backward(f, w, j, r - 1);
        match (f.lower)(r - 1, j) {
            Some(l) => T::minus_spec(
                rest,
                T::times_spec(l, backward(f, w, r - 1, w.len() as int)),
            ),
            None => rest,
        }
    }
}

/// The solution of `L D Lᵀ x = b`: a forward substitution, a division by the pivots and a backward
/// substitution.
pub open spec fn substituted<T: Scalar>(f: model::Factors<T>, b: Seq<T>) -> Seq<T> {
    let n = f.pivots.len();
    let w = Seq::new(n, |k: int| T::over_spec(forward(f, b, k, k), f.pivots[k]));
    Seq::new(n, |k: int| backward(f, w, k, n as int))
}

/// The solution of the factored system: the right-hand side is taken in elimination order, and the
/// solution is put back.
pub open spec fn solution<T: Scalar>(f: Factorization<T>, b: Seq<T>) -> Seq<T> {
    let n = f.factors.pivots.len();
    let x = substituted(f.factors, Seq::new(n, |k: int| b[f.order[k]]));
    Seq::new(n, |i: int| x[f.order.index_of(i)])
}

/// The number of entries of column `i` of `L`.
pub open spec fn column_count<T>(f: model::Factors<T>, i: int) -> int {
    graph::count(f.pivots.len() as int, |r: int| (f.lower)(r, i) is Some)
}

/// The number of entries of the first `k` columns of `L`.
pub open spec fn entry_count<T>(f: model::Factors<T>, k: int) -> int
    decreases k,
{
    if k <= 0 {
        0
    } else {
        entry_count(f, k - 1) + column_count(f, k - 1)
    }
}

/// The number of arithmetic operations that the first `k` columns of `L` take: `c * c + 3 * c` for
/// a column of `c` entries.
pub open spec fn flop_count<T>(f: model::Factors<T>, k: int) -> int
    decreases k,
{
    if k <= 0 {
        0
    } else {
        let c = column_count(f, k - 1);
        flop_count(f, k - 1) + (c * c + 3 * c)
    }
}

} // verus!
