//! What is read from the arrays, what is refused, and how results are seen by the contracts.
use vstd::prelude::*;

use crate::csc;
use crate::error::{Fault, LdltError};
use crate::ldlt;
use crate::ordering;
use crate::outcome;
use crate::scalar::Scalar;
use crate::SparseLdlt;

verus! {

/// Standing on or above the diagonal of column `k`.
pub open spec fn up_to<T>(k: int) -> spec_fn((int, T)) -> bool {
    |e: (int, T)| e.0 <= k
}

/// The entries at the indices `lo..hi`, each a row with its value.
pub open spec fn entries<T>(row_idx: Seq<usize>, values: Seq<T>, lo: int, hi: int) -> Seq<(int, T)> {
    Seq::new((hi - lo) as nat, |t: int| (row_idx[lo + t] as int, values[lo + t]))
}

proof fn lemma_column<T>(row_idx: Seq<usize>, values: Seq<T>, k: int, lo: int, hi: int)
    requires
        lo <= hi,
    ensures
        csc::column(row_idx, values, k, lo, hi) == entries(row_idx, values, lo, hi).filter(
            up_to(k),
        ),
    decreases hi - lo,
{
    reveal(Seq::filter);
    let es = entries(row_idx, values, lo, hi);
    if lo < hi {
        lemma_column(row_idx, values, k, lo, hi - 1);
        assert(es.drop_last() =~= entries(row_idx, values, lo, hi - 1));
        assert(es.last() == (row_idx[hi - 1] as int, values[hi - 1]));
    } else {
        assert(es =~= Seq::empty());
        assert(csc::column(row_idx, values, k, lo, hi) =~= es.filter(up_to(k)));
    }
}

/// The matrix that is read has, in column `k`, the entries of the range of that column whose rows
/// are not beyond the diagonal, all of them and in their order.
pub proof fn law_matrix_is_what_the_arrays_store<T>(
    n: int,
    col_ptr: Seq<usize>,
    row_idx: Seq<usize>,
    values: Seq<T>,
)
    requires
        n >= 0,
        forall|k: int| 0 <= k < n ==> #[trigger] col_ptr[k] <= col_ptr[k + 1],
    ensures
        csc::upper(n, col_ptr, row_idx, values).len() == n,
        forall|k: int|
            0 <= k < n ==> #[trigger] csc::upper(n, col_ptr, row_idx, values)[k] == entries(
                row_idx,
                values,
                col_ptr[k] as int,
                col_ptr[k + 1] as int,
            ).filter(up_to(k)),
        csc::is_upper(csc::upper(n, col_ptr, row_idx, values)),
{
    csc::lemma_upper_is_upper(n, col_ptr, row_idx, values);
    assert forall|k: int| 0 <= k < n implies #[trigger] csc::upper(
        n,
        col_ptr,
        row_idx,
        values,
    )[k] == entries(row_idx, values, col_ptr[k] as int, col_ptr[k + 1] as int).filter(
        up_to(k),
    ) by {
        assert(col_ptr[k] <= col_ptr[k + 1]);
        lemma_column(row_idx, values, k, col_ptr[k] as int, col_ptr[k + 1] as int);
    }
}

/// Arrays are accepted exactly where they describe columns of finite values, and are otherwise
/// refused for the first of these reasons that applies.
pub proof fn law_arrays_are_refused_for_a_reason<T: Scalar>(
    n: int,
    col_ptr: Seq<usize>,
    row_idx: Seq<usize>,
    values: Seq<T>,
)
    requires
        n >= 0,
    ensures
        ({
            let lengths = col_ptr.len() == n + 1;
            let parallel = row_idx.len() == values.len();
            let ends = col_ptr[n] == row_idx.len();
            let ascends = forall|k: int| 0 <= k < n ==> #[trigger] col_ptr[k] <= col_ptr[k + 1];
            let in_range = forall|p: int| 0 <= p < row_idx.len() ==> #[trigger] row_idx[p] < n;
            let finite = forall|p: int|
                0 <= p < values.len() ==> T::is_finite_spec(#[trigger] values[p]);
            let d = csc::defect(n, col_ptr, row_idx, values);
            &&& d is None <==> lengths && parallel && ends && ascends && in_range && finite
            &&& !lengths ==> d == Some("col_ptr length must be n + 1"@)
            &&& lengths && !parallel ==> d == Some("row_idx and values length mismatch"@)
            &&& lengths && parallel && !ends ==> d == Some(
                "col_ptr[n] must equal the nonzero count"@,
            )
            &&& lengths && parallel && ends && !ascends ==> d == Some(
                "col_ptr must be non-decreasing"@,
            )
            &&& lengths && parallel && ends && ascends && !in_range ==> d == Some(
                "row index out of range"@,
            )
            &&& lengths && parallel && ends && ascends && in_range && !finite ==> d == Some(
                "values contain a non-finite entry (NaN or infinity)"@,
            )
        }),
{
}

/// An elimination order is accepted exactly where it lists each row once.
pub proof fn law_orders_are_refused_for_a_reason(n: int, order: Seq<int>)
    requires
        n >= 0,
    ensures
        outcome::order_defect(n, order) is None <==> order.len() == n && order.no_duplicates()
            && forall|k: int| 0 <= k < order.len() ==> 0 <= #[trigger] order[k] < n,
        order.len() != n ==> outcome::order_defect(n, order) == Some("order length must be n"@),
        order.len() == n && outcome::order_defect(n, order) is Some ==> outcome::order_defect(
            n,
            order,
        ) == Some("order must be a permutation of 0..n"@),
{
    if outcome::order_defect(n, order) is None {
        assert forall|k: int| 0 <= k < order.len() implies 0 <= #[trigger] order[k] < n by {
            assert(order.contains(order[k]));
        }
    }
    if order.len() == n && order.no_duplicates() && forall|k: int|
        0 <= k < order.len() ==> 0 <= #[trigger] order[k] < n {
        crate::permute::lemma_distinct_is_permutation(n, order);
    }
}

/// The graph of the arrays joins two nodes exactly where the column of the larger one stores the
/// row of the smaller one.
pub proof fn law_graph_is_that_of_the_stored_rows(
    n: int,
    col_ptr: Seq<usize>,
    row_idx: Seq<usize>,
    u: int,
    v: int,
)
    ensures
        csc::pattern_graph(n, col_ptr, row_idx)(u, v) <==> {
            let lo = if u < v {
                u
            } else {
                v
            };
            let hi = if u < v {
                v
            } else {
                u
            };
            &&& 0 <= lo < hi < n
            &&& exists|p: int| col_ptr[hi] <= p < col_ptr[hi + 1] && #[trigger] row_idx[p] == lo
        },
{
}

/// The contracts see results as they are: a success by its factors, and a failure by its kind with
/// every number that it carries.
pub proof fn law_results_are_seen_as_they_are<T: Scalar>(
    r: Result<SparseLdlt<T>, LdltError<T>>,
)
    ensures
        match r {
            Ok(f) => ldlt::result_view(r) == Ok::<_, Fault<T>>(f@),
            Err(LdltError::ZeroPivot(k)) => ldlt::result_view(r) == Err::<
                outcome::Factorization<T>,
                _,
            >(Fault::<T>::ZeroPivot(k as int)),
            Err(
                LdltError::NearZeroPivot { column, pivot, scale, suggested_shift },
            ) => ldlt::result_view(r) == Err::<outcome::Factorization<T>, _>(
                (Fault::NearZeroPivot { column: column as int, pivot, scale, suggested_shift }),
            ),
            Err(LdltError::InvalidInput(m)) => ldlt::result_view(r) == Err::<
                outcome::Factorization<T>,
                _,
            >(Fault::<T>::InvalidInput(m@)),
            Err(LdltError::SizeMismatch { expected, got }) => ldlt::result_view(r) == Err::<
                outcome::Factorization<T>,
                _,
            >((Fault::<T>::SizeMismatch { expected: expected as int, got: got as int })),
        },
{
}

/// The numbers of an order are seen as they are.
pub proof fn law_orders_are_seen_as_they_are(order: Seq<usize>)
    ensures
        ordering::ints(order).len() == order.len(),
        forall|k: int| 0 <= k < order.len() ==> #[trigger] ordering::ints(order)[k] == order[k],
{
}

} // verus!
