//! Which pivots a factorization can have, and what happens where it has to stop.
//!
//! These laws hold of every scalar type, whether it rounds or not.
use vstd::prelude::*;

use crate::csc;
use crate::error::Fault;
use crate::exact;
use crate::model;
use crate::outcome;
use crate::permute;
use crate::scalar::Scalar;

verus! {

/// The first column at which the elimination stops is one at which it does.
pub proof fn lemma_first_break<T: Scalar>(a: Seq<Seq<(int, T)>>, strict: bool, k: int)
    requires
        0 <= k <= a.len(),
    ensures
        k <= outcome::first_break(a, strict, k) <= a.len(),
        outcome::first_break(a, strict, k) < a.len() ==> outcome::breaks(
            a,
            strict,
            outcome::first_break(a, strict, k),
        ),
        forall|i: int|
            k <= i < outcome::first_break(a, strict, k) ==> !#[trigger] outcome::breaks(
                a,
                strict,
                i,
            ),
    decreases a.len() - k,
{
    if k < a.len() && !outcome::breaks(a, strict, k) {
        lemma_first_break(a, strict, k + 1);
    }
}

/// A pivot that is zero, destroyed or not finite is never returned: a matrix is factored exactly
/// where none of its pivots is any of these.
pub proof fn law_every_returned_pivot_is_sound<T: Scalar>(a: Seq<Seq<(int, T)>>)
    ensures
        outcome::factored(a, true) is Ok <==> forall|k: int|
            0 <= k < a.len() ==> T::is_finite_spec(#[trigger] outcome::pivot_at(a, k))
                && !T::is_zero_spec(outcome::pivot_at(a, k)) && !outcome::is_collapsed(
                outcome::pivot_at(a, k),
                csc::scale(a, a.len() as int),
            ),
{
    lemma_first_break(a, true, 0);
    let k = outcome::first_break(a, true, 0);
    if outcome::factored(a, true) is Ok {
        assert forall|i: int| 0 <= i < a.len() implies T::is_finite_spec(
            #[trigger] outcome::pivot_at(a, i),
        ) && !T::is_zero_spec(outcome::pivot_at(a, i)) && !outcome::is_collapsed(
            outcome::pivot_at(a, i),
            csc::scale(a, a.len() as int),
        ) by {
            assert(!outcome::breaks(a, true, i));
        }
    } else {
        assert(outcome::breaks(a, true, k));
        let d = outcome::pivot_at(a, k);
        assert(!T::is_finite_spec(d) || T::is_zero_spec(d) || outcome::is_collapsed(
            d,
            csc::scale(a, a.len() as int),
        ));
    }
}

/// The numbers never run out of range unseen: every pivot of a factorization that stops at
/// breakdowns is finite.
pub proof fn law_success_means_finite_pivots<T: Scalar>(
    a: Seq<Seq<(int, T)>>,
    f: outcome::Factorization<T>,
)
    requires
        csc::is_upper(a),
        outcome::factored(a, true) == Ok::<_, Fault<T>>(f),
    ensures
        exact::all_finite(f.factors.pivots),
        outcome::stays_finite(a, true),
{
    model::lemma_factors_shape(a, a.len() as int);
    lemma_first_break(a, true, 0);
    assert forall|k: int| 0 <= k < f.factors.pivots.len() implies T::is_finite_spec(
        #[trigger] f.factors.pivots[k],
    ) by {
        assert(!outcome::breaks(a, true, k));
    }
    assert forall|k: int| 0 <= k < a.len() implies T::is_finite_spec(
        #[trigger] outcome::pivot_at(a, k),
    ) by {
        assert(T::is_finite_spec(f.factors.pivots[k]));
    }
}

/// The breakdown that is reported is the first one: no pivot before its column stops the
/// elimination.
pub proof fn law_first_breakdown_is_reported<T: Scalar>(a: Seq<Seq<(int, T)>>, fault: Fault<T>)
    requires
        outcome::factored(a, true) == Err::<outcome::Factorization<T>, _>(fault),
    ensures
        exists|k: int|
            0 <= k < a.len() && fault == #[trigger] outcome::fault_at(a, k) && outcome::breaks(
                a,
                true,
                k,
            ) && forall|i: int| 0 <= i < k ==> !#[trigger] outcome::breaks(a, true, i),
{
    lemma_first_break(a, true, 0);
    let k = outcome::first_break(a, true, 0);
    assert(fault == outcome::fault_at(a, k));
}

/// A matrix that was read fails at a pivot or not at all: [`Fault::InvalidInput`] is kept for what
/// cannot be read. The one exception is that the entries of one place, taken in another order, may
/// add up to a value that is not finite.
pub proof fn law_a_matrix_fails_at_a_pivot<T: Scalar>(
    a: Seq<Seq<(int, T)>>,
    order: Option<Seq<int>>,
    strict: bool,
)
    ensures
        outcome::factored(a, strict) matches Err(fault) ==> fault is ZeroPivot
            || fault is NearZeroPivot,
        outcome::attempt(a, order) matches Err(fault) ==> match order {
            Some(order) => if permute::has_overflow(permute::permuted(a, order)) {
                fault == outcome::overflow_fault::<T>()
            } else {
                fault is ZeroPivot || fault is NearZeroPivot
            },
            None => fault is ZeroPivot || fault is NearZeroPivot,
        },
{
}

/// The reported columns are exactly those whose pivots are destroyed, in ascending order.
pub proof fn law_collapsed_columns_are_all_of_them<T: Scalar>(a: Seq<Seq<(int, T)>>, k: int)
    requires
        0 <= k,
    ensures
        forall|i: int| #[trigger]
            outcome::collapsed_columns(a, k).contains(i) <==> 0 <= i < k && outcome::collapses(
                a,
                i,
            ),
        forall|s: int, t: int|
            0 <= s < t < outcome::collapsed_columns(a, k).len() ==> #[trigger] outcome::collapsed_columns(
                a,
                k,
            )[s] < #[trigger] outcome::collapsed_columns(a, k)[t],
    decreases k,
{
    if k > 0 {
        law_collapsed_columns_are_all_of_them(a, k - 1);
        let rest = outcome::collapsed_columns(a, k - 1);
        let all = outcome::collapsed_columns(a, k);
        if outcome::collapses(a, k - 1) {
            assert forall|i: int| #[trigger] all.contains(i) <==> 0 <= i < k && outcome::collapses(
                a,
                i,
            ) by {
                if rest.contains(i) {
                    let t = choose|t: int| 0 <= t < rest.len() && rest[t] == i;
                    assert(all[t] == i);
                }
                assert(all[rest.len() as int] == k - 1);
                if all.contains(i) {
                    let t = choose|t: int| 0 <= t < all.len() && all[t] == i;
                    if t < rest.len() {
                        assert(rest[t] == i);
                        assert(rest.contains(i));
                    }
                }
            }
            assert forall|s: int, t: int| 0 <= s < t < all.len() implies #[trigger] all[s]
                < #[trigger] all[t] by {
                assert(rest[s] == all[s]);
                assert(rest.contains(rest[s]));
                if t < rest.len() {
                    assert(rest[t] == all[t]);
                }
            }
        }
    }
}

/// Stopping at destroyed pivots and reporting them agree.
///
/// - Where the stopping factorization succeeds, the reporting one gives the same and reports
///   nothing. The other way round too, as long as the pivots are finite.
/// - Where the stopping one breaks down at a zero pivot, so does the reporting one.
/// - Where the stopping one fails at a destroyed pivot, the reporting one reports that column first,
///   or breaks down at a zero pivot of a later column.
/// - The reporting one fails at nothing but a zero pivot.
pub proof fn law_stopping_and_reporting_agree<T: Scalar>(a: Seq<Seq<(int, T)>>)
    ensures
        outcome::factored(a, true) is Ok ==> {
            &&& outcome::factored(a, false) == outcome::factored(a, true)
            &&& outcome::collapsed_columns(a, a.len() as int).len() == 0
        },
        outcome::factored(a, false) is Ok && outcome::collapsed_columns(a, a.len() as int).len()
            == 0 && outcome::stays_finite(a, false) ==> outcome::factored(a, true)
            == outcome::factored(a, false),
        outcome::factored(a, true) matches Err(Fault::ZeroPivot(k)) ==> T::is_finite_spec(
            outcome::pivot_at(a, k),
        ) ==> outcome::factored(a, false) == outcome::factored(a, true),
        outcome::factored(a, true) matches Err(Fault::NearZeroPivot { column, .. })
            ==> match outcome::factored(a, false) {
            Ok(_) => {
                let columns = outcome::collapsed_columns(a, a.len() as int);
                columns.len() > 0 && columns[0] == column
            },
            Err(fault) => fault matches Fault::ZeroPivot(k) && column < k && T::is_zero_spec(
                outcome::pivot_at(a, k),
            ),
        },
        outcome::factored(a, false) matches Err(fault) ==> (fault matches Fault::ZeroPivot(k)
            && T::is_zero_spec(outcome::pivot_at(a, k))),
{
    let n = a.len() as int;
    let columns = outcome::collapsed_columns(a, n);
    lemma_first_break(a, true, 0);
    lemma_first_break(a, false, 0);
    law_collapsed_columns_are_all_of_them(a, n);
    let hard = outcome::first_break(a, false, 0);
    let soft = outcome::first_break(a, true, 0);
    if hard < soft {
        assert(!outcome::breaks(a, true, hard));
    }
    assert(soft <= hard);
    if soft == n && columns.len() > 0 {
        let c = columns[0];
        assert(columns.contains(c));
        assert(!outcome::breaks(a, true, c));
    }
    if soft < n {
        if soft < hard {
            assert(!outcome::breaks(a, false, soft));
        }
        if outcome::collapses(a, soft) {
            assert(columns.contains(soft));
            let t = choose|t: int| 0 <= t < columns.len() && columns[t] == soft;
            let c = columns[0];
            assert(columns.contains(c));
            if c < soft {
                assert(!outcome::breaks(a, true, c));
            }
            if t > 0 {
                assert(columns[0] < columns[t]);
            }
        }
    }
    if hard == n && columns.len() == 0 && outcome::stays_finite(a, false) && soft < n {
        assert(T::is_finite_spec(outcome::pivot_at(a, soft)));
    }
}

/// The shift of retry `i`.
pub open spec fn rung<T: Scalar>(shift: T, i: int) -> T
    decreases i,
{
    if i <= 0 {
        shift
    } else {
        T::times_spec(rung(shift, i - 1), T::of_u64_spec(outcome::SHIFT_GROWTH))
    }
}

/// The shifts form a ladder: after a breakdown that a shift may mend, the first shift of the ladder
/// with which the matrix can be factored is the one that is used, and where none of them serves,
/// the failure of the last is returned.
pub proof fn law_first_shift_that_serves_is_used<T: Scalar>(
    a: Seq<Seq<(int, T)>>,
    order: Option<Seq<int>>,
    shift: T,
)
    requires
        outcome::attempt(a, order) matches Err(fault) && outcome::first_shift(a, fault) == Some(
            shift,
        ),
        T::less_spec(T::of_u64_spec(0), shift),
    ensures
        outcome::factored_with_retry(a, order) matches Ok(f) ==> exists|i: int|
            0 <= i < outcome::SHIFT_ATTEMPTS && f.shift == #[trigger] rung(shift, i)
                && outcome::attempt_shifted(a, order, rung(shift, i)) == Ok::<_, Fault<T>>(f)
                && forall|s: int|
                0 <= s < i ==> outcome::attempt_shifted(a, order, #[trigger] rung(shift, s)) is Err,
        outcome::factored_with_retry(a, order) matches Err(fault) ==> {
            &&& forall|s: int|
                0 <= s < outcome::SHIFT_ATTEMPTS ==> outcome::attempt_shifted(
                    a,
                    order,
                    #[trigger] rung(shift, s),
                ) is Err
            &&& outcome::attempt_shifted(a, order, rung(shift, outcome::SHIFT_ATTEMPTS - 1))
                == Err::<outcome::Factorization<T>, _>(fault)
        },
{
    let fault = outcome::attempt(a, order)->Err_0;
    lemma_ladder(a, order, shift, 0, outcome::SHIFT_ATTEMPTS as int, fault);
}

proof fn lemma_ladder<T: Scalar>(
    a: Seq<Seq<(int, T)>>,
    order: Option<Seq<int>>,
    shift: T,
    at: int,
    end: int,
    last: Fault<T>,
)
    requires
        0 <= at < end,
    ensures
        outcome::retried(a, order, rung(shift, at), end - at, last) matches Ok(f) ==> exists|i: int|
            at <= i < end && f.shift == #[trigger] rung(shift, i) && outcome::attempt_shifted(
                a,
                order,
                rung(shift, i),
            ) == Ok::<_, Fault<T>>(f) && forall|s: int|
                at <= s < i ==> outcome::attempt_shifted(a, order, #[trigger] rung(shift, s)) is Err,
        outcome::retried(a, order, rung(shift, at), end - at, last) matches Err(fault) ==> {
            &&& forall|s: int|
                at <= s < end ==> outcome::attempt_shifted(a, order, #[trigger] rung(shift, s)) is Err
            &&& outcome::attempt_shifted(a, order, rung(shift, end - 1)) == Err::<
                outcome::Factorization<T>,
                _,
            >(fault)
        },
    decreases end - at,
{
    match outcome::attempt_shifted(a, order, rung(shift, at)) {
        Ok(f) => {
            assert(f.shift == rung(shift, at));
        },
        Err(e) => {
            if at + 1 < end {
                lemma_ladder(a, order, shift, at + 1, end, e);
                let next = outcome::retried(a, order, rung(shift, at + 1), end - at - 1, e);
                assert(outcome::retried(a, order, rung(shift, at), end - at, last) == next);
                if next is Ok {
                    let f = next->Ok_0;
                    let i = choose|i: int|
                        at < i < end && f.shift == #[trigger] rung(shift, i)
                            && outcome::attempt_shifted(a, order, rung(shift, i)) == Ok::<
                            _,
                            Fault<T>,
                        >(f) && forall|s: int|
                            at < s < i ==> outcome::attempt_shifted(
                                a,
                                order,
                                #[trigger] rung(shift, s),
                            ) is Err;
                    assert(f.shift == rung(shift, i));
                    assert forall|s: int| at <= s < i implies outcome::attempt_shifted(
                        a,
                        order,
                        #[trigger] rung(shift, s),
                    ) is Err by {}
                }
            } else {
                let next = outcome::retried(
                    a,
                    order,
                    T::times_spec(rung(shift, at), T::of_u64_spec(outcome::SHIFT_GROWTH)),
                    0,
                    e,
                );
                assert(next == Err::<outcome::Factorization<T>, _>(e));
            }
        },
    }
}

/// A failure that no shift can mend is returned as it is, and so is the breakdown of a matrix
/// without any diagonal to scale a shift by.
pub proof fn law_no_retry_without_a_positive_shift<T: Scalar>(
    a: Seq<Seq<(int, T)>>,
    order: Option<Seq<int>>,
    fault: Fault<T>,
)
    requires
        outcome::attempt(a, order) == Err::<outcome::Factorization<T>, _>(fault),
        outcome::first_shift(a, fault) matches Some(shift) ==> !T::less_spec(
            T::of_u64_spec(0),
            shift,
        ),
    ensures
        outcome::factored_with_retry(a, order) == Err::<outcome::Factorization<T>, _>(fault),
{
}

} // verus!
