//! What the ways of factoring and the solves answer, for every number type.
//!
//! As in [`crate::laws::elimination`], each law says what must hold between what goes in and what
//! comes out.
use vstd::prelude::*;

use crate::csc;
use crate::error::Fault;
use crate::graph;
use crate::laws::elimination;
use crate::model;
use crate::outcome;
use crate::permute;
use crate::scalar::Scalar;

verus! {

/// What is stored for the rows `u` and `v` of the symmetric matrix.
pub open spec fn stored_pair<T>(a: Seq<Seq<(int, T)>>, u: int, v: int) -> Seq<(int, T)> {
    if u <= v {
        a[v].filter(elimination::in_row(u))
    } else {
        a[u].filter(elimination::in_row(v))
    }
}

/// `b` is the matrix `a` with its rows and columns taken in the given order: its entries ascend in
/// each column, and each is the sum of what `a` stores for the two rows that it stands for.
pub open spec fn is_reordered<T: Scalar>(
    a: Seq<Seq<(int, T)>>,
    order: Seq<int>,
    b: Seq<Seq<(int, T)>>,
) -> bool {
    &&& b.len() == a.len()
    &&& forall|k: int, s: int, t: int|
        0 <= k < b.len() && 0 <= s < t < b[k].len() ==> (#[trigger] b[k][s]).0 < (
        #[trigger] b[k][t]).0
    &&& forall|k: int, t: int|
        0 <= k < b.len() && 0 <= t < b[k].len() ==> 0 <= (#[trigger] b[k][t]).0 <= k
    &&& forall|j: int, k: int|
        0 <= j <= k < b.len() ==> {
            let es = stored_pair(a, order[j], order[k]);
            #[trigger] b[k].filter(elimination::in_row(j)) == if es.len() == 0 {
                Seq::empty()
            } else {
                seq![(j, es.drop_first().fold_left(es[0].1, elimination::plus_entry()))]
            }
        }
}

/// Some value that the matrix stores is not finite.
pub open spec fn stores_overflow<T: Scalar>(b: Seq<Seq<(int, T)>>) -> bool {
    exists|k: int, t: int|
        0 <= k < b.len() && 0 <= t < b[k].len() && !T::is_finite_spec((#[trigger] b[k][t]).1)
}

/// The answer to factoring in the given order, `b` being the reordered matrix.
pub open spec fn is_ordered_answer<T: Scalar>(
    b: Seq<Seq<(int, T)>>,
    order: Seq<int>,
    r: Result<outcome::Factorization<T>, Fault<T>>,
) -> bool {
    if stores_overflow(b) {
        r == Err::<outcome::Factorization<T>, _>(
            Fault::<T>::InvalidInput("values contain a non-finite entry (NaN or infinity)"@),
        )
    } else {
        &&& elimination::is_verdict(b, true, r)
        &&& r matches Ok(f) ==> f.order == order && f.shift == T::of_u64_spec(0)
        &&& r is Ok <==> forall|k: int|
            0 <= k < b.len() ==> {
                let d = #[trigger] model::factors(b, b.len() as int).pivots[k];
                let m = elimination::diagonal_magnitude(b);
                &&& T::is_finite_spec(d)
                &&& !T::is_zero_spec(d)
                &&& !(T::less_spec(T::of_u64_spec(0), m) && T::less_spec(
                    T::magnitude_spec(d),
                    T::times_spec(
                        T::over_spec(T::of_u64_spec(1), T::of_u64_spec(10_000_000_000_000)),
                        m,
                    ),
                ))
            }
    }
}

proof fn lemma_merged<T: Scalar>(vs: Seq<T>, es: Seq<(int, T)>)
    requires
        vs.len() == es.len(),
        vs.len() > 0,
        forall|t: int| 0 <= t < vs.len() ==> #[trigger] vs[t] == es[t].1,
    ensures
        permute::merged(vs) == es.drop_first().fold_left(es[0].1, elimination::plus_entry()),
    decreases vs.len(),
{
    let rest = es.drop_first();
    if vs.len() > 1 {
        lemma_merged(vs.drop_last(), es.drop_last());
        assert(es.drop_last().drop_first() =~= rest.drop_last());
        assert(rest.last() == es.last());
        assert(vs[vs.len() - 1] == es[vs.len() - 1].1);
    } else {
        assert(rest.len() == 0);
        assert(vs[0] == es[0].1);
    }
}

proof fn lemma_filter_row<T>(col: Seq<(int, T)>, j: int)
    ensures
        forall|t: int|
            0 <= t < col.filter(elimination::in_row(j)).len() ==> (#[trigger] col.filter(
                elimination::in_row(j),
            )[t]).0 == j,
    decreases col.len(),
{
    reveal(Seq::filter);
    if col.len() > 0 {
        lemma_filter_row(col.drop_last(), j);
    }
}

/// The rows of a reordered column ascend.
proof fn lemma_permuted_ascends<T: Scalar>(
    a: Seq<Seq<(int, T)>>,
    order: Seq<int>,
    k: int,
    m: int,
)
    ensures
        forall|s: int, t: int|
            0 <= s < t < permute::permuted_column(a, order, k, m).len() ==> (
            #[trigger] permute::permuted_column(a, order, k, m)[s]).0 < (
            #[trigger] permute::permuted_column(a, order, k, m)[t]).0,
    decreases m,
{
    if m > 0 {
        lemma_permuted_ascends(a, order, k, m - 1);
        permute::lemma_permuted_column_rows(a, order, k, m - 1);
        let rest = permute::permuted_column(a, order, k, m - 1);
        let all = permute::permuted_column(a, order, k, m);
        assert forall|s: int, t: int| 0 <= s < t < all.len() implies (#[trigger] all[s]).0 < (
        #[trigger] all[t]).0 by {
            assert(all[s] == rest[s]);
            if t < rest.len() {
                assert(all[t] == rest[t]);
            } else {
                assert(0 <= rest[s].0 < m - 1);
            }
        }
    }
}

proof fn lemma_reordered<T: Scalar>(a: Seq<Seq<(int, T)>>, order: Seq<int>)
    ensures
        is_reordered(a, order, permute::permuted(a, order)),
{
    let b = permute::permuted(a, order);
    assert forall|k: int, s: int, t: int| 0 <= k < b.len() && 0 <= s < t < b[k].len() implies (
    #[trigger] b[k][s]).0 < (#[trigger] b[k][t]).0 by {
        lemma_permuted_ascends(a, order, k, k + 1);
    }
    permute::lemma_permuted_is_upper(a, order);
    assert forall|j: int, k: int| 0 <= j <= k < b.len() implies ({
        let es = stored_pair(a, order[j], order[k]);
        #[trigger] b[k].filter(elimination::in_row(j)) == if es.len() == 0 {
            Seq::empty()
        } else {
            seq![(j, es.drop_first().fold_left(es[0].1, elimination::plus_entry()))]
        }
    }) by {
        let u = order[j];
        let v = order[k];
        let es = stored_pair(a, u, v);
        let vs = permute::pair_values(a, u, v);
        if u <= v {
            elimination::lemma_stored_total(a[v], u);
        } else {
            elimination::lemma_stored_total(a[u], v);
        }
        permute::lemma_permuted_values(a, order, k, k + 1, j);
        elimination::lemma_stored_total(b[k], j);
        lemma_filter_row(b[k], j);
        let found = b[k].filter(elimination::in_row(j));
        if es.len() > 0 {
            lemma_merged(vs, es);
            assert(csc::values_at(b[k], j)[0] == found[0].1);
            assert(found[0].0 == j);
            assert(found =~= seq![
                (j, es.drop_first().fold_left(es[0].1, elimination::plus_entry())),
            ]);
        } else {
            assert(found =~= Seq::empty());
        }
    }
}

/// The answer to factoring the matrix `a` in the given order.
pub open spec fn is_answer_in_order<T: Scalar>(
    a: Seq<Seq<(int, T)>>,
    order: Seq<int>,
    r: Result<outcome::Factorization<T>, Fault<T>>,
) -> bool {
    exists|b: Seq<Seq<(int, T)>>| #[trigger]
        is_reordered(a, order, b) && is_ordered_answer(b, order, r)
}

/// Factoring in an order is factoring the reordered matrix, and it fails only for cause: where a sum
/// of stored values overflows, or where a pivot of the reordered matrix is zero, not finite or below
/// one ten-trillionth of its largest diagonal magnitude. The factors remember the order.
pub proof fn law_order_is_applied<T: Scalar>(a: Seq<Seq<(int, T)>>, order: Seq<int>)
    ensures
        is_answer_in_order(a, order, outcome::factored_in_order(a, order)),
{
    let b = permute::permuted(a, order);
    lemma_reordered(a, order);
    permute::lemma_permuted_is_upper(a, order);
    elimination::law_verdict_is_given_for_the_pivots(b, true);
    let r = outcome::factored_in_order(a, order);
    if permute::has_overflow(b) {
        let (k, t) = choose|k: int, t: int|
            0 <= k < b.len() && 0 <= t < b[k].len() && !T::is_finite_spec((#[trigger] b[k][t]).1);
        assert(stores_overflow(b));
    } else {
        if stores_overflow(b) {
            let (k, t) = choose|k: int, t: int|
                0 <= k < b.len() && 0 <= t < b[k].len() && !T::is_finite_spec(
                    (#[trigger] b[k][t]).1,
                );
            assert(permute::has_overflow(b));
        }
        let inner = outcome::factored(b, true);
        match inner {
            Ok(f) => {
                assert(elimination::is_success(b, true, f.factors));
            },
            Err(fault) => {
                let f = choose|f: model::Factors<T>| elimination::is_failure(b, true, fault, f);
                assert(elimination::is_failure(b, true, fault, f));
            },
        }
        assert(elimination::is_verdict(b, true, r));
    }
    assert(is_ordered_answer(b, order, r));
}

/// Factoring the matrix once, in the given order or in its own.
pub open spec fn once<T: Scalar>(a: Seq<Seq<(int, T)>>, order: Option<Seq<int>>) -> Result<
    outcome::Factorization<T>,
    Fault<T>,
> {
    match order {
        Some(order) => outcome::factored_in_order(a, order),
        None => outcome::factored(a, true),
    }
}

/// The matrix with one more entry in each column, `shift` on the diagonal.
pub open spec fn moved<T>(a: Seq<Seq<(int, T)>>, shift: T) -> Seq<Seq<(int, T)>> {
    Seq::new(a.len(), |k: int| a[k].push((k, shift)))
}

/// The `i`-th shift after `start`, each eight times the one before.
pub open spec fn eightfold<T: Scalar>(start: T, i: int) -> T
    decreases i,
{
    if i <= 0 {
        start
    } else {
        T::times_spec(eightfold(start, i - 1), T::of_u64_spec(8))
    }
}

/// The matrix can be factored with the given shift.
pub open spec fn serves<T: Scalar>(
    a: Seq<Seq<(int, T)>>,
    order: Option<Seq<int>>,
    shift: T,
) -> bool {
    T::is_finite_spec(shift) && once(moved(a, shift), order) is Ok
}

/// The answer of factoring with shifts from `start` on: the first of eight that serves, or the
/// failure of the last.
pub open spec fn is_ladder_answer<T: Scalar>(
    a: Seq<Seq<(int, T)>>,
    order: Option<Seq<int>>,
    start: T,
    r: Result<outcome::Factorization<T>, Fault<T>>,
) -> bool {
    match r {
        Ok(f) => exists|i: int|
            {
                &&& 0 <= i < 8
                &&& f.shift == #[trigger] eightfold(start, i)
                &&& T::is_finite_spec(f.shift)
                &&& once(moved(a, f.shift), order) matches Ok(h) && h.factors == f.factors
                    && h.order == f.order
                &&& forall|s: int| 0 <= s < i ==> !serves(a, order, #[trigger] eightfold(start, s))
            },
        Err(fault) => {
            &&& forall|s: int| 0 <= s < 8 ==> !serves(a, order, #[trigger] eightfold(start, s))
            &&& if T::is_finite_spec(eightfold(start, 7)) {
                once(moved(a, eightfold(start, 7)), order) == Err::<outcome::Factorization<T>, _>(
                    fault,
                )
            } else {
                fault == Fault::<T>::InvalidInput(
                    "values contain a non-finite entry (NaN or infinity)"@,
                )
            }
        },
    }
}

/// The answer of factoring with retries, `first` being the answer of the first attempt. The first
/// shift is the one that a destroyed pivot suggests; after a zero pivot, at whatever column, it is
/// the square root of one ten-trillionth times the largest diagonal magnitude. Without a positive
/// shift, and after any other failure, there is no retry.
pub open spec fn is_retry_answer<T: Scalar>(
    a: Seq<Seq<(int, T)>>,
    order: Option<Seq<int>>,
    first: Result<outcome::Factorization<T>, Fault<T>>,
    r: Result<outcome::Factorization<T>, Fault<T>>,
) -> bool {
    match first {
        Ok(_) => r == first,
        Err(Fault::NearZeroPivot { suggested_shift, .. }) => if T::less_spec(
            T::of_u64_spec(0),
            suggested_shift,
        ) {
            is_ladder_answer(a, order, suggested_shift, r)
        } else {
            r == first
        },
        Err(Fault::ZeroPivot(_)) => {
            let start = elimination::starting_shift(elimination::diagonal_magnitude(a));
            if T::less_spec(T::of_u64_spec(0), start) {
                is_ladder_answer(a, order, start, r)
            } else {
                r == first
            }
        },
        Err(_) => r == first,
    }
}

proof fn lemma_serves<T: Scalar>(a: Seq<Seq<(int, T)>>, order: Option<Seq<int>>, shift: T)
    ensures
        outcome::attempt(a, order) == once(a, order),
        match outcome::attempt_shifted(a, order, shift) {
            Ok(f) => {
                &&& T::is_finite_spec(shift)
                &&& f.shift == shift
                &&& once(moved(a, shift), order) matches Ok(h) && h.factors == f.factors && h.order
                    == f.order
            },
            Err(fault) => {
                &&& !serves(a, order, shift)
                &&& if T::is_finite_spec(shift) {
                    once(moved(a, shift), order) == Err::<outcome::Factorization<T>, _>(fault)
                } else {
                    fault == Fault::<T>::InvalidInput(
                        "values contain a non-finite entry (NaN or infinity)"@,
                    )
                }
            },
        },
{
    assert(permute::shifted(a, shift) =~= moved(a, shift));
}

proof fn lemma_ladder<T: Scalar>(
    a: Seq<Seq<(int, T)>>,
    order: Option<Seq<int>>,
    start: T,
    at: int,
    last: Fault<T>,
)
    requires
        0 <= at < 8,
        forall|s: int| 0 <= s < at ==> !serves(a, order, #[trigger] eightfold(start, s)),
    ensures
        is_ladder_answer(
            a,
            order,
            start,
            outcome::retried(a, order, eightfold(start, at), 8 - at, last),
        ),
    decreases 8 - at,
{
    let shift = eightfold(start, at);
    let r = outcome::retried(a, order, shift, 8 - at, last);
    lemma_serves(a, order, shift);
    match outcome::attempt_shifted(a, order, shift) {
        Ok(f) => {
            assert(r == Ok::<_, Fault<T>>(f));
            assert(f.shift == eightfold(start, at));
        },
        Err(e) => {
            let next = T::times_spec(shift, T::of_u64_spec(outcome::SHIFT_GROWTH));
            assert(r == outcome::retried(a, order, next, 8 - at - 1, e));
            if at < 7 {
                assert(next == eightfold(start, at + 1));
                lemma_ladder(a, order, start, at + 1, e);
            } else {
                assert(r == Err::<outcome::Factorization<T>, _>(e));
            }
        },
    }
}

/// After a breakdown the matrix is moved by the first of eight growing shifts that serves, starting
/// from the square root of one ten-trillionth times the largest diagonal magnitude, and the shift
/// that is reported is that very shift.
pub proof fn law_retry_climbs_from_the_starting_shift<T: Scalar>(
    a: Seq<Seq<(int, T)>>,
    order: Option<Seq<int>>,
)
    requires
        csc::is_upper(a),
    ensures
        is_retry_answer(a, order, once(a, order), outcome::factored_with_retry(a, order)),
{
    let first = once(a, order);
    let r = outcome::factored_with_retry(a, order);
    assert(outcome::attempt(a, order) == first);
    elimination::lemma_may_go_on(a, true, 0);
    match first {
        Ok(_) => {},
        Err(fault) => {
            match outcome::first_shift(a, fault) {
                Some(start) => {
                    if T::less_spec(T::of_u64_spec(0), start) {
                        assert(eightfold(start, 0) == start);
                        lemma_ladder(a, order, start, 0, fault);
                        assert(r == outcome::retried(a, order, start, 8, fault));
                    }
                },
                None => {},
            }
        },
    }
}

/// The entries of column `j` of `L`, each with the value of its row.
pub open spec fn column_products<T>(
    lower: spec_fn(int, int) -> Option<T>,
    j: int,
    x: Seq<T>,
    m: int,
) -> Seq<(T, T)> {
    Seq::new(m as nat, |t: int| t).filter(|r: int| r > j && lower(r, j) is Some).map_values(
        |r: int| (lower(r, j)->Some_0, x[r]),
    )
}

/// What the two triangular solves and the division between them have to satisfy: `z` is the
/// right-hand side, taken in elimination order, less each product of a row of `L` with `z`, and `x`
/// is the quotients of `z` and the pivots less each product of a column of `L` with `x`.
pub open spec fn is_substitution<T: Scalar>(
    f: model::Factors<T>,
    order: Seq<int>,
    b: Seq<T>,
    z: Seq<T>,
    x: Seq<T>,
) -> bool {
    let n = f.pivots.len();
    &&& z.len() == n
    &&& x.len() == n
    &&& forall|k: int|
        0 <= k < n ==> #[trigger] z[k] == elimination::less_products(
            b[order[k]],
            elimination::row_products(f.lower, k, Seq::new(n, |i: int| i), z, k),
        )
    &&& forall|k: int|
        0 <= k < n ==> #[trigger] x[k] == elimination::less_products(
            T::over_spec(z[k], f.pivots[k]),
            column_products(f.lower, k, x, n as int),
        )
}

proof fn lemma_forward<T: Scalar>(
    f: model::Factors<T>,
    b: Seq<T>,
    z: Seq<T>,
    n: int,
    r: int,
    j: int,
)
    requires
        0 <= j <= r < n,
        z.len() == n,
        forall|i: int| 0 <= i < n ==> #[trigger] z[i] == outcome::forward(f, b, i, i),
    ensures
        outcome::forward(f, b, r, j) == elimination::less_products(
            b[r],
            elimination::row_products(f.lower, r, Seq::new(n as nat, |i: int| i), z, j),
        ),
    decreases j,
{
    let nodes = Seq::new(n as nat, |i: int| i);
    if j == 0 {
        assert(elimination::row_products(f.lower, r, nodes, z, 0).len() == 0) by {
            reveal(Seq::filter);
            assert(Seq::new(0 as nat, |s: int| s).len() == 0);
        }
    } else {
        lemma_forward(f, b, z, n, r, j - 1);
        elimination::lemma_row_products(f.lower, r, nodes, z, j);
        assert(nodes[j - 1] == j - 1);
        assert(z[j - 1] == outcome::forward(f, b, j - 1, j - 1));
        match (f.lower)(r, j - 1) {
            Some(l) => {
                elimination::lemma_less_products_push(
                    b[r],
                    elimination::row_products(f.lower, r, nodes, z, j - 1),
                    (l, z[j - 1]),
                );
            },
            None => {},
        }
    }
}

proof fn lemma_column_products<T>(
    lower: spec_fn(int, int) -> Option<T>,
    j: int,
    x: Seq<T>,
    m: int,
)
    requires
        0 < m,
    ensures
        column_products(lower, j, x, m) == if m - 1 > j && lower(m - 1, j) is Some {
            column_products(lower, j, x, m - 1).push((lower(m - 1, j)->Some_0, x[m - 1]))
        } else {
            column_products(lower, j, x, m - 1)
        },
{
    reveal(Seq::filter);
    let p = |r: int| r > j && lower(r, j) is Some;
    let pair = |r: int| (lower(r, j)->Some_0, x[r]);
    let all = Seq::new(m as nat, |t: int| t);
    let init = Seq::new((m - 1) as nat, |t: int| t);
    assert(all.drop_last() =~= init);
    assert(all.last() == m - 1);
    if p(m - 1) {
        assert(all.filter(p) == init.filter(p).push(m - 1));
        assert(all.filter(p).map_values(pair) =~= init.filter(p).map_values(pair).push(
            pair(m - 1),
        ));
    } else {
        assert(all.filter(p) == init.filter(p));
    }
}

proof fn lemma_no_column_products<T>(
    lower: spec_fn(int, int) -> Option<T>,
    j: int,
    x: Seq<T>,
    m: int,
)
    requires
        0 <= m <= j + 1,
    ensures
        column_products(lower, j, x, m).len() == 0,
    decreases m,
{
    if m > 0 {
        lemma_no_column_products(lower, j, x, m - 1);
        lemma_column_products(lower, j, x, m);
    } else {
        reveal(Seq::filter);
        assert(Seq::new(0 as nat, |t: int| t).len() == 0);
    }
}

proof fn lemma_backward<T: Scalar>(
    f: model::Factors<T>,
    w: Seq<T>,
    x: Seq<T>,
    j: int,
    r: int,
)
    requires
        0 <= j < w.len(),
        0 <= r <= w.len(),
        x.len() == w.len(),
        forall|i: int|
            0 <= i < w.len() ==> #[trigger] x[i] == outcome::backward(f, w, i, w.len() as int),
    ensures
        outcome::backward(f, w, j, r) == elimination::less_products(
            w[j],
            column_products(f.lower, j, x, r),
        ),
    decreases r,
{
    if r <= j + 1 {
        lemma_no_column_products(f.lower, j, x, r);
    } else {
        lemma_backward(f, w, x, j, r - 1);
        lemma_column_products(f.lower, j, x, r);
        assert(x[r - 1] == outcome::backward(f, w, r - 1, w.len() as int));
        match (f.lower)(r - 1, j) {
            Some(l) => {
                elimination::lemma_less_products_push(
                    w[j],
                    column_products(f.lower, j, x, r - 1),
                    (l, x[r - 1]),
                );
            },
            None => {},
        }
    }
}

/// `x` is what the substitutions give for the right-hand side `b`, put back in place.
pub open spec fn is_put_back<T: Scalar>(
    f: outcome::Factorization<T>,
    b: Seq<T>,
    x: Seq<T>,
) -> bool {
    &&& x.len() == b.len()
    &&& exists|z: Seq<T>, y: Seq<T>|
        {
            &&& #[trigger] is_substitution(f.factors, f.order, b, z, y)
            &&& forall|k: int| 0 <= k < b.len() ==> x[#[trigger] f.order[k]] == y[k]
        }
}

/// The solution is what the substitutions give, put back in place: with the right-hand side taken
/// in elimination order, component `order[k]` of the solution is component `k` of the result of the
/// substitutions. So it is finite wherever that is.
pub proof fn law_solution_is_substituted_and_put_back<T: Scalar>(
    f: outcome::Factorization<T>,
    b: Seq<T>,
)
    requires
        f.order.len() == f.factors.pivots.len(),
        f.order.no_duplicates(),
        forall|k: int|
            0 <= k < f.order.len() ==> 0 <= #[trigger] f.order[k] < f.factors.pivots.len(),
        b.len() == f.factors.pivots.len(),
    ensures
        is_put_back(f, b, outcome::solution(f, b)),
{
    let h = f.factors;
    let n = h.pivots.len() as int;
    let c = Seq::new(b.len(), |k: int| b[f.order[k]]);
    let z = Seq::new(n as nat, |k: int| outcome::forward(h, c, k, k));
    let w = Seq::new(n as nat, |k: int| T::over_spec(outcome::forward(h, c, k, k), h.pivots[k]));
    let x = outcome::substituted(h, c);
    assert(c =~= Seq::new(h.pivots.len(), |k: int| b[f.order[k]]));
    assert(x =~= Seq::new(n as nat, |k: int| outcome::backward(h, w, k, n)));
    assert forall|k: int| 0 <= k < n implies #[trigger] z[k] == elimination::less_products(
        b[f.order[k]],
        elimination::row_products(h.lower, k, Seq::new(h.pivots.len(), |i: int| i), z, k),
    ) by {
        lemma_forward(h, c, z, n, k, k);
    }
    assert forall|k: int| 0 <= k < n implies #[trigger] x[k] == elimination::less_products(
        T::over_spec(z[k], h.pivots[k]),
        column_products(h.lower, k, x, n),
    ) by {
        lemma_backward(h, w, x, k, n);
    }
    assert(is_substitution(h, f.order, b, z, x));
    assert forall|k: int| 0 <= k < b.len() implies outcome::solution(f, b)[#[trigger] f.order[k]]
        == x[k] by {
        assert(f.order.contains(f.order[k]));
        assert(f.order.index_of(f.order[k]) == k);
    }
}

/// How many entries the columns of `L` have, one by one.
pub open spec fn column_lengths<T>(f: model::Factors<T>, m: int) -> Seq<int> {
    Seq::new(
        m as nat,
        |i: int|
            Seq::new(f.pivots.len(), |r: int| r).filter(
                |r: int| (f.lower)(r, i) is Some,
            ).len() as int,
    )
}

proof fn lemma_count_is_filter(n: int, p: spec_fn(int) -> bool)
    requires
        n >= 0,
    ensures
        graph::count(n, p) == Seq::new(n as nat, |r: int| r).filter(p).len(),
    decreases n,
{
    reveal(Seq::filter);
    let all = Seq::new(n as nat, |r: int| r);
    if n > 0 {
        lemma_count_is_filter(n - 1, p);
        assert(all.drop_last() =~= Seq::new((n - 1) as nat, |r: int| r));
    } else {
        assert(all.len() == 0);
    }
}

/// The sum of the lengths of the first `m` columns of `L`.
pub open spec fn total_length<T>(f: model::Factors<T>, m: int) -> int {
    column_lengths(f, m).fold_left(0int, |s: int, c: int| s + c)
}

/// The operations that the first `m` columns of `L` take, `c * c + 3 * c` for one of `c` entries.
pub open spec fn total_work<T>(f: model::Factors<T>, m: int) -> int {
    column_lengths(f, m).fold_left(0int, |s: int, c: int| s + (c * c + 3 * c))
}

/// The reported counts are those of the entries of `L`: the number of entries is the sum of the
/// lengths of the columns, and a column of `c` entries takes `c * c + 3 * c` operations.
pub proof fn law_counts_are_those_of_the_columns<T>(f: model::Factors<T>, m: int)
    requires
        0 <= m,
    ensures
        outcome::entry_count(f, m) == total_length(f, m),
        outcome::flop_count(f, m) == total_work(f, m),
    decreases m,
{
    let all = column_lengths(f, m);
    if m > 0 {
        law_counts_are_those_of_the_columns(f, m - 1);
        assert(all.drop_last() =~= column_lengths(f, m - 1));
        let n = f.pivots.len() as int;
        let p = |r: int| (f.lower)(r, m - 1) is Some;
        lemma_count_is_filter(n, p);
        assert(Seq::new(f.pivots.len(), |r: int| r) =~= Seq::new(n as nat, |r: int| r));
        assert(all.last() == outcome::column_count(f, m - 1));
    } else {
        assert(all.len() == 0);
    }
}

} // verus!
