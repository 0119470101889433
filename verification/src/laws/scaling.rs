//! What the factors and the verdict depend on: the entries of the matrix, up to a common factor,
//! and nothing else. The test for destroyed pivots in real numbers.
use vstd::prelude::*;

use crate::csc;
use crate::error::Fault;
use crate::exact;
use crate::laws::breakdown;
use crate::laws::signs;
use crate::laws::structure;
use crate::model;
use crate::outcome;
use crate::scalar::ExactScalar;
use crate::sums;

verus! {

proof fn lemma_scale_value<T: ExactScalar>(a: Seq<Seq<(int, T)>>, k: int)
    requires
        0 <= k <= a.len(),
        forall|i: int| 0 <= i < k ==> T::is_finite_spec(#[trigger] csc::entry(a[i], i)),
    ensures
        T::is_finite_spec(csc::scale(a, k)),
        T::value(csc::scale(a, k)) == exact::largest_diagonal(a, k),
    decreases k,
{
    if k == 0 {
        T::zero_is_exact();
    } else {
        lemma_scale_value(a, k - 1);
        let e = csc::entry(a[k - 1], k - 1);
        assert(T::is_finite_spec(e));
        exact::lemma_entry_value(a[k - 1], k - 1);
        T::magnitude_is_exact(e);
        T::larger_is_exact(csc::scale(a, k - 1), T::magnitude_spec(e));
    }
}

/// The magnitude that pivots are compared with is the largest absolute value on the diagonal: no
/// diagonal entry exceeds it, and it is one of them, or zero.
pub proof fn law_scale_is_the_largest_diagonal_entry<T: ExactScalar>(
    a: Seq<Seq<(int, T)>>,
    k: int,
)
    requires
        0 <= k <= a.len(),
        forall|i: int| 0 <= i < k ==> T::is_finite_spec(#[trigger] csc::entry(a[i], i)),
    ensures
        forall|i: int|
            0 <= i < k ==> exact::abs(#[trigger] exact::matrix(a, i, i)) <= T::value(
                csc::scale(a, k),
            ),
        T::value(csc::scale(a, k)) == 0real || exists|i: int|
            0 <= i < k && exact::abs(#[trigger] exact::matrix(a, i, i)) == T::value(
                csc::scale(a, k),
            ),
    decreases k,
{
    lemma_scale_value(a, k);
    if k > 0 {
        lemma_scale_value(a, k - 1);
        law_scale_is_the_largest_diagonal_entry(a, k - 1);
        let last = exact::abs(exact::matrix(a, k - 1, k - 1));
        if !(T::value(csc::scale(a, k - 1)) < last) && T::value(csc::scale(a, k - 1)) != 0real {
            let i = choose|i: int|
                0 <= i < k - 1 && exact::abs(#[trigger] exact::matrix(a, i, i)) == T::value(
                    csc::scale(a, k - 1),
                );
            assert(exact::abs(exact::matrix(a, i, i)) == T::value(csc::scale(a, k)));
        }
    }
}

/// The test for destroyed pivots, in real numbers.
proof fn lemma_is_collapsed<T: ExactScalar>(a: Seq<Seq<(int, T)>>, d: T)
    requires
        exact::has_finite_threshold(a),
        T::is_finite_spec(d),
    ensures
        T::is_finite_spec(csc::scale(a, a.len() as int)),
        T::value(csc::scale(a, a.len() as int)) == exact::largest_diagonal(a, a.len() as int),
        outcome::is_collapsed(d, csc::scale(a, a.len() as int)) <==> exact::abs(T::value(d))
            * 10_000_000_000_000real < exact::largest_diagonal(a, a.len() as int),
{
    let scale = csc::scale(a, a.len() as int);
    let zero = T::of_u64_spec(0);
    let tol = outcome::tolerance::<T>();
    let one = T::of_u64_spec(1);
    let inverse = T::of_u64_spec(outcome::NEAR_ZERO_PIVOT_REL_INVERSE);
    lemma_scale_value(a, a.len() as int);
    T::zero_is_exact();
    T::times_is_exact(tol, scale);
    T::over_is_exact(one, inverse);
    T::of_u64_is_exact(1);
    T::of_u64_is_exact(outcome::NEAR_ZERO_PIVOT_REL_INVERSE);
    T::magnitude_is_exact(d);
    T::less_is_exact(zero, scale);
    T::less_is_exact(T::magnitude_spec(d), T::times_spec(tol, scale));
    let s = T::value(scale);
    let x = exact::abs(T::value(d));
    let t = T::value(tol);
    assert(t == 1real / 10_000_000_000_000real);
    let c = 10_000_000_000_000real;
    lemma_times_inverse(t, s, c);
    lemma_order_times(c, x, t * s);
    assert(c * x == x * c) by (nonlinear_arith);
}

/// The diagonal entries of a matrix whose pivots are finite are finite.
proof fn lemma_finite_diagonal<T: ExactScalar>(a: Seq<Seq<(int, T)>>, f: outcome::Factorization<T>)
    requires
        csc::is_upper(a),
        outcome::factored(a, true) == Ok::<_, Fault<T>>(f),
        T::is_finite_spec(T::times_spec(outcome::tolerance(), csc::scale(a, a.len() as int))),
    ensures
        exact::has_finite_threshold(a),
{
    breakdown::law_success_means_finite_pivots(a, f);
    model::lemma_factors_shape(a, a.len() as int);
    assert forall|k: int| 0 <= k < a.len() implies T::is_finite_spec(
        #[trigger] csc::entry(a[k], k),
    ) by {
        assert(T::is_finite_spec(f.factors.pivots[k]));
        exact::lemma_row_values(a, k);
    }
}

/// Every pivot that is returned clears the tolerance: ten trillion times its absolute value, no
/// diagonal entry of the matrix is larger.
pub proof fn law_returned_pivots_clear_the_tolerance<T: ExactScalar>(
    a: Seq<Seq<(int, T)>>,
    f: outcome::Factorization<T>,
    j: int,
    k: int,
)
    requires
        csc::is_upper(a),
        outcome::factored(a, true) == Ok::<_, Fault<T>>(f),
        T::is_finite_spec(T::times_spec(outcome::tolerance(), csc::scale(a, a.len() as int))),
        0 <= j < a.len(),
        0 <= k < a.len(),
    ensures
        exact::abs(exact::matrix(a, j, j)) <= exact::abs(exact::d_value(f.factors, k))
            * 10_000_000_000_000real,
{
    let n = a.len() as int;
    lemma_finite_diagonal(a, f);
    breakdown::law_success_means_finite_pivots(a, f);
    breakdown::law_every_returned_pivot_is_sound(a);
    model::lemma_factors_shape(a, n);
    assert(!outcome::is_collapsed(outcome::pivot_at(a, k), csc::scale(a, n)));
    assert(T::is_finite_spec(f.factors.pivots[k]));
    lemma_is_collapsed(a, outcome::pivot_at(a, k));
    law_scale_is_the_largest_diagonal_entry(a, n);
    assert(exact::abs(exact::matrix(a, j, j)) <= T::value(csc::scale(a, n)));
}

/// In exact numbers, the reported columns are those whose pivots are not zero and so small that
/// some diagonal entry is more than ten trillion times as large, each of them.
pub proof fn law_reported_columns_are_below_the_tolerance<T: ExactScalar>(
    a: Seq<Seq<(int, T)>>,
    k: int,
    i: int,
)
    requires
        csc::is_upper(a),
        exact::has_finite_threshold(a),
        0 <= i < k <= a.len(),
        T::is_finite_spec(model::factors(a, a.len() as int).pivots[i]),
    ensures
        outcome::collapsed_columns(a, k).contains(i) <==> {
            let d = T::value(model::factors(a, a.len() as int).pivots[i]);
            &&& d != 0real
            &&& exists|j: int|
                0 <= j < a.len() && exact::abs(d) * 10_000_000_000_000real < exact::abs(
                    #[trigger] exact::matrix(a, j, j),
                )
        },
{
    let n = a.len() as int;
    let t = outcome::pivot_at(a, i);
    let d = T::value(t);
    breakdown::law_collapsed_columns_are_all_of_them(a, k);
    lemma_is_collapsed(a, t);
    T::is_zero_is_exact(t);
    law_scale_is_the_largest_diagonal_entry(a, n);
    let s = T::value(csc::scale(a, n));
    assert(exact::abs(d) * 10_000_000_000_000real >= 0real);
    if exact::abs(d) * 10_000_000_000_000real < s {
        let j = choose|j: int|
            0 <= j < n && exact::abs(#[trigger] exact::matrix(a, j, j)) == s;
        assert(exact::abs(d) * 10_000_000_000_000real < exact::abs(exact::matrix(a, j, j)));
    }
    if exists|j: int|
        0 <= j < n && exact::abs(d) * 10_000_000_000_000real < exact::abs(
            #[trigger] exact::matrix(a, j, j),
        ) {
        let j = choose|j: int|
            0 <= j < n && exact::abs(d) * 10_000_000_000_000real < exact::abs(
                #[trigger] exact::matrix(a, j, j),
            );
        assert(exact::abs(exact::matrix(a, j, j)) <= s);
    }
}

/// The stored entries of `b` add up to `c` times those of `a`.
pub open spec fn is_multiple<T: ExactScalar>(
    a: Seq<Seq<(int, T)>>,
    b: Seq<Seq<(int, T)>>,
    c: real,
) -> bool {
    &&& a.len() == b.len()
    &&& forall|j: int, k: int|
        0 <= j <= k < a.len() ==> #[trigger] exact::stored_sum(b[k], j) == c * exact::stored_sum(
            a[k],
            j,
        )
}

/// The second verdict is the first one, for a matrix that is `c` times the other: the same `L` and
/// the pivots times `c`, or the same failure at the same column, with its pivot times `c` and its
/// magnitudes times the absolute value of `c`.
pub open spec fn is_multiple_verdict<T: ExactScalar>(
    r: Result<outcome::Factorization<T>, Fault<T>>,
    s: Result<outcome::Factorization<T>, Fault<T>>,
    c: real,
) -> bool {
    match (r, s) {
        (Ok(f), Ok(g)) => {
            let n = f.factors.pivots.len();
            &&& g.factors.pivots.len() == n
            &&& g.order == f.order
            &&& forall|k: int|
                0 <= k < n ==> #[trigger] exact::d_value(g.factors, k) == c * exact::d_value(
                    f.factors,
                    k,
                )
            &&& forall|r: int, i: int|
                0 <= r < n && 0 <= i < n ==> #[trigger] exact::l_matrix(g.factors, r, i)
                    == exact::l_matrix(f.factors, r, i)
        },
        (Err(Fault::ZeroPivot(j)), Err(Fault::ZeroPivot(k))) => j == k,
        (
            Err(Fault::NearZeroPivot { column: j, pivot: d, scale: x, suggested_shift: y }),
            Err(Fault::NearZeroPivot { column: k, pivot: e, scale: z, suggested_shift: w }),
        ) => {
            &&& j == k
            &&& T::value(e) == c * T::value(d)
            &&& T::value(z) == exact::abs(c) * T::value(x)
            &&& T::is_finite_spec(y) && T::is_finite_spec(w) ==> T::value(w) == exact::abs(c)
                * T::value(y)
        },
        _ => false,
    }
}

proof fn lemma_abs_times(c: real, x: real)
    ensures
        exact::abs(c * x) == exact::abs(c) * exact::abs(x),
        c != 0real ==> exact::abs(c) > 0real,
{
    let y = -x;
    let d = -c;
    assert(c * y == -(c * x) && d * x == -(c * x) && d * y == c * x) by (nonlinear_arith)
        requires
            y == -x,
            d == -c,
    ;
    lemma_sign_of_product(c, x);
    lemma_sign_of_product(c, y);
    lemma_sign_of_product(d, x);
    lemma_sign_of_product(d, y);
}

proof fn lemma_sign_of_product(x: real, y: real)
    ensures
        x >= 0real && y >= 0real ==> x * y >= 0real,
{
    if x >= 0real && y >= 0real {
        assert(x * y >= 0real) by (nonlinear_arith)
            requires
                x >= 0real,
                y >= 0real,
        ;
    }
}

/// A positive factor keeps the order.
proof fn lemma_order_times(m: real, x: real, y: real)
    requires
        m > 0real,
    ensures
        m * x < m * y <==> x < y,
{
    let e = y - x;
    assert(m * e == m * y - m * x) by (nonlinear_arith)
        requires
            e == y - x,
    ;
    assert(e > 0real ==> m * e > 0real) by (nonlinear_arith)
        requires
            m > 0real,
    ;
    assert(e <= 0real ==> m * e <= 0real) by (nonlinear_arith)
        requires
            m > 0real,
    ;
}

proof fn lemma_times_inverse(t: real, s: real, c: real)
    requires
        c > 0real,
        t == 1real / c,
    ensures
        c * (t * s) == s,
{
    assert(c * t == 1real) by (nonlinear_arith)
        requires
            c > 0real,
            t == 1real / c,
    ;
    assert(c * (t * s) == (c * t) * s) by (nonlinear_arith);
    assert(1real * s == s) by (nonlinear_arith);
}

proof fn lemma_largest_diagonal<T: ExactScalar>(
    a: Seq<Seq<(int, T)>>,
    b: Seq<Seq<(int, T)>>,
    c: real,
    k: int,
)
    requires
        is_multiple(a, b, c),
        0 <= k <= a.len(),
    ensures
        exact::largest_diagonal(b, k) == exact::abs(c) * exact::largest_diagonal(a, k),
    decreases k,
{
    let m = exact::abs(c);
    if k > 0 {
        lemma_largest_diagonal(a, b, c, k - 1);
        let x = exact::stored_sum(a[k - 1], k - 1);
        assert(exact::stored_sum(b[k - 1], k - 1) == c * x);
        lemma_abs_times(c, x);
        let y = exact::abs(x);
        let z = exact::largest_diagonal(a, k - 1);
        assert(m * z < m * y ==> z < y) by (nonlinear_arith)
            requires
                m >= 0real,
        ;
        assert(z < y ==> m * z <= m * y) by (nonlinear_arith)
            requires
                m >= 0real,
        ;
    } else {
        assert(m * 0real == 0real) by (nonlinear_arith);
    }
}

/// The first `w` columns of the factors of a matrix that is `c` times another.
proof fn lemma_unique_factors<T: ExactScalar>(
    f: model::Factors<T>,
    h: model::Factors<T>,
    n: int,
    c: real,
    w: int,
)
    requires
        f.pivots.len() == n,
        h.pivots.len() == n,
        forall|r: int, i: int| #[trigger] (f.lower)(r, i) is Some ==> 0 <= i < r < n,
        forall|r: int, i: int| #[trigger] (h.lower)(r, i) is Some ==> 0 <= i < r < n,
        forall|k: int| 0 <= k < n - 1 ==> #[trigger] exact::d_value(f, k) != 0real,
        forall|j: int, k: int|
            0 <= j <= k < n ==> #[trigger] exact::ldlt_entry(h, j, k) == c * exact::ldlt_entry(
                f,
                j,
                k,
            ),
        c != 0real,
        0 <= w <= n,
    ensures
        forall|i: int| 0 <= i < w ==> #[trigger] exact::d_value(h, i) == c * exact::d_value(f, i),
        forall|r: int, i: int|
            0 <= r < n && 0 <= i < w ==> #[trigger] exact::l_matrix(h, r, i) == exact::l_matrix(
                f,
                r,
                i,
            ),
    decreases w,
{
    if w > 0 {
        let i = w - 1;
        lemma_unique_factors(f, h, n, c, i);
        lemma_entry_split(f, n, i, i);
        lemma_entry_split(h, n, i, i);
        lemma_same_prefix(f, h, n, c, i, i);
        let d = exact::d_value(f, i);
        let e = exact::d_value(h, i);
        let p = prefix(f, i, i);
        assert(exact::ldlt_entry(h, i, i) == c * exact::ldlt_entry(f, i, i));
        assert(d * 1real == d && e * 1real == e) by (nonlinear_arith);
        assert(c * (p + d) == c * p + c * d) by (nonlinear_arith);
        assert(e == c * d);
        assert forall|r: int| 0 <= r < n implies #[trigger] exact::l_matrix(h, r, i)
            == exact::l_matrix(f, r, i) by {
            if r < i {
                assert((f.lower)(r, i) is None);
                assert((h.lower)(r, i) is None);
            } else if r > i {
                lemma_entry_split(f, n, i, r);
                lemma_entry_split(h, n, i, r);
                lemma_same_prefix(f, h, n, c, i, r);
                assert(exact::ldlt_entry(h, i, r) == c * exact::ldlt_entry(f, i, r));
                let x = exact::l_matrix(f, r, i);
                let y = exact::l_matrix(h, r, i);
                let q = prefix(f, i, r);
                lemma_cancel(c, q, d, e, x, y);
            }
        }
        assert forall|r: int, t: int| 0 <= r < n && 0 <= t < w implies #[trigger] exact::l_matrix(
            h,
            r,
            t,
        ) == exact::l_matrix(f, r, t) by {}
    }
}

proof fn lemma_cancel(c: real, q: real, d: real, e: real, x: real, y: real)
    requires
        c * q + e * y == c * (q + d * x),
        e == c * d,
        c != 0real,
        d != 0real,
    ensures
        x == y,
{
    assert(c * (q + d * x) == c * q + (c * d) * x) by (nonlinear_arith);
    assert(e != 0real) by (nonlinear_arith)
        requires
            e == c * d,
            c != 0real,
            d != 0real,
    ;
    assert(x == y) by (nonlinear_arith)
        requires
            e * y == e * x,
            e != 0real,
    ;
}

/// An entry of `L D Lᵀ` but for its last term.
spec fn prefix<T: ExactScalar>(f: model::Factors<T>, i: int, r: int) -> real {
    sums::sum(
        i,
        |t: int| exact::l_matrix(f, i, t) * exact::d_value(f, t) * exact::l_matrix(f, r, t),
    )
}

/// An entry of `L D Lᵀ`, the last term apart.
proof fn lemma_entry_split<T: ExactScalar>(f: model::Factors<T>, n: int, i: int, r: int)
    requires
        f.pivots.len() == n,
        forall|r: int, i: int| #[trigger] (f.lower)(r, i) is Some ==> 0 <= i < r < n,
        0 <= i < n,
    ensures
        exact::ldlt_entry(f, i, r) == prefix(f, i, r) + exact::d_value(f, i) * exact::l_matrix(
            f,
            r,
            i,
        ),
{
    let term = |t: int|
        exact::l_matrix(f, i, t) * exact::d_value(f, t) * exact::l_matrix(f, r, t);
    assert forall|t: int| i < t < n implies #[trigger] term(t) == 0real by {
        assert((f.lower)(i, t) is None);
        let d = exact::d_value(f, t);
        let l = exact::l_matrix(f, r, t);
        assert(0real * d * l == 0real) by (nonlinear_arith);
    }
    sums::lemma_sum_cut(i + 1, n, term);
    let d = exact::d_value(f, i);
    let l = exact::l_matrix(f, r, i);
    assert(1real * d * l == d * l) by (nonlinear_arith);
}

proof fn lemma_same_prefix<T: ExactScalar>(
    f: model::Factors<T>,
    h: model::Factors<T>,
    n: int,
    c: real,
    i: int,
    r: int,
)
    requires
        0 <= i <= r < n,
        forall|t: int| 0 <= t < i ==> #[trigger] exact::d_value(h, t) == c * exact::d_value(f, t),
        forall|r: int, t: int|
            0 <= r < n && 0 <= t < i ==> #[trigger] exact::l_matrix(h, r, t) == exact::l_matrix(
                f,
                r,
                t,
            ),
    ensures
        prefix(h, i, r) == c * prefix(f, i, r),
{
    let p = |t: int|
        exact::l_matrix(f, i, t) * exact::d_value(f, t) * exact::l_matrix(f, r, t);
    let q = |t: int|
        exact::l_matrix(h, i, t) * exact::d_value(h, t) * exact::l_matrix(h, r, t);
    let scaled = |t: int| c * p(t);
    sums::lemma_sum_times(i, c, p);
    assert forall|t: int| 0 <= t < i implies scaled(t) == #[trigger] q(t) by {
        assert(exact::d_value(h, t) == c * exact::d_value(f, t));
        assert(exact::l_matrix(h, i, t) == exact::l_matrix(f, i, t));
        assert(exact::l_matrix(h, r, t) == exact::l_matrix(f, r, t));
        let x = exact::l_matrix(f, i, t);
        let d = exact::d_value(f, t);
        let y = exact::l_matrix(f, r, t);
        assert(c * (x * d * y) == x * (c * d) * y) by (nonlinear_arith);
    }
    sums::lemma_sum_same(i, scaled, q);
}

/// The first `e` rows of the factors of a matrix that is `c` times another.
proof fn lemma_multiple_rows<T: ExactScalar>(
    a: Seq<Seq<(int, T)>>,
    b: Seq<Seq<(int, T)>>,
    c: real,
    e: int,
)
    requires
        csc::is_upper(a),
        csc::is_upper(b),
        is_multiple(a, b, c),
        c != 0real,
        0 <= e <= a.len(),
        forall|i: int| 0 <= i < e ==> T::is_finite_spec(#[trigger] outcome::pivot_at(a, i)),
        forall|i: int| 0 <= i < e ==> T::is_finite_spec(#[trigger] outcome::pivot_at(b, i)),
        forall|i: int| 0 <= i < e - 1 ==> !T::is_zero_spec(#[trigger] outcome::pivot_at(a, i)),
    ensures
        forall|i: int|
            0 <= i < e ==> T::value(#[trigger] outcome::pivot_at(b, i)) == c * T::value(
                outcome::pivot_at(a, i),
            ),
        forall|r: int, i: int|
            0 <= r < e && 0 <= i < e ==> #[trigger] exact::l_matrix(
                model::factors(b, b.len() as int),
                r,
                i,
            ) == exact::l_matrix(model::factors(a, a.len() as int), r, i),
{
    let n = a.len() as int;
    let fa = model::factors(a, n);
    let fb = model::factors(b, n);
    let f = signs::leading(fa, e);
    let h = signs::leading(fb, e);
    model::lemma_factors_shape(a, n);
    model::lemma_factors_shape(b, n);
    signs::lemma_leading(a, e);
    signs::lemma_leading(b, e);
    assert forall|k: int| 0 <= k < e - 1 implies #[trigger] exact::d_value(f.factors, k)
        != 0real by {
        assert(!T::is_zero_spec(outcome::pivot_at(a, k)));
        T::is_zero_is_exact(outcome::pivot_at(a, k));
    }
    assert forall|j: int, k: int| 0 <= j <= k < e implies #[trigger] exact::ldlt_entry(
        h.factors,
        j,
        k,
    ) == c * exact::ldlt_entry(f.factors, j, k) by {
        assert(exact::stored_sum(b[k], j) == c * exact::stored_sum(a[k], j));
        assert(exact::matrix(b, h.order[j], h.order[k]) == exact::ldlt_entry(h.factors, j, k));
        assert(exact::matrix(a, f.order[j], f.order[k]) == exact::ldlt_entry(f.factors, j, k));
    }
    lemma_unique_factors(f.factors, h.factors, e, c, e);
    assert forall|i: int| 0 <= i < e implies T::value(#[trigger] outcome::pivot_at(b, i)) == c
        * T::value(outcome::pivot_at(a, i)) by {
        assert(exact::d_value(h.factors, i) == c * exact::d_value(f.factors, i));
    }
    assert forall|r: int, i: int| 0 <= r < e && 0 <= i < e implies #[trigger] exact::l_matrix(
        fb,
        r,
        i,
    ) == exact::l_matrix(fa, r, i) by {
        assert(exact::l_matrix(h.factors, r, i) == exact::l_matrix(f.factors, r, i));
        assert((h.factors.lower)(r, i) == (fb.lower)(r, i));
        assert((f.factors.lower)(r, i) == (fa.lower)(r, i));
    }
}

/// A pivot collapses in both matrices or in neither.
proof fn lemma_multiple_collapses<T: ExactScalar>(
    a: Seq<Seq<(int, T)>>,
    b: Seq<Seq<(int, T)>>,
    c: real,
    d: T,
    e: T,
)
    requires
        is_multiple(a, b, c),
        c != 0real,
        exact::has_finite_threshold(a),
        exact::has_finite_threshold(b),
        T::is_finite_spec(d),
        T::is_finite_spec(e),
        T::value(e) == c * T::value(d),
    ensures
        outcome::is_collapsed(d, csc::scale(a, a.len() as int)) <==> outcome::is_collapsed(
            e,
            csc::scale(b, b.len() as int),
        ),
        T::value(csc::scale(b, b.len() as int)) == exact::abs(c) * T::value(
            csc::scale(a, a.len() as int),
        ),
{
    lemma_is_collapsed(a, d);
    lemma_is_collapsed(b, e);
    lemma_largest_diagonal(a, b, c, a.len() as int);
    lemma_abs_times(c, T::value(d));
    let m = exact::abs(c);
    let x = exact::abs(T::value(d));
    let s = exact::largest_diagonal(a, a.len() as int);
    let u = x * 10_000_000_000_000real;
    let v = 10_000_000_000_000real;
    assert((m * x) * v == m * (x * v)) by (nonlinear_arith);
    lemma_order_times(m, u, s);
}

/// The elimination of a multiple stops at the same column.
proof fn lemma_multiple_break<T: ExactScalar>(
    a: Seq<Seq<(int, T)>>,
    b: Seq<Seq<(int, T)>>,
    c: real,
    strict: bool,
)
    requires
        csc::is_upper(a),
        csc::is_upper(b),
        is_multiple(a, b, c),
        c != 0real,
        strict ==> exact::has_finite_threshold(a) && exact::has_finite_threshold(b),
        outcome::stays_finite(a, strict),
        outcome::stays_finite(b, strict),
    ensures
        outcome::first_break(a, strict, 0) == outcome::first_break(b, strict, 0),
        ({
            let k = outcome::first_break(a, strict, 0);
            let e = if k < a.len() {
                k + 1
            } else {
                k
            };
            &&& forall|i: int|
                0 <= i < e ==> T::is_finite_spec(#[trigger] outcome::pivot_at(a, i))
            &&& forall|i: int|
                0 <= i < e ==> T::is_finite_spec(#[trigger] outcome::pivot_at(b, i))
            &&& forall|i: int|
                0 <= i < e ==> T::value(#[trigger] outcome::pivot_at(b, i)) == c * T::value(
                    outcome::pivot_at(a, i),
                )
            &&& forall|r: int, i: int|
                0 <= r < e && 0 <= i < e ==> #[trigger] exact::l_matrix(
                    model::factors(b, b.len() as int),
                    r,
                    i,
                ) == exact::l_matrix(model::factors(a, a.len() as int), r, i)
        }),
{
    let n = a.len() as int;
    let ka = outcome::first_break(a, strict, 0);
    let kb = outcome::first_break(b, strict, 0);
    breakdown::lemma_first_break(a, strict, 0);
    breakdown::lemma_first_break(b, strict, 0);
    let k = if ka < kb {
        ka
    } else {
        kb
    };
    let e = if k < n {
        k + 1
    } else {
        k
    };
    assert forall|i: int| 0 <= i < e implies T::is_finite_spec(#[trigger] outcome::pivot_at(a, i))
        && (i < k ==> !T::is_zero_spec(outcome::pivot_at(a, i))) by {
        if i < ka {
            assert(!outcome::breaks(a, strict, i));
        }
    }
    assert forall|i: int| 0 <= i < e implies T::is_finite_spec(
        #[trigger] outcome::pivot_at(b, i),
    ) by {
        if i < kb {
            assert(!outcome::breaks(b, strict, i));
        }
    }
    assert forall|i: int| 0 <= i < e - 1 implies !T::is_zero_spec(
        #[trigger] outcome::pivot_at(a, i),
    ) by {
        assert(T::is_finite_spec(outcome::pivot_at(a, i)));
    }
    lemma_multiple_rows(a, b, c, e);
    if k < n {
        let d = outcome::pivot_at(a, k);
        let g = outcome::pivot_at(b, k);
        T::is_zero_is_exact(d);
        T::is_zero_is_exact(g);
        let x = T::value(d);
        assert(c * x == 0real <==> x == 0real) by (nonlinear_arith)
            requires
                c != 0real,
        ;
        if strict {
            lemma_multiple_collapses(a, b, c, d, g);
        }
        assert(outcome::breaks(a, strict, k) == outcome::breaks(b, strict, k));
    }
}

/// The verdict on a matrix follows from its entries: for `c` times the entries, however they are
/// stored, it is the same verdict, unless the numbers overflow.
proof fn lemma_multiple_verdict<T: ExactScalar>(
    a: Seq<Seq<(int, T)>>,
    b: Seq<Seq<(int, T)>>,
    c: real,
    strict: bool,
)
    requires
        csc::is_upper(a),
        csc::is_upper(b),
        is_multiple(a, b, c),
        c != 0real,
        strict ==> exact::has_finite_threshold(a) && exact::has_finite_threshold(b),
        outcome::stays_finite(a, strict),
        outcome::stays_finite(b, strict),
    ensures
        is_multiple_verdict(outcome::factored(a, strict), outcome::factored(b, strict), c),
{
    let n = a.len() as int;
    let k = outcome::first_break(a, strict, 0);
    lemma_multiple_break(a, b, c, strict);
    breakdown::lemma_first_break(a, strict, 0);
    breakdown::lemma_first_break(b, strict, 0);
    model::lemma_factors_shape(a, n);
    model::lemma_factors_shape(b, n);
    if k < n {
        let d = outcome::pivot_at(a, k);
        let e = outcome::pivot_at(b, k);
        assert(T::is_finite_spec(d) && T::is_finite_spec(e));
        T::is_zero_is_exact(d);
        T::is_zero_is_exact(e);
        let x = T::value(d);
        assert(T::value(e) == c * x);
        assert(c * x == 0real <==> x == 0real) by (nonlinear_arith)
            requires
                c != 0real,
        ;
        if !T::is_zero_spec(d) {
            assert(outcome::breaks(a, strict, k));
            lemma_multiple_collapses(a, b, c, d, e);
            let root = T::root_spec(outcome::tolerance::<T>());
            let sa = csc::scale(a, n);
            let sb = csc::scale(b, n);
            if T::is_finite_spec(T::times_spec(root, sa)) && T::is_finite_spec(
                T::times_spec(root, sb),
            ) {
                T::times_is_exact(root, sa);
                T::times_is_exact(root, sb);
                let r = T::value(root);
                let s = T::value(sa);
                let m = exact::abs(c);
                assert(r * (m * s) == m * (r * s)) by (nonlinear_arith);
            }
        }
    } else {
        let f = model::factors(a, n);
        let g = model::factors(b, n);
        assert forall|i: int| 0 <= i < n implies #[trigger] exact::d_value(g, i) == c
            * exact::d_value(f, i) by {
            assert(T::value(outcome::pivot_at(b, i)) == c * T::value(outcome::pivot_at(a, i)));
        }
    }
}

/// Only the entries of the matrix count, not how they are stored: whether an entry is given at
/// once or as several that add up to it, whether zeros are stored, and in which order the rows of
/// a column come, the verdict is the same, unless the numbers overflow. The factors stand for the
/// same real matrices, or the same failure comes at the same column. The same columns are reported
/// as collapsed. Where the patterns agree, so do the counts.
pub proof fn law_storage_does_not_matter<T: ExactScalar>(
    a: Seq<Seq<(int, T)>>,
    b: Seq<Seq<(int, T)>>,
    strict: bool,
)
    requires
        csc::is_upper(a),
        csc::is_upper(b),
        a.len() == b.len(),
        forall|j: int, k: int|
            0 <= j <= k < a.len() ==> #[trigger] exact::stored_sum(b[k], j) == exact::stored_sum(
                a[k],
                j,
            ),
        strict ==> exact::has_finite_threshold(a) && exact::has_finite_threshold(b),
        outcome::stays_finite(a, strict),
        outcome::stays_finite(b, strict),
    ensures
        is_multiple_verdict(outcome::factored(a, strict), outcome::factored(b, strict), 1real),
        exact::has_finite_threshold(a) && exact::has_finite_threshold(b)
            ==> outcome::collapsed_columns(a, outcome::first_break(a, strict, 0))
            == outcome::collapsed_columns(b, outcome::first_break(b, strict, 0)),
        csc::graph_of(a) == csc::graph_of(b) ==> {
            &&& outcome::entry_count(model::factors(a, a.len() as int), a.len() as int)
                == outcome::entry_count(model::factors(b, b.len() as int), b.len() as int)
            &&& outcome::flop_count(model::factors(a, a.len() as int), a.len() as int)
                == outcome::flop_count(model::factors(b, b.len() as int), b.len() as int)
        },
{
    assert forall|j: int, k: int| 0 <= j <= k < a.len() implies #[trigger] exact::stored_sum(
        b[k],
        j,
    ) == 1real * exact::stored_sum(a[k], j) by {
        let x = exact::stored_sum(a[k], j);
        assert(1real * x == x) by (nonlinear_arith);
    }
    lemma_multiple_verdict(a, b, 1real, strict);
    lemma_multiple_break(a, b, 1real, strict);
    breakdown::lemma_first_break(a, strict, 0);
    if exact::has_finite_threshold(a) && exact::has_finite_threshold(b) {
        lemma_multiple_columns(a, b, 1real, strict, outcome::first_break(a, strict, 0));
    }
    if csc::graph_of(a) == csc::graph_of(b) {
        structure::law_pattern_fixes_the_counts(a, b, a.len() as int);
    }
}

/// The same columns collapse in a multiple.
proof fn lemma_multiple_columns<T: ExactScalar>(
    a: Seq<Seq<(int, T)>>,
    b: Seq<Seq<(int, T)>>,
    c: real,
    strict: bool,
    k: int,
)
    requires
        csc::is_upper(a),
        csc::is_upper(b),
        is_multiple(a, b, c),
        c != 0real,
        exact::has_finite_threshold(a) && exact::has_finite_threshold(b),
        outcome::stays_finite(a, strict),
        outcome::stays_finite(b, strict),
        k <= outcome::first_break(a, strict, 0),
    ensures
        outcome::collapsed_columns(a, k) == outcome::collapsed_columns(b, k),
    decreases k,
{
    if k > 0 {
        lemma_multiple_columns(a, b, c, strict, k - 1);
        lemma_multiple_break(a, b, c, strict);
        breakdown::lemma_first_break(a, strict, 0);
        let d = outcome::pivot_at(a, k - 1);
        let e = outcome::pivot_at(b, k - 1);
        assert(T::value(e) == c * T::value(d));
        assert(T::is_finite_spec(d) && T::is_finite_spec(e));
        lemma_multiple_collapses(a, b, c, d, e);
        T::is_zero_is_exact(d);
        T::is_zero_is_exact(e);
        let x = T::value(d);
        assert(c * x == 0real <==> x == 0real) by (nonlinear_arith)
            requires
                c != 0real,
        ;
    }
}

/// The matrix `b` stores what `a` stores, each value times `c`.
pub open spec fn is_stored_multiple<T: ExactScalar>(
    a: Seq<Seq<(int, T)>>,
    b: Seq<Seq<(int, T)>>,
    c: real,
) -> bool {
    &&& a.len() == b.len()
    &&& forall|k: int| 0 <= k < a.len() ==> (#[trigger] a[k]).len() == b[k].len()
    &&& forall|k: int, t: int|
        0 <= k < a.len() && 0 <= t < a[k].len() ==> b[k][t].0 == (#[trigger] a[k][t]).0
            && T::value(b[k][t].1) == c * T::value(a[k][t].1)
}

proof fn lemma_stored_multiple<T: ExactScalar>(
    p: Seq<(int, T)>,
    q: Seq<(int, T)>,
    c: real,
    j: int,
)
    requires
        p.len() == q.len(),
        forall|t: int|
            0 <= t < p.len() ==> q[t].0 == (#[trigger] p[t]).0 && T::value(q[t].1) == c * T::value(
                p[t].1,
            ),
    ensures
        csc::values_at(p, j).len() == csc::values_at(q, j).len(),
        exact::stored_sum(q, j) == c * exact::stored_sum(p, j),
    decreases p.len(),
{
    let value = |v: T| T::value(v);
    if p.len() == 0 {
        assert(csc::values_at(q, j).map_values(value).len() == 0);
        assert(csc::values_at(p, j).map_values(value).len() == 0);
        assert(c * 0real == 0real) by (nonlinear_arith);
    } else {
        let p0 = p.drop_last();
        let q0 = q.drop_last();
        assert forall|t: int| 0 <= t < p0.len() implies q0[t].0 == (#[trigger] p0[t]).0
            && T::value(q0[t].1) == c * T::value(p0[t].1) by {
            assert(p0[t] == p[t]);
        }
        lemma_stored_multiple(p0, q0, c, j);
        let last = p[p.len() - 1];
        assert(q[p.len() - 1].0 == last.0);
        if last.0 == j {
            let pv = csc::values_at(p, j).map_values(value);
            let qv = csc::values_at(q, j).map_values(value);
            assert(pv.drop_last() =~= csc::values_at(p0, j).map_values(value));
            assert(qv.drop_last() =~= csc::values_at(q0, j).map_values(value));
            let s = exact::stored_sum(p0, j);
            let x = T::value(last.1);
            assert(c * (s + x) == c * s + c * x) by (nonlinear_arith);
        }
    }
}

/// Scaling a matrix scales its pivots and keeps the verdict, unless the numbers overflow: the test
/// for destroyed pivots is relative. Changing all the signs is one case, and changing the unit of
/// measurement another.
pub proof fn law_scaling_keeps_the_verdict<T: ExactScalar>(
    a: Seq<Seq<(int, T)>>,
    b: Seq<Seq<(int, T)>>,
    c: real,
    strict: bool,
)
    requires
        csc::is_upper(a),
        is_stored_multiple(a, b, c),
        c != 0real,
        strict ==> exact::has_finite_threshold(a) && exact::has_finite_threshold(b),
        outcome::stays_finite(a, strict),
        outcome::stays_finite(b, strict),
    ensures
        is_multiple_verdict(outcome::factored(a, strict), outcome::factored(b, strict), c),
        outcome::entry_count(model::factors(a, a.len() as int), a.len() as int)
            == outcome::entry_count(model::factors(b, b.len() as int), b.len() as int),
        outcome::flop_count(model::factors(a, a.len() as int), a.len() as int)
            == outcome::flop_count(model::factors(b, b.len() as int), b.len() as int),
{
    let n = a.len() as int;
    assert forall|k: int, t: int| 0 <= k < b.len() && 0 <= t < b[k].len() implies 0 <= (
    #[trigger] b[k][t]).0 <= k by {
        assert(a[k].len() == b[k].len());
        assert(0 <= a[k][t].0 <= k);
    }
    assert forall|j: int, k: int| 0 <= k < n implies #[trigger] exact::stored_sum(b[k], j) == c
        * exact::stored_sum(a[k], j) && csc::values_at(a[k], j).len() == csc::values_at(
        b[k],
        j,
    ).len() by {
        assert(a[k].len() == b[k].len());
        assert forall|t: int| 0 <= t < a[k].len() implies b[k][t].0 == (#[trigger] a[k][t]).0
            && T::value(b[k][t].1) == c * T::value(a[k][t].1) by {}
        lemma_stored_multiple(a[k], b[k], c, j);
    }
    lemma_multiple_verdict(a, b, c, strict);
    assert forall|u: int, v: int| #[trigger] csc::graph_of(a)(u, v) == csc::graph_of(b)(u, v) by {
        if 0 <= u < n && 0 <= v < n {
            assert(exact::stored_sum(b[v], u) == c * exact::stored_sum(a[v], u));
            assert(exact::stored_sum(b[u], v) == c * exact::stored_sum(a[u], v));
        }
    }
    assert(csc::graph_of(a) =~= csc::graph_of(b));
    structure::law_pattern_fixes_the_counts(a, b, n);
}

proof fn lemma_largest_diagonal_leading<T: ExactScalar>(a: Seq<Seq<(int, T)>>, m: int, k: int)
    requires
        0 <= m <= k <= a.len(),
    ensures
        exact::largest_diagonal(a.take(m), m) <= exact::largest_diagonal(a, k),
    decreases k,
{
    if k > m {
        lemma_largest_diagonal_leading(a, m, k - 1);
    } else {
        lemma_largest_diagonal_same(a, m, m);
    }
}

proof fn lemma_largest_diagonal_same<T: ExactScalar>(a: Seq<Seq<(int, T)>>, m: int, k: int)
    requires
        0 <= k <= m <= a.len(),
    ensures
        exact::largest_diagonal(a.take(m), k) == exact::largest_diagonal(a, k),
    decreases k,
{
    if k > 0 {
        lemma_largest_diagonal_same(a, m, k - 1);
    }
}

/// A leading block of a matrix that can be factored can be factored, with the leading pivots: its
/// pivots are the same numbers, and are compared with a diagonal that is no larger.
pub proof fn law_leading_block_can_be_factored<T: ExactScalar>(
    a: Seq<Seq<(int, T)>>,
    f: outcome::Factorization<T>,
    m: int,
)
    requires
        csc::is_upper(a),
        outcome::factored(a, true) == Ok::<_, Fault<T>>(f),
        0 <= m <= a.len(),
        T::is_finite_spec(T::times_spec(outcome::tolerance(), csc::scale(a, a.len() as int))),
        T::is_finite_spec(T::times_spec(outcome::tolerance(), csc::scale(a.take(m), m))),
    ensures
        outcome::factored(a.take(m), true) matches Ok(g) && {
            &&& g.factors.pivots == f.factors.pivots.take(m)
            &&& outcome::entry_count(g.factors, m) <= outcome::entry_count(
                f.factors,
                a.len() as int,
            )
        },
{
    let n = a.len() as int;
    let b = a.take(m);
    lemma_finite_diagonal(a, f);
    assert forall|k: int| 0 <= k < m implies T::is_finite_spec(#[trigger] csc::entry(b[k], k)) by {
        assert(T::is_finite_spec(csc::entry(a[k], k)));
    }
    breakdown::law_every_returned_pivot_is_sound(a);
    lemma_largest_diagonal_leading(a, m, n);
    assert forall|k: int| 0 <= k < m && outcome::is_collapsed(
        #[trigger] outcome::pivot_at(a, k),
        csc::scale(b, m),
    ) implies outcome::is_collapsed(outcome::pivot_at(a, k), csc::scale(a, n)) by {
        let d = outcome::pivot_at(a, k);
        assert(T::is_finite_spec(d));
        lemma_is_collapsed(a, d);
        lemma_is_collapsed(b, d);
    }
    structure::law_leading_block_is_factored_with_the_matrix(a, f, m);
}

} // verus!
