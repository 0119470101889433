//! The signs of the pivots are the signs of the matrix's quadratic form.
use vstd::prelude::*;

use crate::csc;
use crate::error::Fault;
use crate::exact;
use crate::graph;
use crate::inertia;
use crate::laws::breakdown;
use crate::laws::solving;
use crate::model;
use crate::ordering;
use crate::outcome;
use crate::permute;
use crate::scalar::{ExactScalar, Scalar};
use crate::sums;

verus! {

/// The number of negative pivots.
pub open spec fn negatives<T: Scalar>(d: Seq<T>) -> int {
    graph::count(d.len() as int, |k: int| T::less_spec(d[k], T::of_u64_spec(0)))
}

/// The number of positive pivots.
pub open spec fn positives<T: Scalar>(d: Seq<T>) -> int {
    graph::count(d.len() as int, |k: int| T::less_spec(T::of_u64_spec(0), d[k]))
}

proof fn lemma_sign_counts<T: ExactScalar>(f: model::Factors<T>)
    requires
        exact::all_finite(f.pivots),
    ensures
        negatives(f.pivots) == inertia::negative_count(inertia::pivot_values(f)),
        positives(f.pivots) == inertia::positive_count(inertia::pivot_values(f)),
{
    let n = f.pivots.len() as int;
    let d = inertia::pivot_values(f);
    let zero = T::of_u64_spec(0);
    T::zero_is_exact();
    let neg = |k: int| T::less_spec(f.pivots[k], zero);
    let pos = |k: int| T::less_spec(zero, f.pivots[k]);
    let neg_value = |k: int| d[k] < 0real;
    let pos_value = |k: int| d[k] > 0real;
    assert forall|k: int| 0 <= k < n implies neg(k) == #[trigger] neg_value(k) by {
        T::less_is_exact(f.pivots[k], zero);
    }
    assert forall|k: int| 0 <= k < n implies pos(k) == #[trigger] pos_value(k) by {
        T::less_is_exact(zero, f.pivots[k]);
    }
    graph::lemma_count_same(n, neg, neg_value);
    graph::lemma_count_same(n, pos, pos_value);
}

/// Sylvester's law: however the quadratic form of the matrix is written as a sum of squares of `n`
/// functionals that vanish together at zero alone, it has as many negative and as many positive
/// coefficients as the factorization has negative and positive pivots. The eigenvalues of the
/// matrix, with the functionals that an orthonormal basis of eigenvectors gives, are such
/// coefficients.
pub proof fn law_pivot_signs_are_the_inertia<T: ExactScalar>(
    f: outcome::Factorization<T>,
    n: int,
    m: spec_fn(int, int) -> real,
    coef: Seq<real>,
    rows: Seq<inertia::RealVector>,
)
    requires
        exact::factorizes(f, n, m),
        coef.len() == n,
        rows.len() == n,
        inertia::independent(n, rows),
        forall|x: inertia::RealVector| #[trigger]
            inertia::quadratic(n, m, x) == inertia::squares(n, coef, rows, x),
    ensures
        negatives(f.factors.pivots) == inertia::negative_count(coef),
        positives(f.factors.pivots) == inertia::positive_count(coef),
{
    let d = inertia::pivot_values(f.factors);
    let own = inertia::pivot_rows(f);
    lemma_sign_counts(f.factors);
    inertia::lemma_pivot_rows_independent(f, n, m);
    assert forall|x: inertia::RealVector|
        inertia::squares(n, d, own, x) == inertia::squares(n, coef, rows, x) by {
        inertia::lemma_quadratic(f, n, m, x);
        assert(inertia::quadratic(n, m, x) == inertia::squares(n, coef, rows, x));
    }
    inertia::lemma_negative_count_monotone(n, d, own, coef, rows);
    inertia::lemma_negative_count_monotone(n, coef, rows, d, own);
    let d2 = inertia::negated(d);
    let coef2 = inertia::negated(coef);
    assert forall|x: inertia::RealVector|
        inertia::squares(n, d2, own, x) == inertia::squares(n, coef2, rows, x) by {
        inertia::lemma_negated(n, d, own, x);
        inertia::lemma_negated(n, coef, rows, x);
        assert(inertia::squares(n, d, own, x) == inertia::squares(n, coef, rows, x));
    }
    inertia::lemma_negative_count_monotone(n, d2, own, coef2, rows);
    inertia::lemma_negative_count_monotone(n, coef2, rows, d2, own);
    inertia::lemma_negated_count(d);
    inertia::lemma_negated_count(coef);
}

/// Every pivot of a factorization that succeeds has a sign: it is negative or positive.
pub proof fn law_every_pivot_has_a_sign<T: ExactScalar>(
    a: Seq<Seq<(int, T)>>,
    order: Option<Seq<int>>,
    f: outcome::Factorization<T>,
)
    requires
        csc::is_upper(a),
        solving::is_order(a.len() as int, order),
        outcome::attempt(a, order) == Ok::<_, Fault<T>>(f),
    ensures
        negatives(f.factors.pivots) + positives(f.factors.pivots) == a.len(),
{
    let n = a.len() as int;
    let d = inertia::pivot_values(f.factors);
    solving::lemma_attempt_shape(a, order, f);
    solving::lemma_attempt_nonzero(a, order, f);
    solving::lemma_attempt_exact(a, order, f);
    lemma_sign_counts(f.factors);
    let neg = |i: int| d[i] < 0real;
    let pos = |i: int| d[i] > 0real;
    assert forall|i: int| 0 <= i < n implies #[trigger] pos(i) == !neg(i) by {
        assert(exact::d_value(f.factors, i) != 0real);
    }
    graph::lemma_count_complement(n, neg, pos);
}

/// The inertia does not depend on the elimination order: factoring a matrix in any two orders
/// gives as many negative, and as many positive, pivots.
pub proof fn law_inertia_does_not_depend_on_the_order<T: ExactScalar>(
    a: Seq<Seq<(int, T)>>,
    order1: Option<Seq<int>>,
    order2: Option<Seq<int>>,
    f: outcome::Factorization<T>,
    g: outcome::Factorization<T>,
)
    requires
        csc::is_upper(a),
        solving::is_order(a.len() as int, order1),
        solving::is_order(a.len() as int, order2),
        outcome::attempt(a, order1) == Ok::<_, Fault<T>>(f),
        outcome::attempt(a, order2) == Ok::<_, Fault<T>>(g),
    ensures
        negatives(f.factors.pivots) == negatives(g.factors.pivots),
        positives(f.factors.pivots) == positives(g.factors.pivots),
{
    let n = a.len() as int;
    let m = |j: int, k: int| exact::matrix(a, j, k);
    solving::lemma_attempt_exact(a, order1, f);
    solving::lemma_attempt_exact(a, order2, g);
    let d = inertia::pivot_values(g.factors);
    let rows = inertia::pivot_rows(g);
    inertia::lemma_pivot_rows_independent(g, n, m);
    lemma_sign_counts(g.factors);
    assert forall|x: inertia::RealVector| #[trigger]
        inertia::quadratic(n, m, x) == inertia::squares(n, d, rows, x) by {
        inertia::lemma_quadratic(g, n, m, x);
    }
    law_pivot_signs_are_the_inertia(f, n, m, d, rows);
}

/// A larger shift never gives more negative pivots: the number of negative pivots of `A + s I`
/// counts the eigenvalues of `A` below `-s`, so it falls as `s` grows.
pub proof fn law_negative_pivots_fall_with_the_shift<T: ExactScalar>(
    a: Seq<Seq<(int, T)>>,
    shift1: real,
    shift2: real,
    f: outcome::Factorization<T>,
    g: outcome::Factorization<T>,
)
    requires
        shift1 <= shift2,
        exact::factorizes(
            f,
            a.len() as int,
            |j: int, k: int| exact::shifted_matrix(a, shift1, j, k),
        ),
        exact::factorizes(
            g,
            a.len() as int,
            |j: int, k: int| exact::shifted_matrix(a, shift2, j, k),
        ),
    ensures
        negatives(g.factors.pivots) <= negatives(f.factors.pivots),
{
    let n = a.len() as int;
    let m1 = |j: int, k: int| exact::shifted_matrix(a, shift1, j, k);
    let m2 = |j: int, k: int| exact::shifted_matrix(a, shift2, j, k);
    let d1 = inertia::pivot_values(f.factors);
    let d2 = inertia::pivot_values(g.factors);
    let rows1 = inertia::pivot_rows(f);
    let rows2 = inertia::pivot_rows(g);
    let e = shift2 - shift1;
    inertia::lemma_pivot_rows_independent(g, n, m2);
    lemma_sign_counts(f.factors);
    lemma_sign_counts(g.factors);
    assert forall|x: inertia::RealVector| #[trigger]
        inertia::squares(n, d1, rows1, x) <= inertia::squares(n, d2, rows2, x) by {
        inertia::lemma_quadratic(f, n, m1, x);
        inertia::lemma_quadratic(g, n, m2, x);
        inertia::lemma_diagonal_shift(n, m1, m2, e, x);
        let square = |i: int| x(i) * x(i);
        assert forall|i: int| 0 <= i < n implies #[trigger] square(i) >= 0real by {
            let y = x(i);
            assert(y * y >= 0real) by (nonlinear_arith);
        }
        sums::lemma_sum_nonnegative(n, square);
        let s = inertia::dot(n, x, x);
        assert(e * s >= 0real) by (nonlinear_arith)
            requires
                e >= 0real,
                s >= 0real,
        ;
    }
    inertia::lemma_negative_count_monotone(n, d2, rows2, d1, rows1);
}

/// The eigenvalues of the matrix, each with the functional that its eigenvector gives: the form of
/// the matrix is the sum of the squares of the functionals times the eigenvalues, and the squares
/// themselves add up to the square of the length.
pub open spec fn is_spectrum(
    n: int,
    m: spec_fn(int, int) -> real,
    eigenvalues: Seq<real>,
    rows: Seq<inertia::RealVector>,
) -> bool {
    &&& eigenvalues.len() == n
    &&& rows.len() == n
    &&& forall|x: inertia::RealVector| #[trigger]
        inertia::quadratic(n, m, x) == inertia::squares(n, eigenvalues, rows, x)
    &&& forall|x: inertia::RealVector| #[trigger]
        inertia::dot(n, x, x) == inertia::squares(n, ones(n), rows, x)
}

/// A list of ones.
pub open spec fn ones(n: int) -> Seq<real> {
    Seq::new(n as nat, |i: int| 1real)
}

/// The Sturm count: the negative pivots of `A + s I` are as many as the eigenvalues of `A` below
/// `-s`, and the positive ones as many as those above. So there is none where every eigenvalue lies
/// above `-s`, and every pivot is negative where every eigenvalue lies below.
pub proof fn law_negative_pivots_count_eigenvalues<T: ExactScalar>(
    a: Seq<Seq<(int, T)>>,
    shift: real,
    f: outcome::Factorization<T>,
    eigenvalues: Seq<real>,
    rows: Seq<inertia::RealVector>,
)
    requires
        exact::factorizes(
            f,
            a.len() as int,
            |j: int, k: int| exact::shifted_matrix(a, shift, j, k),
        ),
        is_spectrum(
            a.len() as int,
            |j: int, k: int| exact::matrix(a, j, k),
            eigenvalues,
            rows,
        ),
    ensures
        negatives(f.factors.pivots) == graph::count(
            a.len() as int,
            |i: int| eigenvalues[i] < -shift,
        ),
        positives(f.factors.pivots) == graph::count(
            a.len() as int,
            |i: int| eigenvalues[i] > -shift,
        ),
        (forall|i: int| 0 <= i < a.len() ==> #[trigger] eigenvalues[i] > -shift)
            ==> negatives(f.factors.pivots) == 0,
        (forall|i: int| 0 <= i < a.len() ==> #[trigger] eigenvalues[i] < -shift)
            ==> negatives(f.factors.pivots) == a.len(),
{
    let n = a.len() as int;
    let m = |j: int, k: int| exact::matrix(a, j, k);
    let m2 = |j: int, k: int| exact::shifted_matrix(a, shift, j, k);
    let s = shift;
    let coef = eigenvalues.map_values(|x: real| x + s);
    let unit = ones(n);
    assert forall|x: inertia::RealVector| #[trigger]
        inertia::quadratic(n, m2, x) == inertia::squares(n, coef, rows, x) by {
        inertia::lemma_diagonal_shift(n, m, m2, s, x);
        assert(inertia::quadratic(n, m, x) == inertia::squares(n, eigenvalues, rows, x));
        assert(inertia::dot(n, x, x) == inertia::squares(n, unit, rows, x));
        let square = |i: int| inertia::dot(n, rows[i], x) * inertia::dot(n, rows[i], x);
        let p = |i: int| eigenvalues[i] * square(i);
        let q = |i: int| unit[i] * square(i);
        let q2 = |i: int| s * q(i);
        let r = |i: int| coef[i] * square(i);
        sums::lemma_sum_times(n, s, q);
        sums::lemma_sum_plus(n, p, q2);
        assert forall|i: int| 0 <= i < n implies p(i) + q2(i) == #[trigger] r(i) by {
            let e = eigenvalues[i];
            let y = square(i);
            assert(e * y + s * (1real * y) == (e + s) * y) by (nonlinear_arith);
        }
        sums::lemma_sum_same(n, |i: int| p(i) + q2(i), r);
        sums::lemma_sum_same(
            n,
            p,
            |i: int| eigenvalues[i] * (inertia::dot(n, rows[i], x) * inertia::dot(n, rows[i], x)),
        );
        sums::lemma_sum_same(
            n,
            q,
            |i: int| unit[i] * (inertia::dot(n, rows[i], x) * inertia::dot(n, rows[i], x)),
        );
        sums::lemma_sum_same(
            n,
            r,
            |i: int| coef[i] * (inertia::dot(n, rows[i], x) * inertia::dot(n, rows[i], x)),
        );
    }
    assert forall|x: inertia::RealVector| #[trigger]
        inertia::vanish(n, rows, x) implies inertia::is_zero_vector(n, x) by {
        assert(inertia::dot(n, x, x) == inertia::squares(n, unit, rows, x));
        let term = |i: int| unit[i] * (inertia::dot(n, rows[i], x) * inertia::dot(n, rows[i], x));
        assert forall|i: int| 0 <= i < n implies #[trigger] term(i) == 0real by {
            assert(inertia::dot(n, rows[i], x) == 0real);
            assert(1real * (0real * 0real) == 0real) by (nonlinear_arith);
        }
        sums::lemma_sum_zero(n, term);
        let square = |i: int| x(i) * x(i);
        assert forall|i: int| 0 <= i < n implies #[trigger] square(i) >= 0real && (x(i) != 0real
            ==> square(i) > 0real) by {
            let y = x(i);
            assert(y * y >= 0real && (y != 0real ==> y * y > 0real)) by (nonlinear_arith);
        }
        sums::lemma_sum_nonnegative(n, square);
        assert(sums::sum(n, square) == 0real);
        assert forall|i: int| 0 <= i < n implies #[trigger] x(i) == 0real by {
            assert(square(i) >= 0real);
        }
    }
    law_pivot_signs_are_the_inertia(f, n, m2, coef, rows);
    let below = |i: int| eigenvalues[i] < -s;
    let above = |i: int| eigenvalues[i] > -s;
    graph::lemma_count_same(n, |i: int| coef[i] < 0real, below);
    graph::lemma_count_same(n, |i: int| coef[i] > 0real, above);
    let not_below = |i: int| !below(i);
    graph::lemma_count_complement(n, below, not_below);
    if forall|i: int| 0 <= i < n ==> #[trigger] eigenvalues[i] > -s {
        assert forall|i: int| 0 <= i < n implies #[trigger] not_below(i) by {
            assert(eigenvalues[i] > -s);
        }
        graph::lemma_count_all(n, not_below);
    }
    if forall|i: int| 0 <= i < n ==> #[trigger] eigenvalues[i] < -s {
        assert forall|i: int| 0 <= i < n implies #[trigger] below(i) by {
            assert(eigenvalues[i] < -s);
        }
        graph::lemma_count_all(n, below);
    }
}

/// Sturm's counts: of two shifts of a matrix that can be factored, in whatever order, the larger
/// gives no more negative pivots, and each counts the eigenvalues that lie below the negated shift:
/// none where all lie above, and all where all lie below.
pub proof fn law_sturm_counts<T: ExactScalar>(
    a: Seq<Seq<(int, T)>>,
    b1: Seq<Seq<(int, T)>>,
    b2: Seq<Seq<(int, T)>>,
    shift1: real,
    shift2: real,
    order1: Option<Seq<int>>,
    order2: Option<Seq<int>>,
    f: outcome::Factorization<T>,
    g: outcome::Factorization<T>,
    eigenvalues: Seq<real>,
    rows: Seq<inertia::RealVector>,
)
    requires
        csc::is_upper(b1),
        csc::is_upper(b2),
        solving::is_shifted(a, b1, shift1),
        solving::is_shifted(a, b2, shift2),
        shift1 <= shift2,
        solving::is_order(a.len() as int, order1),
        solving::is_order(a.len() as int, order2),
        outcome::attempt(b1, order1) == Ok::<_, Fault<T>>(f),
        outcome::attempt(b2, order2) == Ok::<_, Fault<T>>(g),
    ensures
        negatives(g.factors.pivots) <= negatives(f.factors.pivots),
        is_spectrum(
            a.len() as int,
            |j: int, k: int| exact::matrix(a, j, k),
            eigenvalues,
            rows,
        ) ==> {
            &&& negatives(f.factors.pivots) == graph::count(
                a.len() as int,
                |i: int| eigenvalues[i] < -shift1,
            )
            &&& negatives(g.factors.pivots) == graph::count(
                a.len() as int,
                |i: int| eigenvalues[i] < -shift2,
            )
            &&& (forall|i: int| 0 <= i < a.len() ==> #[trigger] eigenvalues[i] > -shift2)
                ==> negatives(g.factors.pivots) == 0
            &&& (forall|i: int| 0 <= i < a.len() ==> #[trigger] eigenvalues[i] < -shift1)
                ==> negatives(f.factors.pivots) == a.len()
        },
{
    solving::law_factors_of_a_shifted_matrix(a, b1, shift1, order1, f);
    solving::law_factors_of_a_shifted_matrix(a, b2, shift2, order2, g);
    law_negative_pivots_fall_with_the_shift(a, shift1, shift2, f, g);
    if is_spectrum(
        a.len() as int,
        |j: int, k: int| exact::matrix(a, j, k),
        eigenvalues,
        rows,
    ) {
        law_negative_pivots_count_eigenvalues(a, shift1, f, eigenvalues, rows);
        law_negative_pivots_count_eigenvalues(a, shift2, g, eigenvalues, rows);
    }
}

/// The first `k` rows of a factorization.
pub open spec fn leading<T: ExactScalar>(f: model::Factors<T>, k: int) -> outcome::Factorization<T> {
    outcome::Factorization {
        factors: model::Factors {
            lower: |r: int, i: int|
                if r < k {
                    (f.lower)(r, i)
                } else {
                    None
                },
            pivots: f.pivots.take(k),
        },
        order: outcome::identity(k),
        shift: T::of_u64_spec(0),
    }
}

/// The first rows of the factors are factors of the leading block.
pub proof fn lemma_leading<T: ExactScalar>(a: Seq<Seq<(int, T)>>, k: int)
    requires
        csc::is_upper(a),
        0 <= k <= a.len(),
        forall|i: int| 0 <= i < k ==> T::is_finite_spec(#[trigger] outcome::pivot_at(a, i)),
    ensures
        exact::factorizes(
            leading(model::factors(a, a.len() as int), k),
            k,
            |i: int, j: int| exact::matrix(a, i, j),
        ),
{
    let n = a.len() as int;
    let f = model::factors(a, n);
    let h = leading(f, k);
    let m = |i: int, j: int| exact::matrix(a, i, j);
    model::lemma_factors_shape(a, n);
    csc::lemma_graph_of(a);
    solving::lemma_identity(k);
    assert forall|r: int, i: int| #[trigger] (f.lower)(r, i) is Some implies 0 <= i < r < n by {
        graph::lemma_fills_bounds(n, csc::graph_of(a), i, r);
    }
    assert forall|r: int, i: int| #[trigger] (h.factors.lower)(r, i) is Some implies 0 <= i < r
        < k by {
        assert((f.lower)(r, i) is Some);
    }
    assert forall|i: int| 0 <= i < k implies T::is_finite_spec(#[trigger] h.factors.pivots[i]) by {
        assert(T::is_finite_spec(outcome::pivot_at(a, i)));
    }
    assert forall|i: int, j: int| 0 <= i < k && 0 <= j < k implies m(h.order[i], h.order[j])
        == #[trigger] exact::ldlt_entry(h.factors, i, j) by {
        assert(T::is_finite_spec(outcome::pivot_at(a, i)));
        assert(T::is_finite_spec(outcome::pivot_at(a, j)));
        if i <= j {
            exact::lemma_reconstruction(a, i, j);
        } else {
            exact::lemma_reconstruction(a, j, i);
            exact::lemma_ldlt_symmetric(f, i, j);
        }
        let long = |t: int|
            exact::l_matrix(f, i, t) * exact::d_value(f, t) * exact::l_matrix(f, j, t);
        let short = |t: int|
            exact::l_matrix(h.factors, i, t) * exact::d_value(h.factors, t) * exact::l_matrix(
                h.factors,
                j,
                t,
            );
        assert forall|t: int| k <= t < n implies #[trigger] long(t) == 0real by {
            assert((f.lower)(i, t) is None);
            let d = exact::d_value(f, t);
            let l = exact::l_matrix(f, j, t);
            assert(0real * d * l == 0real) by (nonlinear_arith);
        }
        sums::lemma_sum_cut(k, n, long);
        assert forall|t: int| 0 <= t < k implies long(t) == #[trigger] short(t) by {
            assert((h.factors.lower)(i, t) == (f.lower)(i, t));
            assert((h.factors.lower)(j, t) == (f.lower)(j, t));
        }
        sums::lemma_sum_same(k, long, short);
    }
}

/// Quasidefinite matrices never break down: where the matrix is positive definite on some of its
/// rows and negative definite on the others, no pivot is zero, and the pivot of a row has the sign
/// of the row. Unless a pivot overflows, factoring succeeds where collapsed pivots are reported, and
/// otherwise stops at nothing but a collapsed pivot. Positive definite matrices are those with no
/// row of the second kind.
pub proof fn law_quasidefinite_never_breaks_down<T: ExactScalar>(
    a: Seq<Seq<(int, T)>>,
    p: spec_fn(int) -> bool,
    strict: bool,
)
    requires
        csc::is_upper(a),
        inertia::is_quasidefinite(
            a.len() as int,
            |j: int, k: int| exact::matrix(a, j, k),
            p,
        ),
    ensures
        match outcome::factored(a, strict) {
            Ok(f) => strict || exact::all_finite(f.factors.pivots) ==> forall|k: int|
                0 <= k < a.len() ==> if p(k) {
                    T::less_spec(T::of_u64_spec(0), #[trigger] f.factors.pivots[k])
                } else {
                    T::less_spec(f.factors.pivots[k], T::of_u64_spec(0))
                },
            Err(fault) => outcome::stays_finite(a, strict) ==> strict && fault is NearZeroPivot,
        },
{
    let n = a.len() as int;
    let end = outcome::first_break(a, strict, 0);
    breakdown::lemma_first_break(a, strict, 0);
    if end < n {
        if outcome::stays_finite(a, strict) {
            lemma_pivot_sign(a, p, end);
        }
    } else {
        let f = model::factors(a, n);
        model::lemma_factors_shape(a, n);
        if strict {
            breakdown::law_success_means_finite_pivots(a, outcome::factored(a, strict)->Ok_0);
        }
        if exact::all_finite(f.pivots) {
            assert forall|k: int| 0 <= k < n implies if p(k) {
                T::less_spec(T::of_u64_spec(0), #[trigger] f.pivots[k])
            } else {
                T::less_spec(f.pivots[k], T::of_u64_spec(0))
            } by {
                assert forall|i: int| 0 <= i <= k implies T::is_finite_spec(
                    #[trigger] outcome::pivot_at(a, i),
                ) by {
                    assert(T::is_finite_spec(f.pivots[i]));
                }
                lemma_pivot_sign(a, p, k);
            }
        }
    }
}

/// The pivot of a row of a quasidefinite matrix has the sign of the row, as long as no pivot up to
/// it overflows.
proof fn lemma_pivot_sign<T: ExactScalar>(
    a: Seq<Seq<(int, T)>>,
    p: spec_fn(int) -> bool,
    k: int,
)
    requires
        csc::is_upper(a),
        0 <= k < a.len(),
        inertia::is_quasidefinite(
            a.len() as int,
            |j: int, k: int| exact::matrix(a, j, k),
            p,
        ),
        forall|i: int| 0 <= i <= k ==> T::is_finite_spec(#[trigger] outcome::pivot_at(a, i)),
    ensures
        !T::is_zero_spec(outcome::pivot_at(a, k)),
        if p(k) {
            T::less_spec(T::of_u64_spec(0), outcome::pivot_at(a, k))
        } else {
            T::less_spec(outcome::pivot_at(a, k), T::of_u64_spec(0))
        },
{
    lemma_leading_counts(a, p, k);
    lemma_leading_counts(a, p, k + 1);
    let d = outcome::pivot_at(a, k);
    T::zero_is_exact();
    T::less_is_exact(d, T::of_u64_spec(0));
    T::less_is_exact(T::of_u64_spec(0), d);
    T::is_zero_is_exact(d);
}

/// The signs of the first pivots of a quasidefinite matrix.
proof fn lemma_leading_counts<T: ExactScalar>(
    a: Seq<Seq<(int, T)>>,
    p: spec_fn(int) -> bool,
    k: int,
)
    requires
        csc::is_upper(a),
        0 <= k <= a.len(),
        inertia::is_quasidefinite(
            a.len() as int,
            |j: int, k: int| exact::matrix(a, j, k),
            p,
        ),
        forall|i: int| 0 <= i < k ==> T::is_finite_spec(#[trigger] outcome::pivot_at(a, i)),
    ensures
        graph::count(k, |i: int| T::value(outcome::pivot_at(a, i)) > 0real) == graph::count(k, p),
        graph::count(k, |i: int| T::value(outcome::pivot_at(a, i)) < 0real) == k - graph::count(
            k,
            p,
        ),
{
    let n = a.len() as int;
    let m = |j: int, k: int| exact::matrix(a, j, k);
    let h = leading(model::factors(a, n), k);
    let d = inertia::pivot_values(h.factors);
    let rows = inertia::pivot_rows(h);
    model::lemma_factors_shape(a, n);
    lemma_leading(a, k);
    inertia::lemma_quasidefinite_leading(k, n, m, p);
    assert forall|x: inertia::RealVector| #[trigger]
        inertia::quadratic(k, m, x) == inertia::squares(k, d, rows, x) by {
        inertia::lemma_quadratic(h, k, m, x);
    }
    inertia::lemma_quasidefinite_counts(k, m, p, d, rows);
    graph::lemma_count_same(
        k,
        |i: int| T::value(outcome::pivot_at(a, i)) > 0real,
        |i: int| d[i] > 0real,
    );
    graph::lemma_count_same(
        k,
        |i: int| T::value(outcome::pivot_at(a, i)) < 0real,
        |i: int| d[i] < 0real,
    );
}

/// Quasidefinite matrices never break down in any elimination order: the pivots have the signs of
/// the rows that they eliminate, and unless the numbers overflow nothing but a collapsed pivot stops
/// the factorization.
pub proof fn law_quasidefinite_never_breaks_down_in_any_order<T: ExactScalar>(
    a: Seq<Seq<(int, T)>>,
    p: spec_fn(int) -> bool,
    order: Seq<int>,
)
    requires
        csc::is_upper(a),
        inertia::is_quasidefinite(
            a.len() as int,
            |j: int, k: int| exact::matrix(a, j, k),
            p,
        ),
        ordering::is_permutation(a.len() as int, order),
    ensures
        match outcome::factored_in_order(a, order) {
            Ok(f) => forall|k: int|
                0 <= k < a.len() ==> if p(order[k]) {
                    T::less_spec(T::of_u64_spec(0), #[trigger] f.factors.pivots[k])
                } else {
                    T::less_spec(f.factors.pivots[k], T::of_u64_spec(0))
                },
            Err(fault) => !permute::has_overflow(permute::permuted(a, order))
                && outcome::stays_finite(permute::permuted(a, order), true)
                ==> fault is NearZeroPivot,
        },
{
    let n = a.len() as int;
    let b = permute::permuted(a, order);
    if !permute::has_overflow(b) {
        let m = |j: int, k: int| exact::matrix(a, j, k);
        let m2 = |j: int, k: int| exact::matrix(b, j, k);
        permute::lemma_permuted_is_upper(a, order);
        assert forall|j: int, k: int| 0 <= j < n && 0 <= k < n implies #[trigger] m2(j, k) == m(
            order[j],
            order[k],
        ) by {
            exact::lemma_permuted_matrix(a, order, j, k);
        }
        inertia::lemma_quasidefinite_permuted(n, m, p, order, m2);
        law_quasidefinite_never_breaks_down(b, |k: int| p(order[k]), true);
    }
}

/// Positive pivots prove a matrix positive definite.
pub proof fn law_positive_pivots_mean_positive_definite<T: ExactScalar>(
    f: outcome::Factorization<T>,
    n: int,
    m: spec_fn(int, int) -> real,
    x: inertia::RealVector,
)
    requires
        exact::factorizes(f, n, m),
        positives(f.factors.pivots) == n,
        !inertia::is_zero_vector(n, x),
    ensures
        inertia::quadratic(n, m, x) > 0real,
{
    let d = inertia::pivot_values(f.factors);
    let rows = inertia::pivot_rows(f);
    lemma_sign_counts(f.factors);
    inertia::lemma_quadratic(f, n, m, x);
    inertia::lemma_pivot_rows_independent(f, n, m);
    let term = |i: int| d[i] * (inertia::dot(n, rows[i], x) * inertia::dot(n, rows[i], x));
    let pos = |i: int| d[i] > 0real;
    assert forall|i: int| 0 <= i < n implies #[trigger] term(i) >= 0real && (inertia::dot(
        n,
        rows[i],
        x,
    ) != 0real ==> term(i) > 0real) by {
        graph::lemma_count_full(n, pos, i);
        assert(pos(i));
        let c = d[i];
        let s = inertia::dot(n, rows[i], x);
        assert(c * (s * s) >= 0real && (s != 0real ==> c * (s * s) > 0real)) by (nonlinear_arith)
            requires
                c > 0real,
        ;
    }
    sums::lemma_sum_nonnegative(n, term);
    assert(!inertia::vanish(n, rows, x));
    let i = choose|i: int| 0 <= i < rows.len() && inertia::dot(n, #[trigger] rows[i], x) != 0real;
    assert(term(i) > 0real);
}

} // verus!
