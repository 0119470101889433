//! The factors multiply to the matrix, and solving with them solves its system.
use vstd::prelude::*;

use crate::csc;
use crate::error::Fault;
use crate::exact;
use crate::graph;
use crate::inertia;
use crate::laws::breakdown;
use crate::model;
use crate::ordering;
use crate::outcome;
use crate::permute;
use crate::scalar::{ExactScalar, Scalar};
use crate::sums;

verus! {

/// The elimination order that a caller may hand over is a permutation of the rows.
pub open spec fn is_order(n: int, order: Option<Seq<int>>) -> bool {
    order matches Some(order) ==> ordering::is_permutation(n, order)
}

/// `A = L D Lᵀ`: in exact arithmetic, factoring a matrix gives factors of that very matrix, and
/// nothing is added to its diagonal.
pub proof fn law_factors_multiply_to_the_matrix<T: ExactScalar>(
    a: Seq<Seq<(int, T)>>,
    strict: bool,
    f: outcome::Factorization<T>,
)
    requires
        csc::is_upper(a),
        outcome::factored(a, strict) == Ok::<_, Fault<T>>(f),
        !strict ==> exact::all_finite(f.factors.pivots),
    ensures
        f.shift == T::of_u64_spec(0),
        f.order == outcome::identity(a.len() as int),
        exact::factorizes(f, a.len() as int, |j: int, k: int| exact::matrix(a, j, k)),
{
    let n = a.len() as int;
    let m = |j: int, k: int| exact::matrix(a, j, k);
    if strict {
        breakdown::law_success_means_finite_pivots(a, f);
    }
    lemma_identity(n);
    model::lemma_factors_shape(a, n);
    csc::lemma_graph_of(a);
    assert forall|r: int, i: int| #[trigger] (f.factors.lower)(r, i) is Some implies 0 <= i < r
        < n by {
        graph::lemma_fills_bounds(n, csc::graph_of(a), i, r);
    }
    assert forall|j: int, k: int| 0 <= j < n && 0 <= k < n implies m(f.order[j], f.order[k])
        == #[trigger] exact::ldlt_entry(f.factors, j, k) by {
        if j <= k {
            exact::lemma_reconstruction(a, j, k);
        } else {
            exact::lemma_reconstruction(a, k, j);
            exact::lemma_ldlt_symmetric(f.factors, j, k);
        }
    }
}

pub proof fn lemma_identity(n: int)
    requires
        n >= 0,
    ensures
        ordering::is_permutation(n, outcome::identity(n)),
{
    let s = outcome::identity(n);
    assert forall|x: int| #[trigger] s.contains(x) <==> 0 <= x < n by {
        if 0 <= x < n {
            assert(s[x] == x);
        }
    }
}

/// `P A Pᵀ = L D Lᵀ`: in exact arithmetic, factoring a matrix in a given order gives factors of
/// that very matrix, its rows and columns taken in that order.
pub proof fn law_ordered_factors_multiply_to_the_matrix<T: ExactScalar>(
    a: Seq<Seq<(int, T)>>,
    order: Seq<int>,
    f: outcome::Factorization<T>,
)
    requires
        csc::is_upper(a),
        ordering::is_permutation(a.len() as int, order),
        outcome::factored_in_order(a, order) == Ok::<_, Fault<T>>(f),
    ensures
        f.shift == T::of_u64_spec(0),
        f.order == order,
        exact::factorizes(f, a.len() as int, |j: int, k: int| exact::matrix(a, j, k)),
{
    let n = a.len() as int;
    let b = permute::permuted(a, order);
    let m = |j: int, k: int| exact::matrix(a, j, k);
    let h = outcome::factored(b, true)->Ok_0;
    permute::lemma_permuted_is_upper(a, order);
    law_factors_multiply_to_the_matrix(b, true, h);
    assert forall|j: int, k: int| 0 <= j < n && 0 <= k < n implies m(f.order[j], f.order[k])
        == #[trigger] exact::ldlt_entry(f.factors, j, k) by {
        assert(exact::ldlt_entry(h.factors, j, k) == exact::matrix(b, h.order[j], h.order[k]));
        exact::lemma_permuted_matrix(a, order, j, k);
    }
}

/// `P (A + s I) Pᵀ = L D Lᵀ`: in exact arithmetic, factoring with retries gives factors of the
/// matrix with the reported shift on its diagonal, whichever attempt succeeded.
pub proof fn law_shifted_factors_multiply_to_the_shifted_matrix<T: ExactScalar>(
    a: Seq<Seq<(int, T)>>,
    order: Option<Seq<int>>,
    f: outcome::Factorization<T>,
)
    requires
        csc::is_upper(a),
        is_order(a.len() as int, order),
        outcome::factored_with_retry(a, order) == Ok::<_, Fault<T>>(f),
    ensures
        exact::factorizes(
            f,
            a.len() as int,
            |j: int, k: int| exact::shifted_matrix(a, T::value(f.shift), j, k),
        ),
{
    let n = a.len() as int;
    let m = |j: int, k: int| exact::shifted_matrix(a, T::value(f.shift), j, k);
    if outcome::attempt(a, order) is Ok {
        lemma_attempt_exact(a, order, f);
        T::zero_is_exact();
        let plain = |j: int, k: int| exact::matrix(a, j, k);
        assert forall|j: int, k: int| 0 <= j < n && 0 <= k < n implies m(f.order[j], f.order[k])
            == #[trigger] exact::ldlt_entry(f.factors, j, k) by {
            assert(plain(f.order[j], f.order[k]) == exact::ldlt_entry(f.factors, j, k));
        }
    } else {
        law_retry_factors_the_shifted_matrix(a, order, f);
        let b = permute::shifted(a, f.shift);
        let h = outcome::attempt(b, order)->Ok_0;
        lemma_shifted_is_upper(a, f.shift);
        lemma_attempt_exact(b, order, h);
        let plain = |j: int, k: int| exact::matrix(b, j, k);
        assert forall|j: int, k: int| 0 <= j < n && 0 <= k < n implies m(f.order[j], f.order[k])
            == #[trigger] exact::ldlt_entry(f.factors, j, k) by {
            assert(plain(h.order[j], h.order[k]) == exact::ldlt_entry(h.factors, j, k));
            assert(h.order.contains(h.order[j]) && h.order.contains(h.order[k]));
            exact::lemma_shifted_matrix(a, f.shift, f.order[j], f.order[k]);
        }
    }
}

proof fn lemma_shifted_is_upper<T>(a: Seq<Seq<(int, T)>>, shift: T)
    requires
        csc::is_upper(a),
    ensures
        csc::is_upper(permute::shifted(a, shift)),
{
    let b = permute::shifted(a, shift);
    assert forall|k: int, t: int| 0 <= k < b.len() && 0 <= t < b[k].len() implies 0 <= (
    #[trigger] b[k][t]).0 <= k by {
        if t < a[k].len() {
            assert(b[k][t] == a[k][t]);
        }
    }
}

pub proof fn lemma_attempt_exact<T: ExactScalar>(
    a: Seq<Seq<(int, T)>>,
    order: Option<Seq<int>>,
    f: outcome::Factorization<T>,
)
    requires
        csc::is_upper(a),
        is_order(a.len() as int, order),
        outcome::attempt(a, order) == Ok::<_, Fault<T>>(f),
    ensures
        f.shift == T::of_u64_spec(0),
        exact::factorizes(f, a.len() as int, |j: int, k: int| exact::matrix(a, j, k)),
{
    match order {
        Some(order) => {
            law_ordered_factors_multiply_to_the_matrix(a, order, f);
        },
        None => {
            law_factors_multiply_to_the_matrix(a, true, f);
        },
    }
}

/// `b` is the matrix `a` with `shift` added to its diagonal, however it is stored.
pub open spec fn is_shifted<T: ExactScalar>(
    a: Seq<Seq<(int, T)>>,
    b: Seq<Seq<(int, T)>>,
    shift: real,
) -> bool {
    &&& a.len() == b.len()
    &&& forall|j: int, k: int|
        0 <= j < a.len() && 0 <= k < a.len() ==> #[trigger] exact::matrix(b, j, k)
            == exact::shifted_matrix(a, shift, j, k)
}

/// The factors of a matrix that a caller has shifted are factors of the shifted matrix.
pub proof fn law_factors_of_a_shifted_matrix<T: ExactScalar>(
    a: Seq<Seq<(int, T)>>,
    b: Seq<Seq<(int, T)>>,
    shift: real,
    order: Option<Seq<int>>,
    f: outcome::Factorization<T>,
)
    requires
        csc::is_upper(b),
        is_shifted(a, b, shift),
        is_order(b.len() as int, order),
        outcome::attempt(b, order) == Ok::<_, Fault<T>>(f),
    ensures
        exact::factorizes(
            f,
            a.len() as int,
            |j: int, k: int| exact::shifted_matrix(a, shift, j, k),
        ),
{
    let n = a.len() as int;
    let m = |j: int, k: int| exact::shifted_matrix(a, shift, j, k);
    let plain = |j: int, k: int| exact::matrix(b, j, k);
    lemma_attempt_exact(b, order, f);
    assert forall|j: int, k: int| 0 <= j < n && 0 <= k < n implies m(f.order[j], f.order[k])
        == #[trigger] exact::ldlt_entry(f.factors, j, k) by {
        assert(plain(f.order[j], f.order[k]) == exact::ldlt_entry(f.factors, j, k));
        assert(f.order.contains(f.order[j]) && f.order.contains(f.order[k]));
        assert(exact::matrix(b, f.order[j], f.order[k]) == exact::shifted_matrix(
            a,
            shift,
            f.order[j],
            f.order[k],
        ));
    }
}

/// What succeeds after a breakdown is the factorization of the matrix with the reported shift on
/// its diagonal, and nothing else. This holds of every scalar type.
pub proof fn law_retry_factors_the_shifted_matrix<T: Scalar>(
    a: Seq<Seq<(int, T)>>,
    order: Option<Seq<int>>,
    f: outcome::Factorization<T>,
)
    requires
        outcome::attempt(a, order) is Err,
        outcome::factored_with_retry(a, order) == Ok::<_, Fault<T>>(f),
    ensures
        T::is_finite_spec(f.shift),
        outcome::attempt(permute::shifted(a, f.shift), order) matches Ok(h) && h.factors
            == f.factors && h.order == f.order,
{
    let fault = outcome::attempt(a, order)->Err_0;
    let shift = outcome::first_shift(a, fault)->Some_0;
    lemma_retried(a, order, shift, outcome::SHIFT_ATTEMPTS as int, fault, f);
}

proof fn lemma_retried<T: Scalar>(
    a: Seq<Seq<(int, T)>>,
    order: Option<Seq<int>>,
    shift: T,
    left: int,
    last: Fault<T>,
    f: outcome::Factorization<T>,
)
    requires
        outcome::retried(a, order, shift, left, last) == Ok::<_, Fault<T>>(f),
    ensures
        outcome::attempt_shifted(a, order, f.shift) == Ok::<_, Fault<T>>(f),
    decreases left,
{
    if left > 0 && outcome::attempt_shifted(a, order, shift) is Err {
        lemma_retried(
            a,
            order,
            T::times_spec(shift, T::of_u64_spec(outcome::SHIFT_GROWTH)),
            left - 1,
            outcome::attempt_shifted(a, order, shift)->Err_0,
            f,
        );
    }
}

/// Whatever the order and the shift, every pivot that is returned is finite. This holds of every
/// scalar type.
pub proof fn law_every_way_of_factoring_returns_finite_pivots<T: Scalar>(
    a: Seq<Seq<(int, T)>>,
    order: Option<Seq<int>>,
    f: outcome::Factorization<T>,
)
    requires
        csc::is_upper(a),
        outcome::factored_with_retry(a, order) == Ok::<_, Fault<T>>(f),
    ensures
        exact::all_finite(f.factors.pivots),
{
    if outcome::attempt(a, order) is Ok {
        lemma_attempt_finite(a, order, f);
    } else {
        law_retry_factors_the_shifted_matrix(a, order, f);
        lemma_shifted_is_upper(a, f.shift);
        lemma_attempt_finite(
            permute::shifted(a, f.shift),
            order,
            outcome::attempt(permute::shifted(a, f.shift), order)->Ok_0,
        );
    }
}

proof fn lemma_attempt_finite<T: Scalar>(
    a: Seq<Seq<(int, T)>>,
    order: Option<Seq<int>>,
    f: outcome::Factorization<T>,
)
    requires
        csc::is_upper(a),
        outcome::attempt(a, order) == Ok::<_, Fault<T>>(f),
    ensures
        exact::all_finite(f.factors.pivots),
{
    match order {
        Some(order) => {
            let b = permute::permuted(a, order);
            permute::lemma_permuted_is_upper(a, order);
            breakdown::law_success_means_finite_pivots(b, outcome::factored(b, true)->Ok_0);
        },
        None => {
            breakdown::law_success_means_finite_pivots(a, f);
        },
    }
}

/// A matrix that can be factored as it is is not shifted: the retries never come into play. This
/// holds of every scalar type.
pub proof fn law_no_shift_without_breakdown<T: Scalar>(
    a: Seq<Seq<(int, T)>>,
    order: Option<Seq<int>>,
    f: outcome::Factorization<T>,
)
    requires
        outcome::attempt(a, order) == Ok::<_, Fault<T>>(f),
    ensures
        outcome::factored_with_retry(a, order) == Ok::<_, Fault<T>>(f),
        f.shift == T::of_u64_spec(0),
{
}

/// Solving with the factors of a matrix solves the system of that matrix, in exact arithmetic.
pub proof fn law_solution_solves<T: ExactScalar>(
    f: outcome::Factorization<T>,
    n: int,
    m: spec_fn(int, int) -> real,
    b: Seq<T>,
)
    requires
        exact::factorizes(f, n, m),
        b.len() == n,
        exact::all_finite(outcome::solution(f, b)),
    ensures
        exact::solves(n, m, outcome::solution(f, b), b),
{
    let x = outcome::solution(f, b);
    let c = Seq::new(n as nat, |k: int| b[f.order[k]]);
    let y = outcome::substituted(f.factors, c);
    lemma_substituted_finite(f, n, b);
    let xv = |j: int| T::value(x[j]);
    assert forall|i: int| 0 <= i < n implies exact::product(n, m, xv, i) == T::value(
        #[trigger] b[i],
    ) by {
        assert(f.order.contains(i));
        let k = f.order.index_of(i);
        let row = |j: int| m(i, j) * xv(j);
        assert forall|t: int| 0 <= t < n implies 0 <= #[trigger] f.order[t] < n by {
            assert(f.order.contains(f.order[t]));
        }
        sums::lemma_sum_of_listing(n, row, f.order);
        exact::lemma_substituted(f.factors, c, k);
        let listed = |t: int| row(f.order[t]);
        let product = |t: int| exact::ldlt_entry(f.factors, k, t) * T::value(y[t]);
        assert forall|t: int| 0 <= t < n implies listed(t) == #[trigger] product(t) by {
            assert(f.order.index_of(f.order[t]) == t);
            assert(m(f.order[k], f.order[t]) == exact::ldlt_entry(f.factors, k, t));
        }
        sums::lemma_sum_same(n, listed, product);
    }
}

proof fn lemma_substituted_finite<T: ExactScalar>(
    f: outcome::Factorization<T>,
    n: int,
    b: Seq<T>,
)
    requires
        ordering::is_permutation(n, f.order),
        f.factors.pivots.len() == n,
        exact::all_finite(outcome::solution(f, b)),
    ensures
        exact::all_finite(
            outcome::substituted(f.factors, Seq::new(n as nat, |k: int| b[f.order[k]])),
        ),
{
    let x = outcome::solution(f, b);
    let y = outcome::substituted(f.factors, Seq::new(n as nat, |k: int| b[f.order[k]]));
    assert forall|k: int| 0 <= k < n implies T::is_finite_spec(#[trigger] y[k]) by {
        assert(f.order.contains(f.order[k]));
        assert(f.order.index_of(f.order[k]) == k);
        assert(T::is_finite_spec(x[f.order[k]]));
    }
}

/// Factoring and then solving solves the system: whatever the order and the shift, a solution in
/// finite exact numbers satisfies `(A + s I) x = b` with the reported shift `s`, which is zero
/// where the matrix could be factored as it is.
pub proof fn law_factoring_and_solving<T: ExactScalar>(
    a: Seq<Seq<(int, T)>>,
    order: Option<Seq<int>>,
    f: outcome::Factorization<T>,
    b: Seq<T>,
)
    requires
        csc::is_upper(a),
        is_order(a.len() as int, order),
        outcome::factored_with_retry(a, order) == Ok::<_, Fault<T>>(f),
        b.len() == a.len(),
        exact::all_finite(outcome::solution(f, b)),
    ensures
        exact::solves(
            a.len() as int,
            |j: int, k: int| exact::shifted_matrix(a, T::value(f.shift), j, k),
            outcome::solution(f, b),
            b,
        ),
        outcome::attempt(a, order) is Ok ==> exact::solves(
            a.len() as int,
            |j: int, k: int| exact::matrix(a, j, k),
            outcome::solution(f, b),
            b,
        ),
{
    let n = a.len() as int;
    lemma_retry_shape(a, order, f);
    lemma_substituted_finite(f, n, b);
    law_shifted_factors_multiply_to_the_shifted_matrix(a, order, f);
    let m = |j: int, k: int| exact::shifted_matrix(a, T::value(f.shift), j, k);
    law_solution_solves(f, n, m, b);
    if outcome::attempt(a, order) is Ok {
        lemma_attempt_exact(a, order, f);
        law_solution_solves(f, n, |j: int, k: int| exact::matrix(a, j, k), b);
    }
}

pub proof fn lemma_attempt_shape<T: Scalar>(
    a: Seq<Seq<(int, T)>>,
    order: Option<Seq<int>>,
    f: outcome::Factorization<T>,
)
    requires
        csc::is_upper(a),
        is_order(a.len() as int, order),
        outcome::attempt(a, order) == Ok::<_, Fault<T>>(f),
    ensures
        ordering::is_permutation(a.len() as int, f.order),
        f.factors.pivots.len() == a.len(),
{
    lemma_identity(a.len() as int);
    match order {
        Some(order) => {
            permute::lemma_permuted_is_upper(a, order);
            model::lemma_factors_shape(permute::permuted(a, order), a.len() as int);
        },
        None => {
            model::lemma_factors_shape(a, a.len() as int);
        },
    }
}

proof fn lemma_retry_shape<T: Scalar>(
    a: Seq<Seq<(int, T)>>,
    order: Option<Seq<int>>,
    f: outcome::Factorization<T>,
)
    requires
        csc::is_upper(a),
        is_order(a.len() as int, order),
        outcome::factored_with_retry(a, order) == Ok::<_, Fault<T>>(f),
    ensures
        ordering::is_permutation(a.len() as int, f.order),
        f.factors.pivots.len() == a.len(),
{
    if outcome::attempt(a, order) is Ok {
        lemma_attempt_shape(a, order, f);
    } else {
        law_retry_factors_the_shifted_matrix(a, order, f);
        lemma_shifted_is_upper(a, f.shift);
        lemma_attempt_shape(
            permute::shifted(a, f.shift),
            order,
            outcome::attempt(permute::shifted(a, f.shift), order)->Ok_0,
        );
    }
}

/// No pivot of the factorization is zero.
pub open spec fn has_nonzero_pivots<T: ExactScalar>(f: model::Factors<T>) -> bool {
    forall|k: int| 0 <= k < f.pivots.len() ==> #[trigger] exact::d_value(f, k) != 0real
}

/// A matrix that can be factored is not singular: no vector but zero is taken to zero.
pub proof fn law_factored_matrix_is_not_singular<T: ExactScalar>(
    f: outcome::Factorization<T>,
    n: int,
    m: spec_fn(int, int) -> real,
    z: inertia::RealVector,
)
    requires
        exact::factorizes(f, n, m),
        has_nonzero_pivots(f.factors),
        forall|i: int| 0 <= i < n ==> #[trigger] exact::product(n, m, z, i) == 0real,
    ensures
        inertia::is_zero_vector(n, z),
{
    let rows = inertia::pivot_rows(f);
    inertia::lemma_pivot_rows_independent(f, n, m);
    assert forall|k: int| 0 <= k < rows.len() implies inertia::dot(n, #[trigger] rows[k], z)
        == 0real by {
        lemma_functional_is_zero(f, n, m, z, k);
    }
    assert(inertia::vanish(n, rows, z));
}

/// A vector that the matrix takes to zero is one at which the functionals are zero, the first one
/// first.
proof fn lemma_functional_is_zero<T: ExactScalar>(
    f: outcome::Factorization<T>,
    n: int,
    m: spec_fn(int, int) -> real,
    z: inertia::RealVector,
    k: int,
)
    requires
        exact::factorizes(f, n, m),
        has_nonzero_pivots(f.factors),
        forall|i: int| 0 <= i < n ==> #[trigger] exact::product(n, m, z, i) == 0real,
        0 <= k < n,
    ensures
        inertia::dot(n, inertia::pivot_rows(f)[k], z) == 0real,
    decreases k,
{
    let h = f.factors;
    let rows = inertia::pivot_rows(f);
    let y = |j: int| z(f.order[j]);
    inertia::lemma_order(f, n);
    let u = f.order[k];
    assert(exact::product(n, m, z, u) == 0real);
    let inner = |v: int| m(u, v) * z(v);
    sums::lemma_sum_of_listing(n, inner, f.order);
    let listed = |j: int| inner(f.order[j]);
    let entries = |j: int| exact::ldlt_entry(h, k, j) * y(j);
    assert forall|j: int| 0 <= j < n implies listed(j) == #[trigger] entries(j) by {
        assert(m(f.order[k], f.order[j]) == exact::ldlt_entry(h, k, j));
    }
    sums::lemma_sum_same(n, listed, entries);
    exact::lemma_ldlt_times(h, k, y);
    let products = |i: int|
        exact::l_matrix(h, k, i) * exact::d_value(h, i) * sums::sum(
            n,
            |j: int| exact::l_matrix(h, j, i) * y(j),
        );
    assert forall|i: int| 0 <= i < n implies #[trigger] products(i) == exact::l_matrix(h, k, i)
        * exact::d_value(h, i) * inertia::dot(n, rows[i], z) by {
        inertia::lemma_pivot_row(f, n, i, z);
        sums::lemma_sum_same(
            n,
            |j: int| exact::l_matrix(h, j, i) * y(j),
            |j: int| exact::l_matrix(h, j, i) * z(f.order[j]),
        );
    }
    assert forall|i: int| 0 <= i < n && i != k implies #[trigger] products(i) == 0real by {
        let l = exact::l_matrix(h, k, i);
        let d = exact::d_value(h, i);
        let t = inertia::dot(n, rows[i], z);
        if i < k {
            lemma_functional_is_zero(f, n, m, z, i);
        } else {
            assert((h.lower)(k, i) is None);
        }
        assert(l * d * t == 0real) by (nonlinear_arith)
            requires
                l == 0real || t == 0real,
        ;
    }
    sums::lemma_sum_single(n, k, products);
    let d = exact::d_value(h, k);
    let t = inertia::dot(n, rows[k], z);
    assert(t == 0real) by (nonlinear_arith)
        requires
            1real * d * t == 0real,
            d != 0real,
    ;
}

/// The solution is the only one: two vectors that a factored matrix takes to the same right-hand
/// side are equal.
pub proof fn law_solution_is_unique<T: ExactScalar>(
    f: outcome::Factorization<T>,
    n: int,
    m: spec_fn(int, int) -> real,
    x: inertia::RealVector,
    y: inertia::RealVector,
)
    requires
        exact::factorizes(f, n, m),
        has_nonzero_pivots(f.factors),
        forall|i: int|
            0 <= i < n ==> #[trigger] exact::product(n, m, x, i) == exact::product(n, m, y, i),
    ensures
        forall|i: int| 0 <= i < n ==> #[trigger] x(i) == y(i),
{
    let z: inertia::RealVector = |i: int| x(i) + (-1real) * y(i);
    assert forall|i: int| 0 <= i < n implies #[trigger] exact::product(n, m, z, i)
        == 0real by {
        let p = |j: int| m(i, j) * x(j);
        let q = |j: int| m(i, j) * y(j);
        let q2 = |j: int| (-1real) * q(j);
        sums::lemma_sum_times(n, -1real, q);
        sums::lemma_sum_plus(n, p, q2);
        let r = |j: int| m(i, j) * z(j);
        assert forall|j: int| 0 <= j < n implies p(j) + q2(j) == #[trigger] r(j) by {
            let c = m(i, j);
            let u = x(j);
            let v = y(j);
            assert(c * u + (-1real) * (c * v) == c * (u + (-1real) * v)) by (nonlinear_arith);
        }
        sums::lemma_sum_same(n, |j: int| p(j) + q2(j), r);
        assert(exact::product(n, m, x, i) == exact::product(n, m, y, i));
    }
    law_factored_matrix_is_not_singular(f, n, m, z);
    assert forall|i: int| 0 <= i < n implies #[trigger] x(i) == y(i) by {
        assert(z(i) == 0real);
    }
}

/// A factorization that succeeds in exact numbers has no zero pivot.
pub proof fn law_success_means_nonzero_pivots<T: ExactScalar>(
    a: Seq<Seq<(int, T)>>,
    strict: bool,
    f: outcome::Factorization<T>,
)
    requires
        csc::is_upper(a),
        outcome::factored(a, strict) == Ok::<_, Fault<T>>(f),
        !strict ==> exact::all_finite(f.factors.pivots),
    ensures
        has_nonzero_pivots(f.factors),
{
    if strict {
        breakdown::law_success_means_finite_pivots(a, f);
    }
    breakdown::lemma_first_break(a, strict, 0);
    model::lemma_factors_shape(a, a.len() as int);
    assert forall|k: int| 0 <= k < f.factors.pivots.len() implies #[trigger] exact::d_value(
        f.factors,
        k,
    ) != 0real by {
        assert(!outcome::breaks(a, strict, k));
        T::is_zero_is_exact(f.factors.pivots[k]);
    }
}

pub proof fn lemma_attempt_nonzero<T: ExactScalar>(
    a: Seq<Seq<(int, T)>>,
    order: Option<Seq<int>>,
    f: outcome::Factorization<T>,
)
    requires
        csc::is_upper(a),
        is_order(a.len() as int, order),
        outcome::attempt(a, order) == Ok::<_, Fault<T>>(f),
    ensures
        has_nonzero_pivots(f.factors),
{
    match order {
        Some(order) => {
            let b = permute::permuted(a, order);
            permute::lemma_permuted_is_upper(a, order);
            law_success_means_nonzero_pivots(b, true, outcome::factored(b, true)->Ok_0);
        },
        None => {
            law_success_means_nonzero_pivots(a, true, f);
        },
    }
}

/// A scaled right-hand side gives the scaled solution.
pub proof fn law_solution_scales_with_the_right_hand_side<T: ExactScalar>(
    a: Seq<Seq<(int, T)>>,
    order: Option<Seq<int>>,
    f: outcome::Factorization<T>,
    b1: Seq<T>,
    b2: Seq<T>,
    c: real,
)
    requires
        csc::is_upper(a),
        is_order(a.len() as int, order),
        outcome::factored_with_retry(a, order) == Ok::<_, Fault<T>>(f),
        b1.len() == a.len(),
        b2.len() == a.len(),
        forall|i: int| 0 <= i < a.len() ==> T::value(#[trigger] b2[i]) == c * T::value(b1[i]),
        exact::all_finite(outcome::solution(f, b1)),
        exact::all_finite(outcome::solution(f, b2)),
    ensures
        forall|i: int|
            0 <= i < a.len() ==> T::value(#[trigger] outcome::solution(f, b2)[i]) == c * T::value(
                outcome::solution(f, b1)[i],
            ),
{
    let n = a.len() as int;
    let m = |j: int, k: int| exact::shifted_matrix(a, T::value(f.shift), j, k);
    let x1 = |j: int| T::value(outcome::solution(f, b1)[j]);
    let x2 = |j: int| T::value(outcome::solution(f, b2)[j]);
    let y = |j: int| c * x1(j);
    law_factoring_and_solving(a, order, f, b1);
    law_factoring_and_solving(a, order, f, b2);
    law_shifted_factors_multiply_to_the_shifted_matrix(a, order, f);
    lemma_retry_nonzero(a, order, f);
    assert forall|i: int| 0 <= i < n implies #[trigger] exact::product(n, m, x2, i)
        == exact::product(n, m, y, i) by {
        assert(exact::product(n, m, x2, i) == T::value(b2[i]));
        assert(exact::product(n, m, x1, i) == T::value(b1[i]));
        let p = |j: int| m(i, j) * x1(j);
        let q = |j: int| m(i, j) * y(j);
        let scaled = |j: int| c * p(j);
        sums::lemma_sum_times(n, c, p);
        assert forall|j: int| 0 <= j < n implies scaled(j) == #[trigger] q(j) by {
            let e = m(i, j);
            let v = x1(j);
            assert(c * (e * v) == e * (c * v)) by (nonlinear_arith);
        }
        sums::lemma_sum_same(n, scaled, q);
    }
    law_solution_is_unique(f, n, m, x2, y);
    assert forall|i: int| 0 <= i < n implies T::value(#[trigger] outcome::solution(f, b2)[i]) == c
        * T::value(outcome::solution(f, b1)[i]) by {
        assert(x2(i) == y(i));
    }
}

proof fn lemma_retry_nonzero<T: ExactScalar>(
    a: Seq<Seq<(int, T)>>,
    order: Option<Seq<int>>,
    f: outcome::Factorization<T>,
)
    requires
        csc::is_upper(a),
        is_order(a.len() as int, order),
        outcome::factored_with_retry(a, order) == Ok::<_, Fault<T>>(f),
    ensures
        has_nonzero_pivots(f.factors),
{
    if outcome::attempt(a, order) is Ok {
        lemma_attempt_nonzero(a, order, f);
    } else {
        law_retry_factors_the_shifted_matrix(a, order, f);
        lemma_shifted_is_upper(a, f.shift);
        lemma_attempt_nonzero(
            permute::shifted(a, f.shift),
            order,
            outcome::attempt(permute::shifted(a, f.shift), order)->Ok_0,
        );
    }
}

/// The elimination order does not change the solution: whatever the order, solving gives the same
/// numbers.
pub proof fn law_order_does_not_change_the_solution<T: ExactScalar>(
    a: Seq<Seq<(int, T)>>,
    order1: Option<Seq<int>>,
    order2: Option<Seq<int>>,
    f: outcome::Factorization<T>,
    g: outcome::Factorization<T>,
    b: Seq<T>,
)
    requires
        csc::is_upper(a),
        is_order(a.len() as int, order1),
        is_order(a.len() as int, order2),
        outcome::attempt(a, order1) == Ok::<_, Fault<T>>(f),
        outcome::attempt(a, order2) == Ok::<_, Fault<T>>(g),
        b.len() == a.len(),
        exact::all_finite(outcome::solution(f, b)),
        exact::all_finite(outcome::solution(g, b)),
    ensures
        forall|i: int|
            0 <= i < a.len() ==> T::value(#[trigger] outcome::solution(f, b)[i]) == T::value(
                outcome::solution(g, b)[i],
            ),
{
    let n = a.len() as int;
    let m = |j: int, k: int| exact::matrix(a, j, k);
    let xs = outcome::solution(f, b);
    let ys = outcome::solution(g, b);
    law_factoring_and_solving(a, order1, f, b);
    law_factoring_and_solving(a, order2, g, b);
    lemma_attempt_shape(a, order1, f);
    lemma_substituted_finite(f, n, b);
    lemma_attempt_exact(a, order1, f);
    lemma_attempt_nonzero(a, order1, f);
    let x = |j: int| T::value(xs[j]);
    let y = |j: int| T::value(ys[j]);
    assert forall|i: int| 0 <= i < n implies #[trigger] exact::product(n, m, x, i)
        == exact::product(n, m, y, i) by {
        assert(exact::product(n, m, x, i) == T::value(b[i]));
    }
    law_solution_is_unique(f, n, m, x, y);
    assert forall|i: int| 0 <= i < n implies T::value(#[trigger] xs[i]) == T::value(ys[i]) by {
        assert(x(i) == y(i));
    }
}

} // verus!
