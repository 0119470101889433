//! What the factors mean where the arithmetic is exact: `A = L D Lᵀ`, and `A x = b`.
use vstd::prelude::*;

use crate::csc;
use crate::graph;
use crate::model;
use crate::ordering;
use crate::outcome;
use crate::permute;
use crate::scalar::{ExactScalar, Scalar};
use crate::sums;

verus! {

/// The real entry of the symmetric matrix in row `j` of column `k`, for `j <= k`: the sum of what
/// is stored there.
pub open spec fn stored_sum<T: ExactScalar>(col: Seq<(int, T)>, j: int) -> real {
    sums::list_sum(csc::values_at(col, j).map_values(|v: T| T::value(v)))
}

/// The symmetric real matrix whose upper triangle is stored.
pub open spec fn matrix<T: ExactScalar>(a: Seq<Seq<(int, T)>>, j: int, k: int) -> real {
    if j <= k {
        stored_sum(a[k], j)
    } else {
        stored_sum(a[j], k)
    }
}

/// The value of an entry of `L` below the diagonal, zero where there is none.
pub open spec fn lower_value<T: ExactScalar>(f: model::Factors<T>, r: int, i: int) -> real {
    match (f.lower)(r, i) {
        Some(l) => T::value(l),
        None => 0real,
    }
}

/// The absolute value.
pub open spec fn abs(x: real) -> real {
    if x < 0real {
        -x
    } else {
        x
    }
}

/// The largest absolute value of the first `k` diagonal entries of the real matrix; zero where
/// there is none.
pub open spec fn largest_diagonal<T: ExactScalar>(a: Seq<Seq<(int, T)>>, k: int) -> real
    decreases k,
{
    if k <= 0 {
        0real
    } else {
        let rest = largest_diagonal(a, k - 1);
        let last = abs(matrix(a, k - 1, k - 1));
        if rest < last {
            last
        } else {
            rest
        }
    }
}

/// The numbers that the test for destroyed pivots compares with are finite: the diagonal entries,
/// and the threshold that follows from them.
pub open spec fn has_finite_threshold<T: ExactScalar>(a: Seq<Seq<(int, T)>>) -> bool {
    &&& forall|k: int|
        0 <= k < a.len() ==> T::is_finite_spec(#[trigger] csc::entry(a[k], k))
    &&& T::is_finite_spec(
        T::times_spec(outcome::tolerance(), csc::scale(a, a.len() as int)),
    )
}

/// The real matrix `L`: unit diagonal, zero above it and where there is no entry.
pub open spec fn l_matrix<T: ExactScalar>(f: model::Factors<T>, r: int, i: int) -> real {
    if r == i {
        1real
    } else {
        lower_value(f, r, i)
    }
}

/// The real diagonal of `D`.
pub open spec fn d_value<T: ExactScalar>(f: model::Factors<T>, i: int) -> real {
    T::value(f.pivots[i])
}

/// The entry of the real matrix `L D Lᵀ` in row `j` of column `k`.
pub open spec fn ldlt_entry<T: ExactScalar>(f: model::Factors<T>, j: int, k: int) -> real {
    sums::sum(f.pivots.len() as int, |i: int| l_matrix(f, j, i) * d_value(f, i) * l_matrix(f, k, i))
}

/// The real matrix with `shift` added to its diagonal.
pub open spec fn shifted_matrix<T: ExactScalar>(
    a: Seq<Seq<(int, T)>>,
    shift: real,
    j: int,
    k: int,
) -> real {
    matrix(a, j, k) + if j == k {
        shift
    } else {
        0real
    }
}

/// The factorization `f` is one of the real symmetric matrix `m` of order `n`: with the rows and
/// columns of `m` taken in elimination order, `m = L D Lᵀ`, where `L` is unit lower triangular and
/// the pivots are finite.
pub open spec fn factorizes<T: ExactScalar>(
    f: outcome::Factorization<T>,
    n: int,
    m: spec_fn(int, int) -> real,
) -> bool {
    &&& ordering::is_permutation(n, f.order)
    &&& f.factors.pivots.len() == n
    &&& all_finite(f.factors.pivots)
    &&& forall|r: int, i: int| #[trigger] (f.factors.lower)(r, i) is Some ==> 0 <= i < r < n
    &&& forall|j: int, k: int|
        0 <= j < n && 0 <= k < n ==> m(f.order[j], f.order[k]) == #[trigger] ldlt_entry(
            f.factors,
            j,
            k,
        )
}

/// Component `i` of the product of the real matrix `m` and the vector `x`.
pub open spec fn product(
    n: int,
    m: spec_fn(int, int) -> real,
    x: spec_fn(int) -> real,
    i: int,
) -> real {
    sums::sum(n, |j: int| m(i, j) * x(j))
}

/// `x` solves the real linear system `m x = b`.
pub open spec fn solves<T: ExactScalar>(
    n: int,
    m: spec_fn(int, int) -> real,
    x: Seq<T>,
    b: Seq<T>,
) -> bool {
    forall|i: int|
        0 <= i < n ==> product(n, m, |j: int| T::value(x[j]), i) == T::value(#[trigger] b[i])
}

/// Every value of the list is finite.
pub open spec fn all_finite<T: Scalar>(s: Seq<T>) -> bool {
    forall|k: int| 0 <= k < s.len() ==> T::is_finite_spec(#[trigger] s[k])
}

/// What a finite sum of stored values is worth.
pub proof fn lemma_entry_value<T: ExactScalar>(col: Seq<(int, T)>, j: int)
    requires
        T::is_finite_spec(csc::entry(col, j)),
    ensures
        T::value(csc::entry(col, j)) == stored_sum(col, j),
{
    lemma_sum_from_value(T::of_u64_spec(0), csc::values_at(col, j));
    T::zero_is_exact();
}

proof fn lemma_sum_from_value<T: ExactScalar>(z: T, s: Seq<T>)
    requires
        T::is_finite_spec(csc::sum_from(z, s)),
    ensures
        T::is_finite_spec(z),
        T::value(csc::sum_from(z, s)) == T::value(z) + sums::list_sum(
            s.map_values(|v: T| T::value(v)),
        ),
    decreases s.len(),
{
    if s.len() > 0 {
        T::plus_is_exact(csc::sum_from(z, s.drop_last()), s.last());
        lemma_sum_from_value(z, s.drop_last());
        assert(s.map_values(|v: T| T::value(v)).drop_last() =~= s.drop_last().map_values(
            |v: T| T::value(v),
        ));
    }
}

/// What a finite gathered value is worth.
proof fn lemma_gather_value<T: ExactScalar>(
    f: model::Factors<T>,
    col: Seq<(int, T)>,
    pat: Seq<int>,
    y: Seq<T>,
    j: int,
    t: int,
)
    requires
        0 <= t,
        T::is_finite_spec(model::gather(f, col, pat, y, j, t)),
    ensures
        T::value(model::gather(f, col, pat, y, j, t)) == stored_sum(col, j) - sums::sum(
            t,
            |s: int| lower_value(f, j, pat[s]) * T::value(y[s]),
        ),
    decreases t,
{
    if t == 0 {
        lemma_entry_value(col, j);
    } else {
        let rest = model::gather(f, col, pat, y, j, t - 1);
        match (f.lower)(j, pat[t - 1]) {
            Some(l) => {
                T::minus_is_exact(rest, T::times_spec(l, y[t - 1]));
                T::times_is_exact(l, y[t - 1]);
            },
            None => {
                let v = T::value(y[t - 1]);
                assert(0real * v == 0real) by (nonlinear_arith);
            },
        }
        lemma_gather_value(f, col, pat, y, j, t - 1);
    }
}

/// What a finite pivot is worth. Everything that goes into it is finite.
proof fn lemma_pivot_value<T: ExactScalar>(
    f: model::Factors<T>,
    col: Seq<(int, T)>,
    pat: Seq<int>,
    y: Seq<T>,
    k: int,
    t: int,
)
    requires
        0 <= t,
        T::is_finite_spec(model::pivot(f, col, pat, y, k, t)),
    ensures
        T::is_finite_spec(csc::entry(col, k)),
        forall|s: int|
            0 <= s < t ==> T::is_finite_spec(T::over_spec(#[trigger] y[s], f.pivots[pat[s]])),
        T::value(model::pivot(f, col, pat, y, k, t)) == stored_sum(col, k) - sums::sum(
            t,
            |s: int| T::value(T::over_spec(y[s], f.pivots[pat[s]])) * T::value(y[s]),
        ),
    decreases t,
{
    if t == 0 {
        lemma_entry_value(col, k);
    } else {
        let l = T::over_spec(y[t - 1], f.pivots[pat[t - 1]]);
        T::minus_is_exact(model::pivot(f, col, pat, y, k, t - 1), T::times_spec(l, y[t - 1]));
        T::times_is_exact(l, y[t - 1]);
        lemma_pivot_value(f, col, pat, y, k, t - 1);
    }
}

/// Row `k` of the factors, as far as the elimination fixes it: the nodes of the row, the solution
/// of the triangular system, and what the entries of `L` have to do with it.
pub proof fn lemma_row_values<T: ExactScalar>(a: Seq<Seq<(int, T)>>, k: int)
    requires
        csc::is_upper(a),
        0 <= k < a.len(),
        T::is_finite_spec(model::factors(a, a.len() as int).pivots[k]),
    ensures
        ({
            let n = a.len() as int;
            let h = model::factors(a, n);
            let f = model::factors(a, k);
            let pat = model::row_order(a, k);
            let y = model::work(f, a[k], pat, pat.len() as int);
            &&& h.pivots.len() == n
            &&& T::is_finite_spec(csc::entry(a[k], k))
            &&& y.len() == pat.len()
            &&& pat.no_duplicates()
            &&& forall|i: int| #[trigger] pat.contains(i) <==> graph::fills(csc::graph_of(a), i, k)
            &&& forall|s: int|
                0 <= s < pat.len() ==> {
                    &&& 0 <= #[trigger] pat[s] < k
                    &&& y[s] == model::gather(f, a[k], pat, y, pat[s], s)
                    &&& T::is_finite_spec(y[s])
                    &&& T::value(y[s]) == l_matrix(h, k, pat[s]) * d_value(h, pat[s])
                }
            &&& d_value(h, k) == stored_sum(a[k], k) - sums::sum(
                pat.len() as int,
                |s: int| l_matrix(h, k, pat[s]) * T::value(y[s]),
            )
        }),
{
    let n = a.len() as int;
    let h = model::factors(a, n);
    let h1 = model::factors(a, k + 1);
    let f = model::factors(a, k);
    let pat = model::row_order(a, k);
    let m = pat.len() as int;
    let y = model::work(f, a[k], pat, m);
    model::lemma_factors_shape(a, n);
    model::lemma_factors_shape(a, k);
    model::lemma_factors_extend(a, k + 1, n);
    model::lemma_factors_extend(a, k, n);
    model::lemma_row_order(a, k);
    model::lemma_work(f, a[k], pat, m);
    assert(h1 == model::next_row(f, k, a[k], pat));
    assert(h.pivots[k] == h1.pivots[k]);
    lemma_pivot_value(f, a[k], pat, y, k, m);
    assert forall|s: int| 0 <= s < m implies {
        &&& 0 <= #[trigger] pat[s] < k
        &&& y[s] == model::gather(f, a[k], pat, y, pat[s], s)
        &&& T::is_finite_spec(y[s])
        &&& T::value(y[s]) == l_matrix(h, k, pat[s]) * d_value(h, pat[s])
        &&& l_matrix(h, k, pat[s]) == T::value(T::over_spec(y[s], f.pivots[pat[s]]))
    } by {
        let i = pat[s];
        graph::lemma_fills_bounds(n, csc::graph_of(a), i, k);
        assert(pat.contains(i));
        assert(pat.index_of(i) == s);
        assert((h.lower)(k, i) == (h1.lower)(k, i));
        assert((h1.lower)(k, i) == Some(T::over_spec(y[s], f.pivots[i])));
        assert(h.pivots[i] == f.pivots[i]);
        T::over_is_exact(y[s], f.pivots[i]);
        let yv = T::value(y[s]);
        let dv = T::value(f.pivots[i]);
        assert(yv == (yv / dv) * dv) by (nonlinear_arith)
            requires
                dv != 0real,
        ;
    }
    sums::lemma_sum_same(
        m,
        |s: int| T::value(T::over_spec(y[s], f.pivots[pat[s]])) * T::value(y[s]),
        |s: int| l_matrix(h, k, pat[s]) * T::value(y[s]),
    );
}

/// A matrix entry of the upper triangle is the entry of `L D Lᵀ`.
pub proof fn lemma_reconstruction<T: ExactScalar>(a: Seq<Seq<(int, T)>>, j: int, k: int)
    requires
        csc::is_upper(a),
        0 <= j <= k < a.len(),
        T::is_finite_spec(model::factors(a, a.len() as int).pivots[k]),
    ensures
        stored_sum(a[k], j) == ldlt_entry(model::factors(a, a.len() as int), j, k),
{
    let n = a.len() as int;
    let g = csc::graph_of(a);
    let h = model::factors(a, n);
    let f = model::factors(a, k);
    let pat = model::row_order(a, k);
    let m = pat.len() as int;
    let y = model::work(f, a[k], pat, m);
    lemma_row_values(a, k);
    model::lemma_factors_shape(a, n);
    csc::lemma_graph_of(a);
    let term = |i: int| l_matrix(h, j, i) * d_value(h, i) * l_matrix(h, k, i);
    assert forall|i: int| j < i < n implies #[trigger] term(i) == 0real by {
        if graph::fills(g, i, j) {
            graph::lemma_fills_bounds(n, g, i, j);
        }
        let d = d_value(h, i);
        let l = l_matrix(h, k, i);
        assert((h.lower)(j, i) is None);
        assert(0real * d * l == 0real) by (nonlinear_arith);
    }
    sums::lemma_sum_cut(j + 1, n, term);
    // The terms below the diagonal of row j, by column and in the order of row k.
    let strict = |i: int| lower_value(h, j, i) * d_value(h, i) * l_matrix(h, k, i);
    if graph::fills(g, j, j) {
        graph::lemma_fills_bounds(n, g, j, j);
    }
    assert forall|i: int| j <= i < n implies #[trigger] strict(i) == 0real by {
        if graph::fills(g, i, j) {
            graph::lemma_fills_bounds(n, g, i, j);
        }
        let d = d_value(h, i);
        let l = l_matrix(h, k, i);
        assert((h.lower)(j, i) is None);
        assert(0real * d * l == 0real) by (nonlinear_arith);
    }
    sums::lemma_sum_cut(j, n, strict);
    sums::lemma_sum_same(j, term, strict);
    if j == k {
        assert forall|i: int| 0 <= i < n && !pat.contains(i) implies #[trigger] strict(i)
            == 0real by {
            if i < k {
                let d = d_value(h, i);
                let l = l_matrix(h, k, i);
                assert((h.lower)(j, i) is None);
                assert(0real * d * l == 0real) by (nonlinear_arith);
            }
        }
        sums::lemma_sum_of_listing(n, strict, pat);
        assert forall|s: int| 0 <= s < m implies l_matrix(h, k, pat[s]) * T::value(y[s])
            == #[trigger] strict(pat[s]) by {
            let d = d_value(h, pat[s]);
            let l = l_matrix(h, k, pat[s]);
            assert(l * (l * d) == l * d * l) by (nonlinear_arith);
        }
        sums::lemma_sum_same(
            m,
            |s: int| l_matrix(h, k, pat[s]) * T::value(y[s]),
            |s: int| strict(pat[s]),
        );
        let d = d_value(h, k);
        assert(1real * d * 1real == d) by (nonlinear_arith);
    } else if pat.contains(j) {
        let t = choose|t: int| 0 <= t < m && pat[t] == j;
        assert forall|i: int| 0 <= i < n && !pat.contains(i) implies #[trigger] strict(i)
            == 0real by {
            if i < j {
                let d = d_value(h, i);
                let l = lower_value(h, j, i);
                assert((h.lower)(k, i) is None);
                assert(l * d * 0real == 0real) by (nonlinear_arith);
            }
        }
        sums::lemma_sum_of_listing(n, strict, pat);
        let listed = |s: int| strict(pat[s]);
        assert forall|s: int| t <= s < m implies #[trigger] listed(s) == 0real by {
            let i = pat[s];
            assert(pat.contains(i));
            if graph::fills(g, i, j) {
                model::lemma_row_order(a, k);
                let u = model::lemma_row_order_ascends(n, g, k, pat, s, j);
                assert(pat[u] == pat[t]);
            }
            let d = d_value(h, i);
            let l = l_matrix(h, k, i);
            assert((h.lower)(j, i) is None);
            assert(0real * d * l == 0real) by (nonlinear_arith);
        }
        sums::lemma_sum_cut(t, m, listed);
        model::lemma_factors_extend(a, k, n);
        lemma_gather_value(f, a[k], pat, y, j, t);
        let gathered = |s: int| lower_value(f, j, pat[s]) * T::value(y[s]);
        assert forall|s: int| 0 <= s < t implies gathered(s) == #[trigger] listed(s) by {
            let i = pat[s];
            let d = d_value(h, i);
            let l = l_matrix(h, k, i);
            let c = lower_value(h, j, i);
            assert((h.lower)(j, i) == (f.lower)(j, i));
            assert(c * (l * d) == c * d * l) by (nonlinear_arith);
        }
        sums::lemma_sum_same(t, gathered, listed);
        let d = d_value(h, j);
        let l = l_matrix(h, k, j);
        assert(1real * d * l == l * d) by (nonlinear_arith);
    } else {
        assert forall|i: int| 0 <= i < n implies #[trigger] strict(i) == 0real by {
            if i < j {
                let d = d_value(h, i);
                let l = l_matrix(h, k, i);
                let c = lower_value(h, j, i);
                if graph::fills(g, i, j) && graph::fills(g, i, k) {
                    graph::lemma_fills_join(n, g, i, j, k);
                }
                assert((h.lower)(j, i) is None || (h.lower)(k, i) is None);
                assert(0real * d * l == 0real) by (nonlinear_arith);
                assert(c * d * 0real == 0real) by (nonlinear_arith);
            }
        }
        sums::lemma_sum_zero(j, strict);
        let d = d_value(h, j);
        assert((h.lower)(k, j) is None);
        assert(1real * d * 0real == 0real) by (nonlinear_arith);
        if csc::values_at(a[k], j).len() > 0 {
            graph::lemma_fills(n, g, j, k);
        }
        assert(csc::values_at(a[k], j).map_values(|v: T| T::value(v)).len() == 0);
    }
}

/// `L D Lᵀ` is symmetric.
pub proof fn lemma_ldlt_symmetric<T: ExactScalar>(f: model::Factors<T>, j: int, k: int)
    ensures
        ldlt_entry(f, j, k) == ldlt_entry(f, k, j),
{
    let p = |i: int| l_matrix(f, j, i) * d_value(f, i) * l_matrix(f, k, i);
    let q = |i: int| l_matrix(f, k, i) * d_value(f, i) * l_matrix(f, j, i);
    assert forall|i: int| p(i) == #[trigger] q(i) by {
        let x = l_matrix(f, j, i);
        let d = d_value(f, i);
        let y = l_matrix(f, k, i);
        assert(x * d * y == y * d * x) by (nonlinear_arith);
    }
    sums::lemma_sum_same(f.pivots.len() as int, p, q);
}

/// A row of `L D Lᵀ` times a vector, computed from the right.
pub proof fn lemma_ldlt_times<T: ExactScalar>(
    f: model::Factors<T>,
    k: int,
    x: spec_fn(int) -> real,
)
    ensures
        sums::sum(f.pivots.len() as int, |j: int| ldlt_entry(f, k, j) * x(j)) == sums::sum(
            f.pivots.len() as int,
            |i: int|
                l_matrix(f, k, i) * d_value(f, i) * sums::sum(
                    f.pivots.len() as int,
                    |j: int| l_matrix(f, j, i) * x(j),
                ),
        ),
{
    let n = f.pivots.len() as int;
    let term = |j: int, i: int| l_matrix(f, k, i) * d_value(f, i) * l_matrix(f, j, i) * x(j);
    sums::lemma_sum_swap(n, n, term);
    let by_columns = |j: int| sums::sum(n, |i: int| term(j, i));
    let entries = |j: int| ldlt_entry(f, k, j) * x(j);
    assert forall|j: int| 0 <= j < n implies entries(j) == #[trigger] by_columns(j) by {
        let v = x(j);
        let c = |i: int| l_matrix(f, k, i) * d_value(f, i) * l_matrix(f, j, i);
        sums::lemma_sum_times(n, v, c);
        let scaled = |i: int| v * c(i);
        let named = |i: int| term(j, i);
        assert forall|i: int| 0 <= i < n implies scaled(i) == #[trigger] named(i) by {
            let e = c(i);
            assert(v * e == e * v) by (nonlinear_arith);
        }
        sums::lemma_sum_same(n, scaled, named);
        let e = ldlt_entry(f, k, j);
        assert(v * e == e * v) by (nonlinear_arith);
    }
    sums::lemma_sum_same(n, entries, by_columns);
    let by_rows = |i: int| sums::sum(n, |j: int| term(j, i));
    let products = |i: int|
        l_matrix(f, k, i) * d_value(f, i) * sums::sum(n, |j: int| l_matrix(f, j, i) * x(j));
    assert forall|i: int| 0 <= i < n implies products(i) == #[trigger] by_rows(i) by {
        let c = l_matrix(f, k, i) * d_value(f, i);
        let p = |j: int| l_matrix(f, j, i) * x(j);
        sums::lemma_sum_times(n, c, p);
        let scaled = |j: int| c * p(j);
        let named = |j: int| term(j, i);
        assert forall|j: int| 0 <= j < n implies scaled(j) == #[trigger] named(j) by {
            let l = l_matrix(f, j, i);
            let v = x(j);
            assert(c * (l * v) == c * l * v) by (nonlinear_arith);
        }
        sums::lemma_sum_same(n, scaled, named);
    }
    sums::lemma_sum_same(n, products, by_rows);
}

/// What the forward substitution computes.
proof fn lemma_forward_value<T: ExactScalar>(f: model::Factors<T>, b: Seq<T>, r: int, j: int)
    requires
        0 <= j,
        T::is_finite_spec(outcome::forward(f, b, r, j)),
    ensures
        T::value(outcome::forward(f, b, r, j)) == T::value(b[r]) - sums::sum(
            j,
            |i: int| lower_value(f, r, i) * T::value(outcome::forward(f, b, i, i)),
        ),
    decreases j,
{
    if j > 0 {
        let rest = outcome::forward(f, b, r, j - 1);
        let z = outcome::forward(f, b, j - 1, j - 1);
        match (f.lower)(r, j - 1) {
            Some(l) => {
                T::minus_is_exact(rest, T::times_spec(l, z));
                T::times_is_exact(l, z);
            },
            None => {
                let v = T::value(z);
                assert(0real * v == 0real) by (nonlinear_arith);
            },
        }
        lemma_forward_value(f, b, r, j - 1);
    }
}

/// What the backward substitution computes.
proof fn lemma_backward_value<T: ExactScalar>(f: model::Factors<T>, w: Seq<T>, j: int, r: int)
    requires
        0 <= j < r <= w.len(),
        T::is_finite_spec(outcome::backward(f, w, j, r)),
    ensures
        T::is_finite_spec(w[j]),
        T::value(outcome::backward(f, w, j, r)) == T::value(w[j]) - sums::sum(
            r,
            |i: int|
                if i > j {
                    lower_value(f, i, j) * T::value(outcome::backward(f, w, i, w.len() as int))
                } else {
                    0real
                },
        ),
    decreases r - j,
{
    let term = |i: int|
        if i > j {
            lower_value(f, i, j) * T::value(outcome::backward(f, w, i, w.len() as int))
        } else {
            0real
        };
    if r == j + 1 {
        sums::lemma_sum_zero(r, term);
    } else {
        let rest = outcome::backward(f, w, j, r - 1);
        let x = outcome::backward(f, w, r - 1, w.len() as int);
        match (f.lower)(r - 1, j) {
            Some(l) => {
                T::minus_is_exact(rest, T::times_spec(l, x));
                T::times_is_exact(l, x);
            },
            None => {
                let v = T::value(x);
                assert(0real * v == 0real) by (nonlinear_arith);
            },
        }
        lemma_backward_value(f, w, j, r - 1);
        assert(sums::sum(r, term) == sums::sum(r - 1, term) + term(r - 1));
    }
}

/// The three substitutions solve `L D Lᵀ x = b`.
pub proof fn lemma_substituted<T: ExactScalar>(f: model::Factors<T>, b: Seq<T>, k: int)
    requires
        forall|r: int, i: int|
            #[trigger] (f.lower)(r, i) is Some ==> 0 <= i < r < f.pivots.len(),
        all_finite(outcome::substituted(f, b)),
        0 <= k < f.pivots.len(),
    ensures
        sums::sum(
            f.pivots.len() as int,
            |j: int| ldlt_entry(f, k, j) * T::value(outcome::substituted(f, b)[j]),
        ) == T::value(b[k]),
{
    let n = f.pivots.len() as int;
    let z = Seq::new(n as nat, |i: int| outcome::forward(f, b, i, i));
    let w = Seq::new(
        n as nat,
        |i: int| T::over_spec(outcome::forward(f, b, i, i), f.pivots[i]),
    );
    let x = outcome::substituted(f, b);
    // Lᵀ x = w and D w = z.
    let column = |i: int| sums::sum(n, |j: int| l_matrix(f, j, i) * T::value(x[j]));
    assert forall|i: int| 0 <= i < n implies #[trigger] column(i) == T::value(w[i]) && T::value(w[i])
        * d_value(f, i) == T::value(z[i]) && T::is_finite_spec(z[i]) by {
        assert(T::is_finite_spec(x[i]));
        lemma_backward_value(f, w, i, n);
        T::over_is_exact(z[i], f.pivots[i]);
        let zv = T::value(z[i]);
        let dv = d_value(f, i);
        assert((zv / dv) * dv == zv) by (nonlinear_arith)
            requires
                dv != 0real,
        ;
        let below = |j: int|
            if j > i {
                lower_value(f, j, i) * T::value(outcome::backward(f, w, j, n))
            } else {
                0real
            };
        let unit = |j: int|
            if j == i {
                T::value(x[i])
            } else {
                0real
            };
        sums::lemma_sum_plus(n, below, unit);
        sums::lemma_sum_single(n, i, unit);
        let full = |j: int| l_matrix(f, j, i) * T::value(x[j]);
        assert forall|j: int| 0 <= j < n implies below(j) + unit(j) == #[trigger] full(j) by {
            let v = T::value(x[j]);
            assert(0real * v == 0real) by (nonlinear_arith);
            assert(1real * v == v) by (nonlinear_arith);
            if j < i {
                assert((f.lower)(j, i) is None);
            }
        }
        sums::lemma_sum_same(n, |j: int| below(j) + unit(j), full);
    }
    // L z = b.
    let row = |i: int| l_matrix(f, k, i) * T::value(z[i]);
    assert(sums::sum(n, row) == T::value(b[k])) by {
        assert(column(k) == T::value(w[k]));
        lemma_forward_value(f, b, k, k);
        assert forall|i: int| k < i < n implies #[trigger] row(i) == 0real by {
            assert((f.lower)(k, i) is None);
            let v = T::value(z[i]);
            assert(0real * v == 0real) by (nonlinear_arith);
        }
        sums::lemma_sum_cut(k + 1, n, row);
        sums::lemma_sum_same(
            k,
            |i: int| lower_value(f, k, i) * T::value(outcome::forward(f, b, i, i)),
            row,
        );
        let v = T::value(z[k]);
        assert(1real * v == v) by (nonlinear_arith);
    }
    let xv = |j: int| T::value(x[j]);
    lemma_ldlt_times(f, k, xv);
    let scaled = |i: int| l_matrix(f, k, i) * d_value(f, i) * column(i);
    assert forall|i: int| 0 <= i < n implies #[trigger] scaled(i) == row(i) by {
        assert(column(i) == T::value(w[i]));
        let l = l_matrix(f, k, i);
        let d = d_value(f, i);
        let wv = T::value(w[i]);
        assert(l * d * wv == l * (wv * d)) by (nonlinear_arith);
    }
    let inner = |i: int|
        l_matrix(f, k, i) * d_value(f, i) * sums::sum(n, |j: int| l_matrix(f, j, i) * xv(j));
    assert forall|i: int| 0 <= i < n implies inner(i) == #[trigger] row(i) by {
        sums::lemma_sum_same(
            n,
            |j: int| l_matrix(f, j, i) * xv(j),
            |j: int| l_matrix(f, j, i) * T::value(x[j]),
        );
        assert(scaled(i) == row(i));
    }
    sums::lemma_sum_same(n, inner, row);
    sums::lemma_sum_same(
        n,
        |j: int| ldlt_entry(f, k, j) * xv(j),
        |j: int| ldlt_entry(f, k, j) * T::value(x[j]),
    );
}

/// Every value that a column stores in a row is the value of one of its entries.
proof fn lemma_values_at_entry<T>(col: Seq<(int, T)>, j: int, s: int) -> (t: int)
    requires
        0 <= s < csc::values_at(col, j).len(),
    ensures
        0 <= t < col.len(),
        col[t].1 == csc::values_at(col, j)[s],
    decreases col.len(),
{
    let init = col.drop_last();
    if s < csc::values_at(init, j).len() {
        let t = lemma_values_at_entry(init, j, s);
        assert(init[t] == col[t]);
        t
    } else {
        col.len() - 1
    }
}

proof fn lemma_merged_value<T: ExactScalar>(s: Seq<T>)
    requires
        s.len() > 0,
        T::is_finite_spec(permute::merged(s)),
    ensures
        T::value(permute::merged(s)) == sums::list_sum(s.map_values(|v: T| T::value(v))),
    decreases s.len(),
{
    let m = s.map_values(|v: T| T::value(v));
    assert(m.drop_last() =~= s.drop_last().map_values(|v: T| T::value(v)));
    if s.len() > 1 {
        T::plus_is_exact(permute::merged(s.drop_last()), s.last());
        lemma_merged_value(s.drop_last());
    } else {
        assert(m.drop_last().len() == 0);
        assert(sums::list_sum(m.drop_last()) == 0real);
    }
}

/// The permuted matrix has the entries of the matrix, rows and columns taken in the given order.
pub proof fn lemma_permuted_matrix<T: ExactScalar>(
    a: Seq<Seq<(int, T)>>,
    order: Seq<int>,
    j: int,
    k: int,
)
    requires
        !permute::has_overflow(permute::permuted(a, order)),
        0 <= j < a.len(),
        0 <= k < a.len(),
    ensures
        matrix(permute::permuted(a, order), j, k) == matrix(a, order[j], order[k]),
    decreases
            if j > k {
                1int
            } else {
                0int
            },
{
    if j > k {
        lemma_permuted_matrix(a, order, k, j);
    } else {
        let b = permute::permuted(a, order);
        let vs = permute::pair_values(a, order[j], order[k]);
        permute::lemma_permuted_values(a, order, k, k + 1, j);
        let found = csc::values_at(b[k], j);
        if vs.len() > 0 {
            let t = lemma_values_at_entry(b[k], j, 0);
            assert(T::is_finite_spec(b[k][t].1));
            lemma_merged_value(vs);
            let m = found.map_values(|v: T| T::value(v));
            assert(m.drop_last().len() == 0);
            assert(sums::list_sum(m.drop_last()) == 0real);
        } else {
            assert(found.map_values(|v: T| T::value(v)) =~= vs.map_values(|v: T| T::value(v)));
        }
    }
}

/// The shifted matrix has the shift added to its diagonal.
pub proof fn lemma_shifted_matrix<T: ExactScalar>(
    a: Seq<Seq<(int, T)>>,
    shift: T,
    j: int,
    k: int,
)
    requires
        0 <= j < a.len(),
        0 <= k < a.len(),
    ensures
        matrix(permute::shifted(a, shift), j, k) == shifted_matrix(a, T::value(shift), j, k),
    decreases
            if j > k {
                1int
            } else {
                0int
            },
{
    if j > k {
        lemma_shifted_matrix(a, shift, k, j);
    } else {
        permute::lemma_values_at_push(a[k], (k, shift), j);
        let vs = csc::values_at(a[k], j);
        let m = vs.push(shift).map_values(|v: T| T::value(v));
        assert(m.drop_last() =~= vs.map_values(|v: T| T::value(v)));
    }
}

} // verus!
