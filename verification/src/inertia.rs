//! Quadratic forms as sums of squares, and how many of the squares can be negative.
//!
//! A quadratic form can be written as a sum of squares of linear functionals in many ways. Over
//! `n` functionals that vanish together at zero alone, the number of negative coefficients is the
//! same in all of them. The factorization `L D Lᵀ` is one of them; its coefficients are the pivots.
use vstd::prelude::*;

use crate::exact;
use crate::graph;
use crate::model;
use crate::ordering;
use crate::outcome;
use crate::scalar::ExactScalar;
use crate::sums;

verus! {

/// A real vector, or a linear functional by its coefficients.
pub type RealVector = spec_fn(int) -> real;

/// The value of the functional `r` at `x`.
pub open spec fn dot(n: int, r: RealVector, x: RealVector) -> real {
    sums::sum(n, |i: int| r(i) * x(i))
}

/// All the functionals are zero at `x`.
pub open spec fn vanish(n: int, rows: Seq<RealVector>, x: RealVector) -> bool {
    forall|t: int| 0 <= t < rows.len() ==> dot(n, #[trigger] rows[t], x) == 0real
}

/// The vector is zero.
pub open spec fn is_zero_vector(n: int, x: RealVector) -> bool {
    forall|i: int| 0 <= i < n ==> #[trigger] x(i) == 0real
}

/// The functionals vanish together at zero alone.
pub open spec fn independent(n: int, rows: Seq<RealVector>) -> bool {
    forall|x: RealVector| #[trigger] vanish(n, rows, x) ==> is_zero_vector(n, x)
}

/// The sum of the squares of the functionals at `x`, each times its coefficient.
pub open spec fn squares(n: int, coef: Seq<real>, rows: Seq<RealVector>, x: RealVector) -> real {
    sums::sum(coef.len() as int, |i: int| coef[i] * (dot(n, rows[i], x) * dot(n, rows[i], x)))
}

/// The quadratic form of the matrix `m` at `x`.
pub open spec fn quadratic(n: int, m: spec_fn(int, int) -> real, x: RealVector) -> real {
    sums::sum(n, |u: int| sums::sum(n, |v: int| m(u, v) * x(v)) * x(u))
}

/// The number of negative coefficients.
pub open spec fn negative_count(coef: Seq<real>) -> int {
    graph::count(coef.len() as int, |i: int| coef[i] < 0real)
}

/// The number of positive coefficients.
pub open spec fn positive_count(coef: Seq<real>) -> int {
    graph::count(coef.len() as int, |i: int| coef[i] > 0real)
}

/// Adding `e` to the diagonal adds `e` times the square of the length to the form.
pub proof fn lemma_diagonal_shift(
    n: int,
    m1: spec_fn(int, int) -> real,
    m2: spec_fn(int, int) -> real,
    e: real,
    x: RealVector,
)
    requires
        forall|u: int, v: int|
            0 <= u < n && 0 <= v < n ==> #[trigger] m2(u, v) == m1(u, v) + if u == v {
                e
            } else {
                0real
            },
    ensures
        quadratic(n, m2, x) == quadratic(n, m1, x) + e * dot(n, x, x),
{
    let q1 = |u: int| sums::sum(n, |v: int| m1(u, v) * x(v)) * x(u);
    let q2 = |u: int| sums::sum(n, |v: int| m2(u, v) * x(v)) * x(u);
    let square = |u: int| x(u) * x(u);
    let extra = |u: int| e * square(u);
    assert forall|u: int| 0 <= u < n implies q1(u) + extra(u) == #[trigger] q2(u) by {
        let r1 = |v: int| m1(u, v) * x(v);
        let r2 = |v: int| m2(u, v) * x(v);
        let one = |v: int|
            if v == u {
                e * x(u)
            } else {
                0real
            };
        sums::lemma_sum_plus(n, r1, one);
        sums::lemma_sum_single(n, u, one);
        assert forall|v: int| 0 <= v < n implies r1(v) + one(v) == #[trigger] r2(v) by {
            let b = m1(u, v);
            let c = m2(u, v);
            let y = x(v);
            if v == u {
                assert(b * y + e * y == c * y) by (nonlinear_arith)
                    requires
                        c == b + e,
                ;
            }
        }
        sums::lemma_sum_same(n, |v: int| r1(v) + one(v), r2);
        let s1 = sums::sum(n, r1);
        let s2 = sums::sum(n, r2);
        let y = x(u);
        assert(s2 * y == s1 * y + e * (y * y)) by (nonlinear_arith)
            requires
                s2 == s1 + e * y,
        ;
    }
    sums::lemma_sum_plus(n, q1, extra);
    sums::lemma_sum_times(n, e, square);
    sums::lemma_sum_same(n, |u: int| q1(u) + extra(u), q2);
}

/// A functional less a multiple of another.
spec fn reduced(r: RealVector, p: RealVector, last: int) -> RealVector {
    |i: int| r(i) - (r(last) / p(last)) * p(i)
}

/// Fewer functionals than dimensions vanish together somewhere else than at zero.
proof fn lemma_kernel(n: int, rows: Seq<RealVector>) -> (x: RealVector)
    requires
        rows.len() < n,
    ensures
        vanish(n, rows, x),
        !is_zero_vector(n, x),
    decreases n,
{
    let last = n - 1;
    if forall|t: int| 0 <= t < rows.len() ==> (#[trigger] rows[t])(last) == 0real {
        let x: RealVector = |i: int|
            if i == last {
                1real
            } else {
                0real
            };
        assert forall|t: int| 0 <= t < rows.len() implies dot(n, #[trigger] rows[t], x)
            == 0real by {
            let term = |i: int| rows[t](i) * x(i);
            assert forall|i: int| 0 <= i < n implies #[trigger] term(i) == 0real by {
                let c = rows[t](i);
                assert(c * 0real == 0real) by (nonlinear_arith);
                assert(0real * 1real == 0real);
            }
            sums::lemma_sum_zero(n, term);
        }
        assert(x(last) != 0real);
        x
    } else {
        let t0 = choose|t: int| 0 <= t < rows.len() && (#[trigger] rows[t])(last) != 0real;
        let p = rows[t0];
        let others = rows.remove(t0);
        let rest = others.map_values(|r: RealVector| reduced(r, p, last));
        let y = lemma_kernel(last, rest);
        let s = dot(last, p, y);
        let pn = p(last);
        let c = -(s / pn);
        let x: RealVector = |i: int|
            if i == last {
                c
            } else {
                y(i)
            };
        assert forall|r: RealVector| #[trigger] dot(n, r, x) == dot(last, r, y) + r(last) * c by {
            sums::lemma_sum_same(last, |i: int| r(i) * x(i), |i: int| r(i) * y(i));
        }
        assert forall|t: int| 0 <= t < rows.len() implies dot(n, #[trigger] rows[t], x)
            == 0real by {
            if t == t0 {
                assert(s + pn * (-(s / pn)) == 0real) by (nonlinear_arith)
                    requires
                        pn != 0real,
                ;
            } else {
                let t2 = if t < t0 {
                    t
                } else {
                    t - 1
                };
                let r = rows[t];
                assert(others[t2] == r);
                assert(rest[t2] == reduced(r, p, last));
                assert(dot(last, rest[t2], y) == 0real);
                let q = r(last) / pn;
                lemma_dot_reduced(last, r, p, q, y);
                sums::lemma_sum_same(
                    last,
                    |i: int| rest[t2](i) * y(i),
                    |i: int| (r(i) - q * p(i)) * y(i),
                );
                let rn = r(last);
                assert((rn / pn) * s + rn * (-(s / pn)) == 0real) by (nonlinear_arith)
                    requires
                        pn != 0real,
                ;
            }
        }
        let i = choose|i: int| 0 <= i < last && #[trigger] y(i) != 0real;
        assert(x(i) == y(i));
        x
    }
}

proof fn lemma_dot_reduced(n: int, r: RealVector, p: RealVector, q: real, y: RealVector)
    ensures
        sums::sum(n, |i: int| (r(i) - q * p(i)) * y(i)) == dot(n, r, y) - q * dot(n, p, y),
    decreases n,
{
    if n > 0 {
        lemma_dot_reduced(n - 1, r, p, q, y);
        let a = r(n - 1);
        let b = p(n - 1);
        let c = y(n - 1);
        let s = dot(n - 1, p, y);
        assert((a - q * b) * c == a * c - q * (b * c)) by (nonlinear_arith);
        assert(q * (s + b * c) == q * s + q * (b * c)) by (nonlinear_arith);
    } else {
        assert(q * 0real == 0real) by (nonlinear_arith);
    }
}

/// The functionals among the first `k` whose index satisfies `p`.
spec fn select(k: int, rows: Seq<RealVector>, p: spec_fn(int) -> bool) -> Seq<RealVector>
    decreases k,
{
    if k <= 0 {
        Seq::empty()
    } else if p(k - 1) {
        select(k - 1, rows, p).push(rows[k - 1])
    } else {
        select(k - 1, rows, p)
    }
}

proof fn lemma_select(k: int, rows: Seq<RealVector>, p: spec_fn(int) -> bool)
    ensures
        select(k, rows, p).len() == graph::count(k, p),
        forall|i: int| 0 <= i < k && #[trigger] p(i) ==> select(k, rows, p).contains(rows[i]),
    decreases k,
{
    if k > 0 {
        lemma_select(k - 1, rows, p);
        let rest = select(k - 1, rows, p);
        assert forall|i: int| 0 <= i < k && #[trigger] p(i) implies select(k, rows, p).contains(
            rows[i],
        ) by {
            if i < k - 1 {
                let t = choose|t: int| 0 <= t < rest.len() && rest[t] == rows[i];
                assert(select(k, rows, p)[t] == rows[i]);
            } else {
                assert(select(k, rows, p).last() == rows[i]);
            }
        }
    }
}

/// A form that is nowhere above another has at least as many negative coefficients.
pub proof fn lemma_negative_count_monotone(
    n: int,
    c1: Seq<real>,
    r1: Seq<RealVector>,
    c2: Seq<real>,
    r2: Seq<RealVector>,
)
    requires
        c1.len() == n,
        r1.len() == n,
        r2.len() == c2.len(),
        independent(n, r1),
        forall|x: RealVector| #[trigger] squares(n, c2, r2, x) <= squares(n, c1, r1, x),
    ensures
        negative_count(c1) <= negative_count(c2),
{
    let k = c2.len() as int;
    let below = |i: int| c1[i] < 0real;
    let not_below = |i: int| !(c1[i] < 0real);
    let below2 = |i: int| c2[i] < 0real;
    graph::lemma_count_complement(n, below, not_below);
    if negative_count(c1) > negative_count(c2) {
        lemma_select(n, r1, not_below);
        lemma_select(k, r2, below2);
        let s1 = select(n, r1, not_below);
        let s2 = select(k, r2, below2);
        let rows = s1 + s2;
        let x = lemma_kernel(n, rows);
        assert forall|i: int| 0 <= i < n && !below(i) implies dot(n, #[trigger] r1[i], x)
            == 0real by {
            assert(not_below(i));
            let t = choose|t: int| 0 <= t < s1.len() && s1[t] == r1[i];
            assert(rows[t] == r1[i]);
        }
        assert forall|i: int| 0 <= i < k && below2(i) implies dot(n, #[trigger] r2[i], x)
            == 0real by {
            let t = choose|t: int| 0 <= t < s2.len() && s2[t] == r2[i];
            assert(rows[t + s1.len()] == r2[i]);
        }
        let f1 = |i: int| c1[i] * (dot(n, r1[i], x) * dot(n, r1[i], x));
        let f2 = |i: int| c2[i] * (dot(n, r2[i], x) * dot(n, r2[i], x));
        assert forall|i: int| 0 <= i < k implies #[trigger] f2(i) >= 0real by {
            let c = c2[i];
            let d = dot(n, r2[i], x);
            assert(c * (d * d) >= 0real) by (nonlinear_arith)
                requires
                    c >= 0real || d == 0real,
            ;
        }
        sums::lemma_sum_nonnegative(k, f2);
        let negated = |i: int| (-1real) * f1(i);
        sums::lemma_sum_times(n, -1real, f1);
        assert forall|i: int| 0 <= i < n implies #[trigger] negated(i) >= 0real && (dot(
            n,
            r1[i],
            x,
        ) != 0real ==> negated(i) > 0real) by {
            let c = c1[i];
            let d = dot(n, r1[i], x);
            assert((-1real) * (c * (d * d)) >= 0real && (d != 0real ==> (-1real) * (c * (d * d))
                > 0real)) by (nonlinear_arith)
                requires
                    c < 0real || d == 0real,
            ;
        }
        sums::lemma_sum_nonnegative(n, negated);
        assert(!vanish(n, r1, x));
        let i = choose|i: int| 0 <= i < r1.len() && dot(n, #[trigger] r1[i], x) != 0real;
        assert(negated(i) > 0real);
        assert(squares(n, c1, r1, x) < 0real);
        assert(squares(n, c2, r2, x) >= 0real);
    }
}

/// The vector is zero outside the components that satisfy `p`.
pub open spec fn is_supported(n: int, p: spec_fn(int) -> bool, x: RealVector) -> bool {
    forall|i: int| 0 <= i < n && !#[trigger] p(i) ==> x(i) == 0real
}

/// The matrix is positive definite on the components that satisfy `p` and negative definite on
/// the others.
pub open spec fn is_quasidefinite(
    n: int,
    m: spec_fn(int, int) -> real,
    p: spec_fn(int) -> bool,
) -> bool {
    &&& forall|x: RealVector|
        #![trigger quadratic(n, m, x)]
        is_supported(n, p, x) && !is_zero_vector(n, x) ==> quadratic(n, m, x) > 0real
    &&& forall|x: RealVector|
        #![trigger quadratic(n, m, x)]
        is_supported(n, |i: int| !p(i), x) && !is_zero_vector(n, x) ==> quadratic(n, m, x) < 0real
}

/// The functional that gives component `i`.
spec fn component(i: int) -> RealVector {
    |v: int|
        if v == i {
            1real
        } else {
            0real
        }
}

proof fn lemma_component(n: int, i: int, x: RealVector)
    requires
        0 <= i < n,
    ensures
        dot(n, component(i), x) == x(i),
{
    let term = |v: int| component(i)(v) * x(v);
    assert forall|v: int| 0 <= v < n && v != i implies #[trigger] term(v) == 0real by {
        let y = x(v);
        assert(0real * y == 0real) by (nonlinear_arith);
    }
    sums::lemma_sum_single(n, i, term);
    let y = x(i);
    assert(1real * y == y) by (nonlinear_arith);
}

/// A form that is negative on the vectors supported on some components has at least that many
/// negative coefficients.
pub proof fn lemma_negative_components(
    n: int,
    coef: Seq<real>,
    rows: Seq<RealVector>,
    q: spec_fn(int) -> bool,
)
    requires
        n >= 0,
        coef.len() == rows.len(),
        forall|x: RealVector|
            #![trigger squares(n, coef, rows, x)]
            is_supported(n, q, x) && !is_zero_vector(n, x) ==> squares(n, coef, rows, x) < 0real,
    ensures
        graph::count(n, q) <= negative_count(coef),
{
    let k = coef.len() as int;
    let out = |i: int| !q(i);
    let below = |i: int| coef[i] < 0real;
    graph::lemma_count_complement(n, q, out);
    if graph::count(n, q) > negative_count(coef) {
        let units = Seq::new(n as nat, |i: int| component(i));
        lemma_select(n, units, out);
        lemma_select(k, rows, below);
        let s1 = select(n, units, out);
        let s2 = select(k, rows, below);
        let all = s1 + s2;
        let x = lemma_kernel(n, all);
        assert forall|i: int| 0 <= i < n && !#[trigger] q(i) implies x(i) == 0real by {
            assert(out(i));
            let t = choose|t: int| 0 <= t < s1.len() && s1[t] == units[i];
            assert(all[t] == units[i]);
            lemma_component(n, i, x);
        }
        let f = |i: int| coef[i] * (dot(n, rows[i], x) * dot(n, rows[i], x));
        assert forall|i: int| 0 <= i < k implies #[trigger] f(i) >= 0real by {
            let c = coef[i];
            let d = dot(n, rows[i], x);
            if below(i) {
                let t = choose|t: int| 0 <= t < s2.len() && s2[t] == rows[i];
                assert(all[t + s1.len()] == rows[i]);
            }
            assert(c * (d * d) >= 0real) by (nonlinear_arith)
                requires
                    c >= 0real || d == 0real,
            ;
        }
        sums::lemma_sum_nonnegative(k, f);
        assert(squares(n, coef, rows, x) >= 0real);
    }
}

/// No coefficient is both negative and positive.
proof fn lemma_sign_counts_bound(coef: Seq<real>, k: int)
    requires
        0 <= k,
    ensures
        graph::count(k, |i: int| coef[i] < 0real) + graph::count(k, |i: int| coef[i] > 0real) <= k,
    decreases k,
{
    if k > 0 {
        lemma_sign_counts_bound(coef, k - 1);
    }
}

/// A form of `n` squares that is positive on some components and negative on the others has as
/// many positive and negative coefficients.
pub proof fn lemma_quasidefinite_counts(
    n: int,
    m: spec_fn(int, int) -> real,
    p: spec_fn(int) -> bool,
    coef: Seq<real>,
    rows: Seq<RealVector>,
)
    requires
        n >= 0,
        is_quasidefinite(n, m, p),
        coef.len() == n,
        rows.len() == n,
        forall|x: RealVector| #[trigger] quadratic(n, m, x) == squares(n, coef, rows, x),
    ensures
        positive_count(coef) == graph::count(n, p),
        negative_count(coef) == n - graph::count(n, p),
{
    let q = |i: int| !p(i);
    graph::lemma_count_complement(n, p, q);
    assert forall|x: RealVector| is_supported(n, q, x) && !is_zero_vector(n, x) implies #[trigger] squares(
        n,
        coef,
        rows,
        x,
    ) < 0real by {
        assert(quadratic(n, m, x) < 0real);
    }
    lemma_negative_components(n, coef, rows, q);
    let coef2 = negated(coef);
    assert forall|x: RealVector| is_supported(n, p, x) && !is_zero_vector(n, x) implies #[trigger] squares(
        n,
        coef2,
        rows,
        x,
    ) < 0real by {
        assert(quadratic(n, m, x) > 0real);
        lemma_negated(n, coef, rows, x);
    }
    lemma_negative_components(n, coef2, rows, p);
    lemma_negated_count(coef);
    lemma_sign_counts_bound(coef, n);
}

/// The form of a leading block is the form of the matrix on vectors that end in zeros.
proof fn lemma_quadratic_leading(k: int, n: int, m: spec_fn(int, int) -> real, x: RealVector)
    requires
        0 <= k <= n,
        forall|i: int| k <= i < n ==> #[trigger] x(i) == 0real,
    ensures
        quadratic(n, m, x) == quadratic(k, m, x),
{
    let outer = |u: int| sums::sum(n, |v: int| m(u, v) * x(v)) * x(u);
    let short = |u: int| sums::sum(k, |v: int| m(u, v) * x(v)) * x(u);
    assert forall|u: int| k <= u < n implies #[trigger] outer(u) == 0real by {
        let s = sums::sum(n, |v: int| m(u, v) * x(v));
        let y = x(u);
        assert(s * 0real == 0real) by (nonlinear_arith);
        assert(y == 0real);
    }
    sums::lemma_sum_cut(k, n, outer);
    assert forall|u: int| 0 <= u < k implies outer(u) == #[trigger] short(u) by {
        let inner = |v: int| m(u, v) * x(v);
        assert forall|v: int| k <= v < n implies #[trigger] inner(v) == 0real by {
            let c = m(u, v);
            let y = x(v);
            assert(c * 0real == 0real) by (nonlinear_arith);
            assert(y == 0real);
        }
        sums::lemma_sum_cut(k, n, inner);
    }
    sums::lemma_sum_same(k, outer, short);
}

/// A leading block of a quasidefinite matrix is quasidefinite.
pub proof fn lemma_quasidefinite_leading(
    k: int,
    n: int,
    m: spec_fn(int, int) -> real,
    p: spec_fn(int) -> bool,
)
    requires
        0 <= k <= n,
        is_quasidefinite(n, m, p),
    ensures
        is_quasidefinite(k, m, p),
{
    let q = |i: int| !p(i);
    assert forall|x: RealVector|
        #![trigger quadratic(k, m, x)]
        !is_zero_vector(k, x) implies (is_supported(k, p, x) ==> quadratic(k, m, x) > 0real) && (
    is_supported(k, q, x) ==> quadratic(k, m, x) < 0real) by {
        let y: RealVector = |i: int|
            if i < k {
                x(i)
            } else {
                0real
            };
        lemma_quadratic_leading(k, n, m, y);
        lemma_quadratic_same(k, m, x, y);
        let i = choose|i: int| 0 <= i < k && #[trigger] x(i) != 0real;
        assert(y(i) != 0real);
        assert(!is_zero_vector(n, y));
        if is_supported(k, p, x) {
            assert forall|i: int| 0 <= i < n && !#[trigger] p(i) implies y(i) == 0real by {}
            assert(quadratic(n, m, y) > 0real);
        }
        if is_supported(k, q, x) {
            assert forall|i: int| 0 <= i < n && !#[trigger] q(i) implies y(i) == 0real by {}
            assert(quadratic(n, m, y) < 0real);
        }
    }
}

proof fn lemma_quadratic_same(n: int, m: spec_fn(int, int) -> real, x: RealVector, y: RealVector)
    requires
        forall|i: int| 0 <= i < n ==> #[trigger] x(i) == y(i),
    ensures
        quadratic(n, m, x) == quadratic(n, m, y),
{
    let f = |u: int| sums::sum(n, |v: int| m(u, v) * x(v)) * x(u);
    let g = |u: int| sums::sum(n, |v: int| m(u, v) * y(v)) * y(u);
    assert forall|u: int| 0 <= u < n implies f(u) == #[trigger] g(u) by {
        let p = |v: int| m(u, v) * x(v);
        let q = |v: int| m(u, v) * y(v);
        assert forall|v: int| 0 <= v < n implies p(v) == #[trigger] q(v) by {
            assert(x(v) == y(v));
        }
        sums::lemma_sum_same(n, p, q);
        assert(x(u) == y(u));
    }
    sums::lemma_sum_same(n, f, g);
}

/// Taking rows and columns in another order keeps a matrix quasidefinite.
pub proof fn lemma_quasidefinite_permuted(
    n: int,
    m: spec_fn(int, int) -> real,
    p: spec_fn(int) -> bool,
    order: Seq<int>,
    m2: spec_fn(int, int) -> real,
)
    requires
        is_quasidefinite(n, m, p),
        ordering::is_permutation(n, order),
        forall|j: int, k: int|
            0 <= j < n && 0 <= k < n ==> #[trigger] m2(j, k) == m(order[j], order[k]),
    ensures
        is_quasidefinite(n, m2, |k: int| p(order[k])),
{
    let p2 = |k: int| p(order[k]);
    let q2 = |k: int| !p2(k);
    let q = |k: int| !p(k);
    assert forall|t: int| 0 <= t < n implies 0 <= #[trigger] order[t] < n && order.index_of(
        order[t],
    ) == t by {
        assert(order.contains(order[t]));
    }
    assert forall|x: RealVector|
        #![trigger quadratic(n, m2, x)]
        !is_zero_vector(n, x) implies (is_supported(n, p2, x) ==> quadratic(n, m2, x) > 0real) && (
    is_supported(n, q2, x) ==> quadratic(n, m2, x) < 0real) by {
        let y: RealVector = |v: int| x(order.index_of(v));
        let outer = |u: int| sums::sum(n, |v: int| m(u, v) * y(v)) * y(u);
        let outer2 = |j: int| sums::sum(n, |k: int| m2(j, k) * x(k)) * x(j);
        sums::lemma_sum_of_listing(n, outer, order);
        let listed = |j: int| outer(order[j]);
        assert forall|j: int| 0 <= j < n implies listed(j) == #[trigger] outer2(j) by {
            let inner = |v: int| m(order[j], v) * y(v);
            let inner2 = |k: int| m2(j, k) * x(k);
            sums::lemma_sum_of_listing(n, inner, order);
            let inner_listed = |k: int| inner(order[k]);
            assert forall|k: int| 0 <= k < n implies inner_listed(k) == #[trigger] inner2(k) by {
                assert(m2(j, k) == m(order[j], order[k]));
                assert(order.index_of(order[k]) == k);
            }
            sums::lemma_sum_same(n, inner_listed, inner2);
            assert(order.index_of(order[j]) == j);
        }
        sums::lemma_sum_same(n, listed, outer2);
        assert(quadratic(n, m, y) == quadratic(n, m2, x));
        let i = choose|i: int| 0 <= i < n && #[trigger] x(i) != 0real;
        assert(y(order[i]) != 0real);
        assert(!is_zero_vector(n, y));
        assert forall|v: int| 0 <= v < n implies order[order.index_of(v)] == v && 0
            <= #[trigger] order.index_of(v) < n by {
            assert(order.contains(v));
        }
        if is_supported(n, p2, x) {
            assert forall|v: int| 0 <= v < n && !#[trigger] p(v) implies y(v) == 0real by {
                let t = order.index_of(v);
                assert(order[t] == v);
                assert(!p2(t));
            }
            assert(is_supported(n, p, y));
        }
        if is_supported(n, q2, x) {
            assert forall|v: int| 0 <= v < n && !#[trigger] q(v) implies y(v) == 0real by {
                let t = order.index_of(v);
                assert(order[t] == v);
                assert(!q2(t));
            }
            assert(is_supported(n, q, y));
        }
    }
    assert forall|x: RealVector|
        #![trigger quadratic(n, m2, x)]
        is_supported(n, |i: int| !p2(i), x) && !is_zero_vector(n, x) implies quadratic(n, m2, x)
        < 0real by {
        assert(is_supported(n, q2, x));
    }
}

/// The coefficients with their signs changed.
pub open spec fn negated(coef: Seq<real>) -> Seq<real> {
    coef.map_values(|c: real| -c)
}

pub proof fn lemma_negated(n: int, coef: Seq<real>, rows: Seq<RealVector>, x: RealVector)
    ensures
        squares(n, negated(coef), rows, x) == -squares(n, coef, rows, x),
{
    let k = coef.len() as int;
    let f = |i: int| coef[i] * (dot(n, rows[i], x) * dot(n, rows[i], x));
    let g = |i: int| negated(coef)[i] * (dot(n, rows[i], x) * dot(n, rows[i], x));
    sums::lemma_sum_times(k, -1real, f);
    let scaled = |i: int| (-1real) * f(i);
    assert forall|i: int| 0 <= i < k implies scaled(i) == #[trigger] g(i) by {
        let c = coef[i];
        let d = dot(n, rows[i], x) * dot(n, rows[i], x);
        assert((-1real) * (c * d) == (-c) * d) by (nonlinear_arith);
    }
    sums::lemma_sum_same(k, scaled, g);
}

pub proof fn lemma_negated_count(coef: Seq<real>)
    ensures
        negative_count(negated(coef)) == positive_count(coef),
{
    let k = coef.len() as int;
    graph::lemma_count_same(k, |i: int| negated(coef)[i] < 0real, |i: int| coef[i] > 0real);
}

/// The pivots as real numbers.
pub open spec fn pivot_values<T: ExactScalar>(f: model::Factors<T>) -> Seq<real> {
    Seq::new(f.pivots.len(), |i: int| exact::d_value(f, i))
}

/// The functionals whose squares the pivots multiply: the columns of `L`, on vectors in the row
/// order of the matrix.
pub open spec fn pivot_rows<T: ExactScalar>(f: outcome::Factorization<T>) -> Seq<RealVector> {
    Seq::new(
        f.factors.pivots.len(),
        |i: int| (|v: int| exact::l_matrix(f.factors, f.order.index_of(v), i)),
    )
}

/// Row numbers taken in elimination order.
pub proof fn lemma_order<T>(f: outcome::Factorization<T>, n: int)
    requires
        ordering::is_permutation(n, f.order),
    ensures
        forall|t: int| 0 <= t < n ==> 0 <= #[trigger] f.order[t] < n,
        forall|t: int| 0 <= t < n ==> f.order.index_of(#[trigger] f.order[t]) == t,
        forall|i: int| 0 <= i < n ==> #[trigger] f.order.contains(i),
{
    assert forall|t: int| 0 <= t < n implies 0 <= #[trigger] f.order[t] < n by {
        assert(f.order.contains(f.order[t]));
    }
    assert forall|t: int| 0 <= t < n implies f.order.index_of(#[trigger] f.order[t]) == t by {
        assert(f.order.contains(f.order[t]));
    }
}

/// A functional of the factorization, in elimination order.
pub proof fn lemma_pivot_row<T: ExactScalar>(
    f: outcome::Factorization<T>,
    n: int,
    i: int,
    x: RealVector,
)
    requires
        ordering::is_permutation(n, f.order),
        f.factors.pivots.len() == n,
        0 <= i < n,
    ensures
        dot(n, pivot_rows(f)[i], x) == sums::sum(
            n,
            |j: int| exact::l_matrix(f.factors, j, i) * x(f.order[j]),
        ),
{
    lemma_order(f, n);
    let r = pivot_rows(f)[i];
    let term = |v: int| r(v) * x(v);
    sums::lemma_sum_of_listing(n, term, f.order);
    sums::lemma_sum_same(
        n,
        |j: int| term(f.order[j]),
        |j: int| exact::l_matrix(f.factors, j, i) * x(f.order[j]),
    );
}

/// The quadratic form of a factored matrix is the sum of squares that its factors give.
pub proof fn lemma_quadratic<T: ExactScalar>(
    f: outcome::Factorization<T>,
    n: int,
    m: spec_fn(int, int) -> real,
    x: RealVector,
)
    requires
        exact::factorizes(f, n, m),
    ensures
        quadratic(n, m, x) == squares(n, pivot_values(f.factors), pivot_rows(f), x),
{
    lemma_order(f, n);
    let h = f.factors;
    let y = |j: int| x(f.order[j]);
    let rows = pivot_rows(f);
    let d = pivot_values(h);
    // Each row of the matrix times the vector.
    let outer = |u: int| sums::sum(n, |v: int| m(u, v) * x(v)) * x(u);
    sums::lemma_sum_of_listing(n, outer, f.order);
    let term = |j: int, i: int|
        exact::l_matrix(h, j, i) * exact::d_value(h, i) * dot(n, rows[i], x) * y(j);
    let by_rows = |j: int| sums::sum(n, |i: int| term(j, i));
    let listed = |j: int| outer(f.order[j]);
    assert forall|j: int| 0 <= j < n implies listed(j) == #[trigger] by_rows(j) by {
        let u = f.order[j];
        let inner = |v: int| m(u, v) * x(v);
        sums::lemma_sum_of_listing(n, inner, f.order);
        let entries = |k: int| exact::ldlt_entry(h, j, k) * y(k);
        let inner_listed = |k: int| inner(f.order[k]);
        assert forall|k: int| 0 <= k < n implies inner_listed(k) == #[trigger] entries(k) by {
            assert(m(f.order[j], f.order[k]) == exact::ldlt_entry(h, j, k));
        }
        sums::lemma_sum_same(n, inner_listed, entries);
        exact::lemma_ldlt_times(h, j, y);
        let products = |i: int|
            exact::l_matrix(h, j, i) * exact::d_value(h, i) * sums::sum(
                n,
                |k: int| exact::l_matrix(h, k, i) * y(k),
            );
        let dotted = |i: int|
            exact::l_matrix(h, j, i) * exact::d_value(h, i) * dot(n, rows[i], x);
        assert forall|i: int| 0 <= i < n implies products(i) == #[trigger] dotted(i) by {
            lemma_pivot_row(f, n, i, x);
            sums::lemma_sum_same(
                n,
                |k: int| exact::l_matrix(h, k, i) * y(k),
                |k: int| exact::l_matrix(h, k, i) * x(f.order[k]),
            );
        }
        sums::lemma_sum_same(n, products, dotted);
        let c = y(j);
        sums::lemma_sum_times(n, c, dotted);
        let scaled = |i: int| c * dotted(i);
        let named = |i: int| term(j, i);
        assert forall|i: int| 0 <= i < n implies scaled(i) == #[trigger] named(i) by {
            let e = dotted(i);
            assert(c * e == e * c) by (nonlinear_arith);
        }
        sums::lemma_sum_same(n, scaled, named);
        let s = sums::sum(n, dotted);
        assert(c * s == s * c) by (nonlinear_arith);
    }
    sums::lemma_sum_same(n, listed, by_rows);
    sums::lemma_sum_swap(n, n, term);
    let by_columns = |i: int| sums::sum(n, |j: int| term(j, i));
    let square = |i: int| d[i] * (dot(n, rows[i], x) * dot(n, rows[i], x));
    assert forall|i: int| 0 <= i < n implies by_columns(i) == #[trigger] square(i) by {
        let s = dot(n, rows[i], x);
        let c = exact::d_value(h, i) * s;
        lemma_pivot_row(f, n, i, x);
        let column = |j: int| exact::l_matrix(h, j, i) * x(f.order[j]);
        sums::lemma_sum_times(n, c, column);
        let scaled = |j: int| c * column(j);
        let named = |j: int| term(j, i);
        assert forall|j: int| 0 <= j < n implies scaled(j) == #[trigger] named(j) by {
            let l = exact::l_matrix(h, j, i);
            let dv = exact::d_value(h, i);
            let v = x(f.order[j]);
            assert((dv * s) * (l * v) == l * dv * s * v) by (nonlinear_arith);
        }
        sums::lemma_sum_same(n, scaled, named);
        let dv = exact::d_value(h, i);
        assert((dv * s) * s == dv * (s * s)) by (nonlinear_arith);
    }
    sums::lemma_sum_same(n, by_columns, square);
}

/// The functionals of a factorization vanish together at zero alone.
pub proof fn lemma_pivot_rows_independent<T: ExactScalar>(
    f: outcome::Factorization<T>,
    n: int,
    m: spec_fn(int, int) -> real,
)
    requires
        exact::factorizes(f, n, m),
    ensures
        independent(n, pivot_rows(f)),
{
    let rows = pivot_rows(f);
    lemma_order(f, n);
    assert forall|x: RealVector| #[trigger] vanish(n, rows, x) implies is_zero_vector(n, x) by {
        assert forall|v: int| 0 <= v < n implies #[trigger] x(v) == 0real by {
            assert(f.order.contains(v));
            let i = f.order.index_of(v);
            lemma_vanishing(f, n, x, i);
        }
    }
}

/// Where all the functionals of a factorization are zero, each component is, the last one first.
proof fn lemma_vanishing<T: ExactScalar>(
    f: outcome::Factorization<T>,
    n: int,
    x: RealVector,
    i: int,
)
    requires
        ordering::is_permutation(n, f.order),
        f.factors.pivots.len() == n,
        forall|r: int, i: int| #[trigger] (f.factors.lower)(r, i) is Some ==> 0 <= i < r < n,
        vanish(n, pivot_rows(f), x),
        0 <= i < n,
    ensures
        x(f.order[i]) == 0real,
    decreases n - i,
{
    let h = f.factors;
    let column = |j: int| exact::l_matrix(h, j, i) * x(f.order[j]);
    lemma_pivot_row(f, n, i, x);
    assert(dot(n, pivot_rows(f)[i], x) == 0real);
    assert forall|j: int| 0 <= j < n && j != i implies #[trigger] column(j) == 0real by {
        let l = exact::l_matrix(h, j, i);
        let v = x(f.order[j]);
        if j > i {
            lemma_vanishing(f, n, x, j);
        } else {
            assert((h.lower)(j, i) is None);
        }
        assert(l * v == 0real) by (nonlinear_arith)
            requires
                l == 0real || v == 0real,
        ;
    }
    sums::lemma_sum_single(n, i, column);
    let v = x(f.order[i]);
    assert(1real * v == v) by (nonlinear_arith);
}

} // verus!
