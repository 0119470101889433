//! Scaling, for number types that round.
//!
//! Rounding spoils most laws of arithmetic, but not all. Changing the sign commutes with every
//! operation of a floating-point type, and so does multiplying by a power of the base in one whose
//! exponents have no limits. What follows for factoring and solving is stated here for any number
//! type, over relations between its values.
use vstd::prelude::*;

use crate::csc;
use crate::error::Fault;
use crate::graph;
use crate::laws::breakdown;
use crate::laws::structure;
use crate::model;
use crate::ordering;
use crate::outcome;
use crate::scalar::Scalar;

verus! {

/// What multiplying by a constant does to the values that the elimination handles.
#[verifier::reject_recursive_types(T)]
pub struct Scaling<T> {
    /// The second value is the first one times the constant.
    pub scaled: spec_fn(T, T) -> bool,
    /// The two values are the same number.
    pub same: spec_fn(T, T) -> bool,
    /// The second magnitude is the first one times the magnitude of the constant.
    pub sized: spec_fn(T, T) -> bool,
}

/// Multiplying by the constant commutes with the operations of the elimination.
pub open spec fn is_scaling<T: Scalar>(s: Scaling<T>) -> bool {
    &&& (s.scaled)(T::of_u64_spec(0), T::of_u64_spec(0))
    &&& forall|a: T, b: T, c: T, d: T|
        (s.scaled)(a, c) && (s.scaled)(b, d) ==> (s.scaled)(
            #[trigger] T::plus_spec(a, b),
            #[trigger] T::plus_spec(c, d),
        )
    &&& forall|a: T, b: T, c: T, d: T|
        (s.scaled)(a, c) && (s.scaled)(b, d) ==> (s.scaled)(
            #[trigger] T::minus_spec(a, b),
            #[trigger] T::minus_spec(c, d),
        )
    &&& forall|a: T, b: T, c: T, d: T|
        (s.same)(a, c) && (s.scaled)(b, d) ==> (s.scaled)(
            #[trigger] T::times_spec(a, b),
            #[trigger] T::times_spec(c, d),
        )
    &&& forall|a: T, b: T, c: T, d: T|
        (s.scaled)(a, c) && (s.scaled)(b, d) && !T::is_zero_spec(b) ==> (s.same)(
            #[trigger] T::over_spec(a, b),
            #[trigger] T::over_spec(c, d),
        )
    &&& forall|a: T, c: T| #[trigger]
        (s.scaled)(a, c) ==> {
            &&& T::is_zero_spec(a) == T::is_zero_spec(c)
            &&& T::is_finite_spec(a) == T::is_finite_spec(c)
            &&& (s.sized)(T::magnitude_spec(a), T::magnitude_spec(c))
        }
    &&& (s.sized)(T::of_u64_spec(0), T::of_u64_spec(0))
    &&& forall|a: T, b: T, c: T, d: T|
        (s.sized)(a, c) && (s.sized)(b, d) ==> (s.sized)(
            #[trigger] T::larger_spec(a, b),
            #[trigger] T::larger_spec(c, d),
        )
    &&& forall|x: T, a: T, c: T|
        (s.sized)(a, c) ==> (s.sized)(
            #[trigger] T::times_spec(x, a),
            #[trigger] T::times_spec(x, c),
        )
    &&& forall|a: T, b: T, c: T, d: T|
        (s.sized)(a, c) && (s.sized)(b, d) ==> (#[trigger] T::less_spec(a, b)
            == #[trigger] T::less_spec(c, d))
}

/// The column `q` stores what `p` stores, each value scaled.
pub open spec fn is_scaled_column<T>(s: Scaling<T>, p: Seq<(int, T)>, q: Seq<(int, T)>) -> bool {
    &&& p.len() == q.len()
    &&& forall|t: int|
        0 <= t < p.len() ==> q[t].0 == (#[trigger] p[t]).0 && (s.scaled)(p[t].1, q[t].1)
}

/// The matrix `b` stores what `a` stores, each value scaled.
pub open spec fn is_scaled_matrix<T>(
    s: Scaling<T>,
    a: Seq<Seq<(int, T)>>,
    b: Seq<Seq<(int, T)>>,
) -> bool {
    &&& a.len() == b.len()
    &&& forall|k: int| 0 <= k < a.len() ==> is_scaled_column(s, #[trigger] a[k], b[k])
}

/// The values of the second list are those of the first one, scaled.
pub open spec fn is_scaled_list<T>(s: Scaling<T>, x: Seq<T>, y: Seq<T>) -> bool {
    &&& x.len() == y.len()
    &&& forall|i: int| 0 <= i < x.len() ==> (s.scaled)(#[trigger] x[i], y[i])
}

/// The second factors have the `L` of the first ones, and scaled pivots.
pub open spec fn are_scaled_factors<T>(
    s: Scaling<T>,
    f: model::Factors<T>,
    g: model::Factors<T>,
) -> bool {
    &&& is_scaled_list(s, f.pivots, g.pivots)
    &&& forall|r: int, i: int|
        match (#[trigger] (f.lower)(r, i), (g.lower)(r, i)) {
            (Some(x), Some(y)) => (s.same)(x, y),
            (None, None) => true,
            _ => false,
        }
}

/// The second verdict is the first one, scaled: the same `L` and scaled pivots, or the same failure
/// at the same column with a scaled pivot and scaled magnitudes.
pub open spec fn is_scaled_verdict<T>(
    s: Scaling<T>,
    x: Result<outcome::Factorization<T>, Fault<T>>,
    y: Result<outcome::Factorization<T>, Fault<T>>,
) -> bool {
    match (x, y) {
        (Ok(f), Ok(g)) => g.order == f.order && g.shift == f.shift && are_scaled_factors(
            s,
            f.factors,
            g.factors,
        ),
        (Err(Fault::ZeroPivot(j)), Err(Fault::ZeroPivot(k))) => j == k,
        (
            Err(
                Fault::NearZeroPivot {
                    column: j,
                    pivot: d,
                    scale: m,
                    suggested_shift: u,
                },
            ),
            Err(
                Fault::NearZeroPivot {
                    column: k,
                    pivot: e,
                    scale: n,
                    suggested_shift: v,
                },
            ),
        ) => j == k && (s.scaled)(d, e) && (s.sized)(m, n) && (s.sized)(u, v),
        _ => false,
    }
}

proof fn lemma_scaled_values<T>(s: Scaling<T>, p: Seq<(int, T)>, q: Seq<(int, T)>, j: int)
    requires
        is_scaled_column(s, p, q),
    ensures
        is_scaled_list(s, csc::values_at(p, j), csc::values_at(q, j)),
    decreases p.len(),
{
    if p.len() > 0 {
        let p0 = p.drop_last();
        let q0 = q.drop_last();
        assert forall|t: int| 0 <= t < p0.len() implies q0[t].0 == (#[trigger] p0[t]).0 && (
        s.scaled)(p0[t].1, q0[t].1) by {
            assert(p0[t] == p[t]);
        }
        lemma_scaled_values(s, p0, q0, j);
        let last = p[p.len() - 1];
        assert(q[p.len() - 1].0 == last.0 && (s.scaled)(last.1, q[p.len() - 1].1));
        let x = csc::values_at(p, j);
        let y = csc::values_at(q, j);
        let x0 = csc::values_at(p0, j);
        let y0 = csc::values_at(q0, j);
        assert forall|i: int| 0 <= i < x.len() implies (s.scaled)(#[trigger] x[i], y[i]) by {
            if i < x0.len() {
                assert(x[i] == x0[i] && y[i] == y0[i]);
            }
        }
    }
}

proof fn lemma_scaled_sum<T: Scalar>(s: Scaling<T>, x: Seq<T>, y: Seq<T>)
    requires
        is_scaling(s),
        is_scaled_list(s, x, y),
    ensures
        (s.scaled)(
            csc::sum_from(T::of_u64_spec(0), x),
            csc::sum_from(T::of_u64_spec(0), y),
        ),
    decreases x.len(),
{
    if x.len() > 0 {
        let x0 = x.drop_last();
        let y0 = y.drop_last();
        assert forall|i: int| 0 <= i < x0.len() implies (s.scaled)(#[trigger] x0[i], y0[i]) by {
            assert(x0[i] == x[i]);
        }
        lemma_scaled_sum(s, x0, y0);
        assert((s.scaled)(x[x.len() - 1], y[x.len() - 1]));
    }
}

proof fn lemma_scaled_entry<T: Scalar>(
    s: Scaling<T>,
    p: Seq<(int, T)>,
    q: Seq<(int, T)>,
    j: int,
)
    requires
        is_scaling(s),
        is_scaled_column(s, p, q),
    ensures
        (s.scaled)(csc::entry(p, j), csc::entry(q, j)),
{
    lemma_scaled_values(s, p, q, j);
    lemma_scaled_sum(s, csc::values_at(p, j), csc::values_at(q, j));
}

proof fn lemma_scaled_graph<T>(s: Scaling<T>, a: Seq<Seq<(int, T)>>, b: Seq<Seq<(int, T)>>)
    requires
        is_scaled_matrix(s, a, b),
    ensures
        csc::graph_of(a) == csc::graph_of(b),
{
    assert forall|u: int, v: int| #[trigger] csc::graph_of(a)(u, v) == csc::graph_of(b)(u, v) by {
        if 0 <= u < a.len() && 0 <= v < a.len() {
            assert(is_scaled_column(s, a[u], b[u]));
            assert(is_scaled_column(s, a[v], b[v]));
            lemma_scaled_values(s, a[u], b[u], v);
            lemma_scaled_values(s, a[v], b[v], u);
        }
    }
    assert(csc::graph_of(a) =~= csc::graph_of(b));
}

/// The nodes of a row follow from the rows that its column stores.
proof fn lemma_scaled_reach<T>(
    s: Scaling<T>,
    n: int,
    g: graph::Graph,
    k: int,
    p: Seq<(int, T)>,
    q: Seq<(int, T)>,
)
    requires
        is_scaled_column(s, p, q),
    ensures
        model::reach(n, g, k, p) == model::reach(n, g, k, q),
    decreases p.len(),
{
    if p.len() > 0 {
        let p0 = p.drop_last();
        let q0 = q.drop_last();
        assert forall|t: int| 0 <= t < p0.len() implies q0[t].0 == (#[trigger] p0[t]).0 && (
        s.scaled)(p0[t].1, q0[t].1) by {
            assert(p0[t] == p[t]);
        }
        lemma_scaled_reach(s, n, g, k, p0, q0);
        assert(q[p.len() - 1].0 == p[p.len() - 1].0);
    }
}

proof fn lemma_scaled_gather<T: Scalar>(
    s: Scaling<T>,
    f: model::Factors<T>,
    g: model::Factors<T>,
    p: Seq<(int, T)>,
    q: Seq<(int, T)>,
    pat: Seq<int>,
    y: Seq<T>,
    z: Seq<T>,
    j: int,
    t: int,
)
    requires
        is_scaling(s),
        are_scaled_factors(s, f, g),
        is_scaled_column(s, p, q),
        t <= y.len(),
        is_scaled_list(s, y, z),
    ensures
        (s.scaled)(
            model::gather(f, p, pat, y, j, t),
            model::gather(g, q, pat, z, j, t),
        ),
    decreases t,
{
    if t <= 0 {
        lemma_scaled_entry(s, p, q, j);
    } else {
        lemma_scaled_gather(s, f, g, p, q, pat, y, z, j, t - 1);
        assert((s.scaled)(y[t - 1], z[t - 1]));
        let i = pat[t - 1];
        match ((f.lower)(j, i), (g.lower)(j, i)) {
            (Some(l), Some(m)) => {
                assert((s.scaled)(T::times_spec(l, y[t - 1]), T::times_spec(m, z[t - 1])));
            },
            _ => {},
        }
    }
}

proof fn lemma_scaled_work<T: Scalar>(
    s: Scaling<T>,
    f: model::Factors<T>,
    g: model::Factors<T>,
    p: Seq<(int, T)>,
    q: Seq<(int, T)>,
    pat: Seq<int>,
    t: int,
)
    requires
        is_scaling(s),
        are_scaled_factors(s, f, g),
        is_scaled_column(s, p, q),
        0 <= t,
    ensures
        model::work(f, p, pat, t).len() == t,
        is_scaled_list(s, model::work(f, p, pat, t), model::work(g, q, pat, t)),
    decreases t,
{
    if t > 0 {
        lemma_scaled_work(s, f, g, p, q, pat, t - 1);
        let y = model::work(f, p, pat, t - 1);
        let z = model::work(g, q, pat, t - 1);
        lemma_scaled_gather(s, f, g, p, q, pat, y, z, pat[t - 1], t - 1);
        let y1 = model::work(f, p, pat, t);
        let z1 = model::work(g, q, pat, t);
        assert forall|i: int| 0 <= i < t implies (s.scaled)(#[trigger] y1[i], z1[i]) by {
            if i < t - 1 {
                assert(y1[i] == y[i] && z1[i] == z[i]);
            }
        }
    }
}

proof fn lemma_scaled_pivot<T: Scalar>(
    s: Scaling<T>,
    f: model::Factors<T>,
    g: model::Factors<T>,
    p: Seq<(int, T)>,
    q: Seq<(int, T)>,
    pat: Seq<int>,
    y: Seq<T>,
    z: Seq<T>,
    k: int,
    t: int,
)
    requires
        is_scaling(s),
        are_scaled_factors(s, f, g),
        is_scaled_column(s, p, q),
        t <= y.len(),
        t <= pat.len(),
        is_scaled_list(s, y, z),
        forall|i: int| 0 <= i < pat.len() ==> 0 <= #[trigger] pat[i] < f.pivots.len(),
        forall|i: int| 0 <= i < f.pivots.len() ==> !T::is_zero_spec(#[trigger] f.pivots[i]),
    ensures
        (s.scaled)(
            model::pivot(f, p, pat, y, k, t),
            model::pivot(g, q, pat, z, k, t),
        ),
    decreases t,
{
    if t <= 0 {
        lemma_scaled_entry(s, p, q, k);
    } else {
        lemma_scaled_pivot(s, f, g, p, q, pat, y, z, k, t - 1);
        let i = pat[t - 1];
        let d = f.pivots[i];
        let e = g.pivots[i];
        assert((s.scaled)(y[t - 1], z[t - 1]));
        assert((s.scaled)(d, e));
        assert((s.same)(T::over_spec(y[t - 1], d), T::over_spec(z[t - 1], e)));
        assert((s.scaled)(
            T::times_spec(T::over_spec(y[t - 1], d), y[t - 1]),
            T::times_spec(T::over_spec(z[t - 1], e), z[t - 1]),
        ));
    }
}

/// The first `k` rows of the factors, as long as no pivot before the last of them is zero.
proof fn lemma_scaled_factors<T: Scalar>(
    s: Scaling<T>,
    a: Seq<Seq<(int, T)>>,
    b: Seq<Seq<(int, T)>>,
    k: int,
)
    requires
        is_scaling(s),
        csc::is_upper(a),
        is_scaled_matrix(s, a, b),
        0 <= k <= a.len(),
        forall|i: int|
            0 <= i < k - 1 ==> !T::is_zero_spec(#[trigger] model::factors(a, k).pivots[i]),
    ensures
        are_scaled_factors(s, model::factors(a, k), model::factors(b, k)),
    decreases k,
{
    if k > 0 {
        let n = a.len() as int;
        let j = k - 1;
        let f = model::factors(a, j);
        let g = model::factors(b, j);
        let pat = model::row_order(a, j);
        let m = pat.len() as int;
        model::lemma_factors_shape(a, j);
        model::lemma_factors_extend(a, j, k);
        assert forall|i: int| 0 <= i < j implies !T::is_zero_spec(#[trigger] f.pivots[i]) by {
            assert(model::factors(a, k).pivots[i] == f.pivots[i]);
        }
        lemma_scaled_factors(s, a, b, j);
        lemma_scaled_graph(s, a, b);
        assert(is_scaled_column(s, a[j], b[j]));
        lemma_scaled_reach(s, n, csc::graph_of(a), j, a[j], b[j]);
        model::lemma_row_order(a, j);
        assert forall|i: int| 0 <= i < m implies 0 <= #[trigger] pat[i] < j by {
            graph::lemma_fills_bounds(n, csc::graph_of(a), pat[i], j);
        }
        lemma_scaled_work(s, f, g, a[j], b[j], pat, m);
        let y = model::work(f, a[j], pat, m);
        let z = model::work(g, b[j], pat, m);
        lemma_scaled_pivot(s, f, g, a[j], b[j], pat, y, z, j, m);
        let f1 = model::factors(a, k);
        let g1 = model::factors(b, k);
        assert(f1 == model::next_row(f, j, a[j], pat));
        assert(g1 == model::next_row(g, j, b[j], pat));
        assert forall|i: int| 0 <= i < f1.pivots.len() implies (s.scaled)(
            #[trigger] f1.pivots[i],
            g1.pivots[i],
        ) by {
            if i < j {
                assert((s.scaled)(f.pivots[i], g.pivots[i]));
            }
        }
        assert forall|r: int, i: int|
            match (#[trigger] (f1.lower)(r, i), (g1.lower)(r, i)) {
                (Some(x), Some(y)) => (s.same)(x, y),
                (None, None) => true,
                _ => false,
            } by {
            if r == j && pat.contains(i) {
                let t = pat.index_of(i);
                assert(pat[t] == i);
                assert((s.scaled)(y[t], z[t]));
                assert((s.scaled)(f.pivots[i], g.pivots[i]));
            } else if r != j {
                assert((f1.lower)(r, i) == (f.lower)(r, i));
                assert((g1.lower)(r, i) == (g.lower)(r, i));
            }
        }
    }
}

proof fn lemma_scaled_scale<T: Scalar>(
    s: Scaling<T>,
    a: Seq<Seq<(int, T)>>,
    b: Seq<Seq<(int, T)>>,
    k: int,
)
    requires
        is_scaling(s),
        is_scaled_matrix(s, a, b),
        0 <= k <= a.len(),
    ensures
        (s.sized)(csc::scale(a, k), csc::scale(b, k)),
    decreases k,
{
    if k > 0 {
        lemma_scaled_scale(s, a, b, k - 1);
        assert(is_scaled_column(s, a[k - 1], b[k - 1]));
        lemma_scaled_entry(s, a[k - 1], b[k - 1], k - 1);
        let x = csc::entry(a[k - 1], k - 1);
        let y = csc::entry(b[k - 1], k - 1);
        assert((s.scaled)(x, y));
        assert((s.sized)(T::magnitude_spec(x), T::magnitude_spec(y)));
    }
}

/// The pivot of column `k` in both matrices, where no pivot before it is zero: it is scaled, and
/// treated alike.
proof fn lemma_scaled_column_verdict<T: Scalar>(
    s: Scaling<T>,
    a: Seq<Seq<(int, T)>>,
    b: Seq<Seq<(int, T)>>,
    strict: bool,
    k: int,
)
    requires
        is_scaling(s),
        csc::is_upper(a),
        csc::is_upper(b),
        is_scaled_matrix(s, a, b),
        0 <= k < a.len(),
        forall|i: int| 0 <= i < k ==> !T::is_zero_spec(#[trigger] outcome::pivot_at(a, i)),
    ensures
        (s.scaled)(outcome::pivot_at(a, k), outcome::pivot_at(b, k)),
        outcome::breaks(a, strict, k) == outcome::breaks(b, strict, k),
        outcome::collapses(a, k) == outcome::collapses(b, k),
        (s.sized)(csc::scale(a, a.len() as int), csc::scale(b, b.len() as int)),
{
    let n = a.len() as int;
    model::lemma_factors_shape(a, k + 1);
    model::lemma_factors_extend(a, k + 1, n);
    model::lemma_factors_extend(b, k + 1, n);
    assert forall|i: int| 0 <= i < k implies !T::is_zero_spec(
        #[trigger] model::factors(a, k + 1).pivots[i],
    ) by {
        assert(model::factors(a, n).pivots[i] == model::factors(a, k + 1).pivots[i]);
        assert(!T::is_zero_spec(outcome::pivot_at(a, i)));
    }
    lemma_scaled_factors(s, a, b, k + 1);
    lemma_scaled_scale(s, a, b, n);
    let d = outcome::pivot_at(a, k);
    let e = outcome::pivot_at(b, k);
    assert(model::factors(a, n).pivots[k] == model::factors(a, k + 1).pivots[k]);
    assert(model::factors(b, n).pivots[k] == model::factors(b, k + 1).pivots[k]);
    assert((s.scaled)(d, e));
    let x = csc::scale(a, n);
    let y = csc::scale(b, n);
    let tol = outcome::tolerance::<T>();
    let zero = T::of_u64_spec(0);
    assert(T::less_spec(zero, x) == T::less_spec(zero, y));
    assert((s.sized)(T::times_spec(tol, x), T::times_spec(tol, y)));
    assert((s.sized)(T::magnitude_spec(d), T::magnitude_spec(e)));
    assert(T::less_spec(T::magnitude_spec(d), T::times_spec(tol, x)) == T::less_spec(
        T::magnitude_spec(e),
        T::times_spec(tol, y),
    ));
}

proof fn lemma_scaled_break<T: Scalar>(
    s: Scaling<T>,
    a: Seq<Seq<(int, T)>>,
    b: Seq<Seq<(int, T)>>,
    strict: bool,
    k: int,
)
    requires
        is_scaling(s),
        csc::is_upper(a),
        csc::is_upper(b),
        is_scaled_matrix(s, a, b),
        0 <= k <= a.len(),
        forall|i: int| 0 <= i < k ==> !T::is_zero_spec(#[trigger] outcome::pivot_at(a, i)),
    ensures
        outcome::first_break(a, strict, k) == outcome::first_break(b, strict, k),
    decreases a.len() - k,
{
    if k < a.len() {
        lemma_scaled_column_verdict(s, a, b, strict, k);
        if !outcome::breaks(a, strict, k) {
            lemma_scaled_break(s, a, b, strict, k + 1);
        }
    }
}

proof fn lemma_scaled_collapses<T: Scalar>(
    s: Scaling<T>,
    a: Seq<Seq<(int, T)>>,
    b: Seq<Seq<(int, T)>>,
    k: int,
)
    requires
        is_scaling(s),
        csc::is_upper(a),
        csc::is_upper(b),
        is_scaled_matrix(s, a, b),
        0 <= k <= a.len(),
        forall|i: int| 0 <= i < k ==> !T::is_zero_spec(#[trigger] outcome::pivot_at(a, i)),
    ensures
        outcome::collapsed_columns(a, k) == outcome::collapsed_columns(b, k),
    decreases k,
{
    if k > 0 {
        lemma_scaled_collapses(s, a, b, k - 1);
        lemma_scaled_column_verdict(s, a, b, true, k - 1);
    }
}

/// Scaling a matrix by a constant that commutes with the operations scales its pivots and keeps the
/// verdict, rounding and all: the same `L`, the same columns reported, the same counts, or the same
/// failure at the same column.
pub proof fn law_scaling_commutes_with_factoring<T: Scalar>(
    s: Scaling<T>,
    a: Seq<Seq<(int, T)>>,
    b: Seq<Seq<(int, T)>>,
    strict: bool,
)
    requires
        is_scaling(s),
        csc::is_upper(a),
        is_scaled_matrix(s, a, b),
    ensures
        is_scaled_verdict(s, outcome::factored(a, strict), outcome::factored(b, strict)),
        outcome::collapsed_columns(a, outcome::first_break(a, strict, 0))
            == outcome::collapsed_columns(b, outcome::first_break(b, strict, 0)),
        outcome::entry_count(model::factors(a, a.len() as int), a.len() as int)
            == outcome::entry_count(model::factors(b, b.len() as int), b.len() as int),
        outcome::flop_count(model::factors(a, a.len() as int), a.len() as int)
            == outcome::flop_count(model::factors(b, b.len() as int), b.len() as int),
{
    let n = a.len() as int;
    assert forall|k: int, t: int| 0 <= k < b.len() && 0 <= t < b[k].len() implies 0 <= (
    #[trigger] b[k][t]).0 <= k by {
        assert(is_scaled_column(s, a[k], b[k]));
        assert(b[k][t].0 == a[k][t].0);
    }
    lemma_scaled_break(s, a, b, strict, 0);
    breakdown::lemma_first_break(a, strict, 0);
    breakdown::lemma_first_break(b, strict, 0);
    let k = outcome::first_break(a, strict, 0);
    assert forall|i: int| 0 <= i < k implies !T::is_zero_spec(
        #[trigger] outcome::pivot_at(a, i),
    ) by {
        assert(!outcome::breaks(a, strict, i));
    }
    lemma_scaled_collapses(s, a, b, k);
    lemma_scaled_graph(s, a, b);
    structure::law_pattern_fixes_the_counts(a, b, n);
    if k < n {
        lemma_scaled_column_verdict(s, a, b, strict, k);
        let root = T::root_spec(outcome::tolerance::<T>());
        let x = csc::scale(a, n);
        let y = csc::scale(b, n);
        assert((s.sized)(T::times_spec(root, x), T::times_spec(root, y)));
    } else {
        assert forall|i: int| 0 <= i < n - 1 implies !T::is_zero_spec(
            #[trigger] model::factors(a, n).pivots[i],
        ) by {
            assert(!T::is_zero_spec(outcome::pivot_at(a, i)));
        }
        lemma_scaled_factors(s, a, b, n);
    }
}

/// Multiplying right-hand sides by the constant commutes with the operations of the substitutions.
pub open spec fn is_linear<T: Scalar>(scaled: spec_fn(T, T) -> bool) -> bool {
    &&& forall|a: T, b: T, c: T, d: T|
        scaled(a, c) && scaled(b, d) ==> scaled(
            #[trigger] T::minus_spec(a, b),
            #[trigger] T::minus_spec(c, d),
        )
    &&& forall|l: T, a: T, c: T|
        scaled(a, c) ==> scaled(#[trigger] T::times_spec(l, a), #[trigger] T::times_spec(l, c))
    &&& forall|a: T, c: T, d: T|
        scaled(a, c) && !T::is_zero_spec(d) ==> scaled(
            #[trigger] T::over_spec(a, d),
            #[trigger] T::over_spec(c, d),
        )
}

proof fn lemma_scaled_forward<T: Scalar>(
    scaled: spec_fn(T, T) -> bool,
    f: model::Factors<T>,
    b: Seq<T>,
    c: Seq<T>,
    n: int,
    r: int,
    j: int,
)
    requires
        is_linear(scaled),
        forall|i: int| 0 <= i < n ==> scaled(#[trigger] b[i], c[i]),
        0 <= j <= r < n,
    ensures
        scaled(outcome::forward(f, b, r, j), outcome::forward(f, c, r, j)),
    decreases r, j,
{
    if j > 0 {
        lemma_scaled_forward(scaled, f, b, c, n, r, j - 1);
        lemma_scaled_forward(scaled, f, b, c, n, j - 1, j - 1);
        match (f.lower)(r, j - 1) {
            Some(l) => {
                let x = outcome::forward(f, b, j - 1, j - 1);
                let y = outcome::forward(f, c, j - 1, j - 1);
                assert(scaled(T::times_spec(l, x), T::times_spec(l, y)));
            },
            None => {},
        }
    } else {
        assert(scaled(b[r], c[r]));
    }
}

proof fn lemma_scaled_backward<T: Scalar>(
    scaled: spec_fn(T, T) -> bool,
    f: model::Factors<T>,
    w: Seq<T>,
    v: Seq<T>,
    j: int,
    r: int,
)
    requires
        is_linear(scaled),
        w.len() == v.len(),
        forall|i: int| 0 <= i < w.len() ==> scaled(#[trigger] w[i], v[i]),
        0 <= j < w.len(),
    ensures
        scaled(outcome::backward(f, w, j, r), outcome::backward(f, v, j, r)),
    decreases w.len() - j, r - j,
{
    if r <= j + 1 || r > w.len() {
        assert(scaled(w[j], v[j]));
    } else {
        lemma_scaled_backward(scaled, f, w, v, j, r - 1);
        lemma_scaled_backward(scaled, f, w, v, r - 1, w.len() as int);
        match (f.lower)(r - 1, j) {
            Some(l) => {
                let x = outcome::backward(f, w, r - 1, w.len() as int);
                let y = outcome::backward(f, v, r - 1, w.len() as int);
                assert(scaled(T::times_spec(l, x), T::times_spec(l, y)));
            },
            None => {},
        }
    }
}

/// Scaling a right-hand side by a constant that commutes with the operations scales the solution,
/// rounding and all.
pub proof fn law_scaling_commutes_with_solving<T: Scalar>(
    scaled: spec_fn(T, T) -> bool,
    f: outcome::Factorization<T>,
    b: Seq<T>,
    c: Seq<T>,
)
    requires
        is_linear(scaled),
        ordering::is_permutation(f.factors.pivots.len() as int, f.order),
        forall|k: int|
            0 <= k < f.factors.pivots.len() ==> !T::is_zero_spec(#[trigger] f.factors.pivots[k]),
        b.len() == f.factors.pivots.len(),
        c.len() == f.factors.pivots.len(),
        forall|i: int| 0 <= i < b.len() ==> scaled(#[trigger] b[i], c[i]),
    ensures
        outcome::solution(f, c).len() == outcome::solution(f, b).len(),
        forall|i: int|
            0 <= i < b.len() ==> scaled(
                #[trigger] outcome::solution(f, b)[i],
                outcome::solution(f, c)[i],
            ),
{
    let h = f.factors;
    let n = h.pivots.len() as int;
    let b1 = Seq::new(n as nat, |k: int| b[f.order[k]]);
    let c1 = Seq::new(n as nat, |k: int| c[f.order[k]]);
    assert forall|k: int| 0 <= k < n implies scaled(#[trigger] b1[k], c1[k]) by {
        assert(f.order.contains(f.order[k]));
        assert(scaled(b[f.order[k]], c[f.order[k]]));
    }
    let w = Seq::new(n as nat, |k: int| T::over_spec(outcome::forward(h, b1, k, k), h.pivots[k]));
    let v = Seq::new(n as nat, |k: int| T::over_spec(outcome::forward(h, c1, k, k), h.pivots[k]));
    assert forall|k: int| 0 <= k < n implies scaled(#[trigger] w[k], v[k]) by {
        lemma_scaled_forward(scaled, h, b1, c1, n, k, k);
        assert(!T::is_zero_spec(h.pivots[k]));
    }
    assert forall|i: int| 0 <= i < n implies scaled(
        #[trigger] outcome::solution(f, b)[i],
        outcome::solution(f, c)[i],
    ) by {
        assert(f.order.contains(i));
        lemma_scaled_backward(scaled, h, w, v, f.order.index_of(i), n);
    }
}

} // verus!
