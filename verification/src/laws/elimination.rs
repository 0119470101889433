//! What the results have to do with the stored numbers, for every number type.
//!
//! The laws of this module tie the verdict on a matrix to its stored entries by what must hold
//! between them: each entry of `L` and each pivot is a stored sum from which one product has been
//! subtracted for each node of its row, and a verdict is given for what the pivots are. They hold
//! of number types that round just as of exact ones.
use vstd::prelude::*;

use crate::csc;
use crate::error::Fault;
use crate::graph;
use crate::laws::breakdown;
use crate::model;
use crate::outcome;
use crate::scalar::Scalar;

verus! {

/// Standing in row `j`.
pub open spec fn in_row<T>(j: int) -> spec_fn((int, T)) -> bool {
    |e: (int, T)| e.0 == j
}

/// Adding the value of an entry.
pub open spec fn plus_entry<T: Scalar>() -> spec_fn(T, (int, T)) -> T {
    |sum: T, e: (int, T)| T::plus_spec(sum, e.1)
}

/// The entries of row `j`, added up from zero in the order in which the column stores them.
pub open spec fn stored_total<T: Scalar>(col: Seq<(int, T)>, j: int) -> T {
    col.filter(in_row(j)).fold_left(T::of_u64_spec(0), plus_entry())
}

/// `start` less the products of the coefficients with the values, each of which is subtracted once.
pub open spec fn less_products<T: Scalar>(start: T, products: Seq<(T, T)>) -> T {
    products.fold_left(start, |rest: T, p: (T, T)| T::minus_spec(rest, T::times_spec(p.0, p.1)))
}

/// The entries of row `r` of `L` that belong to the first `t` of the nodes, each with the value
/// that belongs to its node.
pub open spec fn row_products<T>(
    lower: spec_fn(int, int) -> Option<T>,
    r: int,
    nodes: Seq<int>,
    y: Seq<T>,
    t: int,
) -> Seq<(T, T)> {
    Seq::new(t as nat, |s: int| s).filter(|s: int| lower(r, nodes[s]) is Some).map_values(
        |s: int| (lower(r, nodes[s])->Some_0, y[s]),
    )
}

/// `nodes` lists the columns in which row `k` of `L` has an entry, each once, and none before one
/// whose product it needs. Every row that column `k` of the matrix stores is among them, and every
/// row below `k` of a column that is.
pub open spec fn is_row_listing<T>(
    col: Seq<(int, T)>,
    lower: spec_fn(int, int) -> Option<T>,
    k: int,
    nodes: Seq<int>,
) -> bool {
    &&& nodes.no_duplicates()
    &&& forall|i: int| #[trigger] nodes.contains(i) <==> 0 <= i < k && lower(k, i) is Some
    &&& forall|t: int|
        0 <= t < col.len() && (#[trigger] col[t]).0 < k ==> nodes.contains(col[t].0)
    &&& forall|s: int, t: int|
        0 <= s < nodes.len() && 0 <= t < nodes.len() && #[trigger] lower(
            nodes[t],
            nodes[s],
        ) is Some ==> s < t
    &&& forall|s: int, j: int|
        0 <= s < nodes.len() && j < k && #[trigger] lower(j, nodes[s]) is Some ==> nodes.contains(j)
}

/// What row `k` of the factors has to do with column `k` of the matrix: with `y` the solution of
/// the triangular system that the column poses, `L[k, i] = y[i] / D[i]`, and `D[k]` is the diagonal
/// entry less each of the products `L[k, i] * y[i]`.
pub open spec fn is_row<T: Scalar>(
    col: Seq<(int, T)>,
    f: model::Factors<T>,
    k: int,
    nodes: Seq<int>,
    y: Seq<T>,
) -> bool {
    &&& is_row_listing(col, f.lower, k, nodes)
    &&& y.len() == nodes.len()
    &&& forall|t: int|
        0 <= t < nodes.len() ==> {
            &&& #[trigger] y[t] == less_products(
                stored_total(col, nodes[t]),
                row_products(f.lower, nodes[t], nodes, y, t),
            )
            &&& (f.lower)(k, nodes[t]) == Some(T::over_spec(y[t], f.pivots[nodes[t]]))
        }
    &&& f.pivots[k] == less_products(
        stored_total(col, k),
        Seq::new(nodes.len(), |t: int| ((f.lower)(k, nodes[t])->Some_0, y[t])),
    )
}

/// Row `k` of the factors is what column `k` of the matrix gives.
pub open spec fn follows<T: Scalar>(col: Seq<(int, T)>, f: model::Factors<T>, k: int) -> bool {
    exists|nodes: Seq<int>, y: Seq<T>| #[trigger] is_row(col, f, k, nodes, y)
}

/// The first `m` rows of the factors are what the first `m` columns of the matrix give, and there
/// is nothing else in `L`.
pub open spec fn rows_follow<T: Scalar>(
    a: Seq<Seq<(int, T)>>,
    f: model::Factors<T>,
    m: int,
) -> bool {
    &&& f.pivots.len() == m
    &&& forall|r: int, i: int| #[trigger] (f.lower)(r, i) is Some ==> 0 <= i < r < m
    &&& forall|k: int| 0 <= k < m ==> follows(#[trigger] a[k], f, k)
}

pub proof fn lemma_stored_total<T: Scalar>(col: Seq<(int, T)>, j: int)
    ensures
        csc::entry(col, j) == stored_total(col, j),
        csc::values_at(col, j).len() == col.filter(in_row(j)).len(),
        forall|t: int|
            0 <= t < csc::values_at(col, j).len() ==> #[trigger] csc::values_at(col, j)[t]
                == col.filter(in_row(j))[t].1,
    decreases col.len(),
{
    reveal(Seq::filter);
    let p = in_row::<T>(j);
    let step = plus_entry::<T>();
    if col.len() > 0 {
        let init = col.drop_last();
        lemma_stored_total(init, j);
        let vs = csc::values_at(col, j);
        let es = col.filter(p);
        if col.last().0 == j {
            assert(vs.drop_last() =~= csc::values_at(init, j));
            assert(es.drop_last() =~= init.filter(p));
            assert(es.fold_left(T::of_u64_spec(0), step) == step(
                init.filter(p).fold_left(T::of_u64_spec(0), step),
                col.last(),
            ));
        }
    }
}

pub proof fn lemma_row_products<T: Scalar>(
    lower: spec_fn(int, int) -> Option<T>,
    r: int,
    nodes: Seq<int>,
    y: Seq<T>,
    t: int,
)
    requires
        0 < t,
    ensures
        row_products(lower, r, nodes, y, t) == match lower(r, nodes[t - 1]) {
            Some(l) => row_products(lower, r, nodes, y, t - 1).push((l, y[t - 1])),
            None => row_products(lower, r, nodes, y, t - 1),
        },
{
    reveal(Seq::filter);
    let p = |s: int| lower(r, nodes[s]) is Some;
    let pair = |s: int| (lower(r, nodes[s])->Some_0, y[s]);
    let all = Seq::new(t as nat, |s: int| s);
    let init = Seq::new((t - 1) as nat, |s: int| s);
    assert(all.drop_last() =~= init);
    assert(all.last() == t - 1);
    if p(t - 1) {
        assert(all.filter(p) == init.filter(p).push(t - 1));
        assert(all.filter(p).map_values(pair) =~= init.filter(p).map_values(pair).push(
            pair(t - 1),
        ));
    } else {
        assert(all.filter(p) == init.filter(p));
    }
}

pub proof fn lemma_less_products_push<T: Scalar>(start: T, ps: Seq<(T, T)>, p: (T, T))
    ensures
        less_products(start, ps.push(p)) == T::minus_spec(
            less_products(start, ps),
            T::times_spec(p.0, p.1),
        ),
{
    assert(ps.push(p).drop_last() =~= ps);
}

proof fn lemma_gather<T: Scalar>(
    f: model::Factors<T>,
    lower: spec_fn(int, int) -> Option<T>,
    col: Seq<(int, T)>,
    pat: Seq<int>,
    y: Seq<T>,
    j: int,
    t: int,
)
    requires
        0 <= t <= pat.len(),
        forall|s: int| 0 <= s < t ==> (f.lower)(j, #[trigger] pat[s]) == lower(j, pat[s]),
    ensures
        model::gather(f, col, pat, y, j, t) == less_products(
            stored_total(col, j),
            row_products(lower, j, pat, y, t),
        ),
    decreases t,
{
    if t == 0 {
        lemma_stored_total(col, j);
        assert(row_products(lower, j, pat, y, 0).len() == 0) by {
            reveal(Seq::filter);
            assert(Seq::new(0 as nat, |s: int| s).len() == 0);
        }
    } else {
        lemma_gather(f, lower, col, pat, y, j, t - 1);
        lemma_row_products(lower, j, pat, y, t);
        assert((f.lower)(j, pat[t - 1]) == lower(j, pat[t - 1]));
        match lower(j, pat[t - 1]) {
            Some(l) => {
                lemma_less_products_push(
                    stored_total(col, j),
                    row_products(lower, j, pat, y, t - 1),
                    (l, y[t - 1]),
                );
            },
            None => {},
        }
    }
}

proof fn lemma_pivot<T: Scalar>(
    f: model::Factors<T>,
    h: model::Factors<T>,
    col: Seq<(int, T)>,
    pat: Seq<int>,
    y: Seq<T>,
    k: int,
    t: int,
)
    requires
        0 <= t <= pat.len(),
        forall|s: int|
            0 <= s < t ==> (h.lower)(k, #[trigger] pat[s]) == Some(
                T::over_spec(y[s], f.pivots[pat[s]]),
            ),
    ensures
        model::pivot(f, col, pat, y, k, t) == less_products(
            stored_total(col, k),
            Seq::new(t as nat, |s: int| ((h.lower)(k, pat[s])->Some_0, y[s])),
        ),
    decreases t,
{
    let ps = Seq::new(t as nat, |s: int| ((h.lower)(k, pat[s])->Some_0, y[s]));
    if t == 0 {
        lemma_stored_total(col, k);
        assert(ps.len() == 0);
    } else {
        lemma_pivot(f, h, col, pat, y, k, t - 1);
        let init = Seq::new((t - 1) as nat, |s: int| ((h.lower)(k, pat[s])->Some_0, y[s]));
        let l = T::over_spec(y[t - 1], f.pivots[pat[t - 1]]);
        assert((h.lower)(k, pat[t - 1]) == Some(l));
        assert(ps =~= init.push((l, y[t - 1])));
        lemma_less_products_push(stored_total(col, k), init, (l, y[t - 1]));
    }
}

/// The rows of the factors follow from the columns of the matrix, one by one: every pivot is the
/// stored diagonal entry from which one product has been subtracted for each entry of its row of
/// `L`, and every entry of `L` is the quotient of such a difference and a pivot.
pub proof fn law_rows_follow_from_the_columns<T: Scalar>(a: Seq<Seq<(int, T)>>, m: int)
    requires
        csc::is_upper(a),
        0 <= m <= a.len(),
    ensures
        rows_follow(a, model::factors(a, m), m),
{
    let n = a.len() as int;
    let g = csc::graph_of(a);
    let h = model::factors(a, m);
    model::lemma_factors_shape(a, m);
    csc::lemma_graph_of(a);
    assert forall|r: int, i: int| #[trigger] (h.lower)(r, i) is Some implies 0 <= i < r < m by {
        graph::lemma_fills_bounds(n, g, i, r);
    }
    assert forall|k: int| 0 <= k < m implies follows(#[trigger] a[k], h, k) by {
        let f = model::factors(a, k);
        let h1 = model::factors(a, k + 1);
        let col = a[k];
        let pat = model::row_order(a, k);
        let len = pat.len() as int;
        let y = model::work(f, col, pat, len);
        model::lemma_factors_shape(a, k);
        model::lemma_factors_extend(a, k, m);
        model::lemma_factors_extend(a, k + 1, m);
        model::lemma_row_order(a, k);
        model::lemma_work(f, col, pat, len);
        assert(h1 == model::next_row(f, k, col, pat));
        assert forall|t: int| 0 <= t < len implies 0 <= #[trigger] pat[t] < k && (h.lower)(
            k,
            pat[t],
        ) == Some(T::over_spec(y[t], f.pivots[pat[t]])) && h.pivots[pat[t]]
            == f.pivots[pat[t]] by {
            graph::lemma_fills_bounds(n, g, pat[t], k);
            assert(pat.contains(pat[t]));
            assert(pat.index_of(pat[t]) == t);
            assert((h.lower)(k, pat[t]) == (h1.lower)(k, pat[t]));
        }
        assert(is_row_listing(col, h.lower, k, pat)) by {
            assert forall|i: int| #[trigger] pat.contains(i) <==> 0 <= i < k && (h.lower)(
                k,
                i,
            ) is Some by {
                if graph::fills(g, i, k) {
                    graph::lemma_fills_bounds(n, g, i, k);
                }
            }
            assert forall|t: int| 0 <= t < col.len() && (#[trigger] col[t]).0 < k implies pat.contains(
                col[t].0,
            ) by {
                model::lemma_is_column_of(a, k);
                graph::lemma_fills(n, g, col[t].0, k);
            }
            assert forall|s: int, j: int| 0 <= s < len && j < k && #[trigger] (h.lower)(
                j,
                pat[s],
            ) is Some implies pat.contains(j) by {
                let u = model::lemma_row_order_ascends(n, g, k, pat, s, j);
                assert(pat[u] == j);
            }
            assert forall|s: int, t: int| 0 <= s < len && 0 <= t < len && #[trigger] (h.lower)(
                pat[t],
                pat[s],
            ) is Some implies s < t by {
                let u = model::lemma_row_order_ascends(n, g, k, pat, s, pat[t]);
                assert(pat[u] == pat[t]);
            }
        }
        assert forall|t: int| 0 <= t < len implies #[trigger] y[t] == less_products(
            stored_total(col, pat[t]),
            row_products(h.lower, pat[t], pat, y, t),
        ) by {
            assert forall|s: int| 0 <= s < t implies (f.lower)(pat[t], #[trigger] pat[s]) == (
            h.lower)(pat[t], pat[s]) by {
                assert((h.lower)(pat[t], pat[s]) == (f.lower)(pat[t], pat[s]));
            }
            lemma_gather(f, h.lower, col, pat, y, pat[t], t);
        }
        lemma_pivot(f, h, col, pat, y, k, len);
        assert(h.pivots[k] == h1.pivots[k]);
        assert(Seq::new(pat.len(), |t: int| ((h.lower)(k, pat[t])->Some_0, y[t])) =~= Seq::new(
            len as nat,
            |s: int| ((h.lower)(k, pat[s])->Some_0, y[s]),
        ));
        assert(is_row(col, h, k, pat, y));
    }
}

/// The largest magnitude on the diagonal.
pub open spec fn diagonal_magnitude<T: Scalar>(a: Seq<Seq<(int, T)>>) -> T {
    Seq::new(a.len(), |k: int| T::magnitude_spec(stored_total(a[k], k))).fold_left(
        T::of_u64_spec(0),
        |m: T, x: T| T::larger_spec(m, x),
    )
}

proof fn lemma_diagonal_magnitude<T: Scalar>(a: Seq<Seq<(int, T)>>, k: int)
    requires
        0 <= k <= a.len(),
    ensures
        csc::scale(a, k) == Seq::new(
            k as nat,
            |i: int| T::magnitude_spec(stored_total(a[i], i)),
        ).fold_left(T::of_u64_spec(0), |m: T, x: T| T::larger_spec(m, x)),
    decreases k,
{
    let all = Seq::new(k as nat, |i: int| T::magnitude_spec(stored_total(a[i], i)));
    if k > 0 {
        lemma_diagonal_magnitude(a, k - 1);
        lemma_stored_total(a[k - 1], k - 1);
        assert(all.drop_last() =~= Seq::new(
            (k - 1) as nat,
            |i: int| T::magnitude_spec(stored_total(a[i], i)),
        ));
    } else {
        assert(all.len() == 0);
    }
}

/// The relative magnitude below which a pivot is destroyed, against a diagonal of the given
/// magnitude: one ten-trillionth of it.
pub open spec fn threshold<T: Scalar>(magnitude: T) -> T {
    T::times_spec(
        T::over_spec(T::of_u64_spec(1), T::of_u64_spec(10_000_000_000_000)),
        magnitude,
    )
}

/// The pivot `d` is destroyed, against a diagonal of the given magnitude.
pub open spec fn is_destroyed<T: Scalar>(d: T, magnitude: T) -> bool {
    &&& !T::is_zero_spec(d)
    &&& T::less_spec(T::of_u64_spec(0), magnitude)
    &&& T::less_spec(T::magnitude_spec(d), threshold(magnitude))
}

/// The elimination may go on past the pivot `d`.
pub open spec fn may_go_on<T: Scalar>(d: T, magnitude: T, strict: bool) -> bool {
    &&& !T::is_zero_spec(d)
    &&& strict ==> T::is_finite_spec(d) && !is_destroyed(d, magnitude)
}

/// The shift by which a matrix with a diagonal of the given magnitude is moved first: the square
/// root of one ten-trillionth, times the magnitude.
pub open spec fn starting_shift<T: Scalar>(magnitude: T) -> T {
    T::times_spec(
        T::root_spec(T::over_spec(T::of_u64_spec(1), T::of_u64_spec(10_000_000_000_000))),
        magnitude,
    )
}

/// `f` is what eliminating the whole matrix gives, and nothing stopped the elimination.
pub open spec fn is_success<T: Scalar>(
    a: Seq<Seq<(int, T)>>,
    strict: bool,
    f: model::Factors<T>,
) -> bool {
    &&& rows_follow(a, f, a.len() as int)
    &&& forall|k: int|
        0 <= k < a.len() ==> may_go_on(#[trigger] f.pivots[k], diagonal_magnitude(a), strict)
}

/// `fault` is given for the first pivot at which the elimination had to stop, `f` being the rows
/// up to it.
pub open spec fn is_failure<T: Scalar>(
    a: Seq<Seq<(int, T)>>,
    strict: bool,
    fault: Fault<T>,
    f: model::Factors<T>,
) -> bool {
    let k = f.pivots.len() - 1;
    let d = f.pivots[k];
    let magnitude = diagonal_magnitude(a);
    &&& 0 <= k < a.len()
    &&& rows_follow(a, f, k + 1)
    &&& forall|i: int| 0 <= i < k ==> may_go_on(#[trigger] f.pivots[i], magnitude, strict)
    &&& !may_go_on(d, magnitude, strict)
    &&& if T::is_zero_spec(d) || !T::is_finite_spec(d) {
        fault == Fault::<T>::ZeroPivot(k)
    } else {
        fault == (Fault::NearZeroPivot {
            column: k,
            pivot: d,
            scale: magnitude,
            suggested_shift: starting_shift(magnitude),
        })
    }
}

/// The verdict on a matrix, as far as factors and failures go.
pub open spec fn is_verdict<T: Scalar>(
    a: Seq<Seq<(int, T)>>,
    strict: bool,
    r: Result<outcome::Factorization<T>, Fault<T>>,
) -> bool {
    match r {
        Ok(f) => is_success(a, strict, f.factors),
        Err(fault) => exists|f: model::Factors<T>| is_failure(a, strict, fault, f),
    }
}

pub proof fn lemma_may_go_on<T: Scalar>(a: Seq<Seq<(int, T)>>, strict: bool, k: int)
    ensures
        outcome::breaks(a, strict, k) == !may_go_on(
            outcome::pivot_at(a, k),
            diagonal_magnitude(a),
            strict,
        ),
        csc::scale(a, a.len() as int) == diagonal_magnitude(a),
        outcome::collapses(a, k) == is_destroyed(outcome::pivot_at(a, k), diagonal_magnitude(a)),
{
    lemma_diagonal_magnitude(a, a.len() as int);
    assert(Seq::new(a.len(), |k: int| T::magnitude_spec(stored_total(a[k], k))) =~= Seq::new(
        a.len() as int as nat,
        |i: int| T::magnitude_spec(stored_total(a[i], i)),
    ));
}

proof fn lemma_success<T: Scalar>(a: Seq<Seq<(int, T)>>, strict: bool)
    ensures
        outcome::factored(a, strict) is Ok <==> forall|k: int|
            0 <= k < a.len() ==> may_go_on(
                #[trigger] model::factors(a, a.len() as int).pivots[k],
                diagonal_magnitude(a),
                strict,
            ),
{
    let n = a.len() as int;
    let k = outcome::first_break(a, strict, 0);
    let all = model::factors(a, n);
    breakdown::lemma_first_break(a, strict, 0);
    assert forall|i: int| 0 <= i < n implies outcome::breaks(a, strict, i) == !may_go_on(
        #[trigger] all.pivots[i],
        diagonal_magnitude(a),
        strict,
    ) by {
        lemma_may_go_on(a, strict, i);
    }
    if k < n {
        assert(!may_go_on(all.pivots[k], diagonal_magnitude(a), strict));
    } else {
        assert forall|i: int| 0 <= i < n implies may_go_on(
            #[trigger] all.pivots[i],
            diagonal_magnitude(a),
            strict,
        ) by {
            assert(!outcome::breaks(a, strict, i));
        }
    }
}

/// A verdict is given for what the pivots are. Where factoring succeeds, the factors follow from
/// the stored entries, no pivot is zero, and, where collapsed pivots stop it, each is finite and at
/// least one ten-trillionth of the largest diagonal magnitude. Where it fails, the rows before the
/// reported column follow and are sound, and the pivot of that column is what the failure says.
pub proof fn law_verdict_is_given_for_the_pivots<T: Scalar>(a: Seq<Seq<(int, T)>>, strict: bool)
    requires
        csc::is_upper(a),
    ensures
        is_verdict(a, strict, outcome::factored(a, strict)),
        outcome::factored(a, strict) matches Ok(f) ==> f.order == Seq::new(a.len(), |i: int| i)
            && f.shift == T::of_u64_spec(0),
        outcome::factored(a, true) is Ok <==> forall|k: int|
            0 <= k < a.len() ==> {
                let d = #[trigger] model::factors(a, a.len() as int).pivots[k];
                let m = diagonal_magnitude(a);
                &&& T::is_finite_spec(d)
                &&& !T::is_zero_spec(d)
                &&& !(T::less_spec(T::of_u64_spec(0), m) && T::less_spec(
                    T::magnitude_spec(d),
                    T::times_spec(
                        T::over_spec(T::of_u64_spec(1), T::of_u64_spec(10_000_000_000_000)),
                        m,
                    ),
                ))
            },
        outcome::factored(a, false) is Ok <==> forall|k: int|
            0 <= k < a.len() ==> !T::is_zero_spec(
                #[trigger] model::factors(a, a.len() as int).pivots[k],
            ),
{
    lemma_success(a, true);
    lemma_success(a, false);
    let n = a.len() as int;
    let k = outcome::first_break(a, strict, 0);
    let all = model::factors(a, n);
    breakdown::lemma_first_break(a, strict, 0);
    law_rows_follow_from_the_columns(a, n);
    lemma_may_go_on(a, strict, 0);
    assert forall|i: int| 0 <= i < n implies outcome::breaks(a, strict, i) == !may_go_on(
        #[trigger] all.pivots[i],
        diagonal_magnitude(a),
        strict,
    ) by {
        lemma_may_go_on(a, strict, i);
    }
    if k < n {
        let f = model::factors(a, k + 1);
        law_rows_follow_from_the_columns(a, k + 1);
        model::lemma_factors_extend(a, k + 1, n);
        assert forall|i: int| 0 <= i < k implies may_go_on(
            #[trigger] f.pivots[i],
            diagonal_magnitude(a),
            strict,
        ) by {
            assert(!outcome::breaks(a, strict, i));
            assert(all.pivots[i] == f.pivots[i]);
        }
        assert(all.pivots[k] == f.pivots[k]);
        assert(!may_go_on(all.pivots[k], diagonal_magnitude(a), strict));
        assert(is_failure(a, strict, outcome::fault_at(a, k), f));
    } else {
        assert forall|i: int| 0 <= i < n implies may_go_on(
            #[trigger] all.pivots[i],
            diagonal_magnitude(a),
            strict,
        ) by {
            assert(!outcome::breaks(a, strict, i));
        }
        assert(outcome::identity(n) =~= Seq::new(a.len(), |i: int| i));
    }
}

/// The reported columns are those whose own pivots are destroyed, each of them, ascending: a pivot
/// that is not zero but below one ten-trillionth of the largest diagonal magnitude.
pub proof fn law_reported_columns_have_destroyed_pivots<T: Scalar>(
    a: Seq<Seq<(int, T)>>,
    k: int,
)
    requires
        csc::is_upper(a),
        0 <= k <= a.len(),
    ensures
        forall|i: int| #[trigger]
            outcome::collapsed_columns(a, k).contains(i) <==> {
                let d = model::factors(a, a.len() as int).pivots[i];
                let m = diagonal_magnitude(a);
                &&& 0 <= i < k
                &&& !T::is_zero_spec(d)
                &&& T::less_spec(T::of_u64_spec(0), m)
                &&& T::less_spec(
                    T::magnitude_spec(d),
                    T::times_spec(
                        T::over_spec(T::of_u64_spec(1), T::of_u64_spec(10_000_000_000_000)),
                        m,
                    ),
                )
            },
        forall|s: int, t: int|
            0 <= s < t < outcome::collapsed_columns(a, k).len()
                ==> #[trigger] outcome::collapsed_columns(a, k)[s]
                < #[trigger] outcome::collapsed_columns(a, k)[t],
{
    breakdown::law_collapsed_columns_are_all_of_them(a, k);
    let columns = outcome::collapsed_columns(a, k);
    assert forall|i: int| #[trigger] columns.contains(i) <==> 0 <= i < k && is_destroyed(
        model::factors(a, a.len() as int).pivots[i],
        diagonal_magnitude(a),
    ) by {
        lemma_may_go_on(a, false, i);
    }
}

/// The relative tolerance is one ten-trillionth.
pub proof fn law_tolerance_is_one_ten_trillionth<T: Scalar>()
    ensures
        outcome::tolerance::<T>() == T::over_spec(
            T::of_u64_spec(1),
            T::of_u64_spec(10_000_000_000_000),
        ),
{
}

} // verus!
