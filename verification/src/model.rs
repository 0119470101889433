//! What the factorization computes.
//!
//! Row `k` of `L` and the pivot `D[k]` follow from the rows before them. Let `y` be the solution of
//! the triangular system that column `k` of the matrix poses to the leading block of `L`: then
//! `L[k, i]` is `y[i] / D[i]`, and `D[k]` is the diagonal entry less all the `L[k, i] * y[i]`. Only
//! the nodes of the row ([`crate::graph::fills`]) take part, in the order in which the elimination
//! tree is climbed ([`reach`]); the order matters to a scalar type that rounds.
use vstd::prelude::*;

use crate::csc;
use crate::graph;
use crate::scalar::Scalar;

verus! {

/// A factorization: the entries of `L` below its unit diagonal, and the diagonal of `D`.
pub struct Factors<T> {
    /// The entry of `L` in the given row and column, where there is one.
    pub lower: spec_fn(int, int) -> Option<T>,
    /// The pivots.
    pub pivots: Seq<T>,
}

/// The nodes from `i` up the elimination tree, as far as they are below `k` and not in `seen`.
pub open spec fn path(n: int, g: graph::Graph, k: int, i: int, seen: Seq<int>) -> Seq<int>
    decreases
            if i < k {
                k - i
            } else {
                0
            },
{
    if !(0 <= i < k <= n) || seen.contains(i) {
        Seq::empty()
    } else {
        proof {
            graph::lemma_parent(n, g, i);
        }
        seq![i] + path(n, g, k, graph::parent(n, g, i), seen)
    }
}

/// The nodes of row `k` of `L`, descendants before ancestors: the paths from the rows that column
/// `k` stores, each put before the paths of the entries that are stored earlier.
pub open spec fn reach<T>(n: int, g: graph::Graph, k: int, col: Seq<(int, T)>) -> Seq<int>
    decreases col.len(),
{
    if col.len() == 0 {
        Seq::empty()
    } else {
        let rest = reach(n, g, k, col.drop_last());
        path(n, g, k, col.last().0, rest) + rest
    }
}

/// The entry of the column in row `j`, less the products of row `j` of `L` with the first `t`
/// values of the solution, which belong to the nodes `pat`.
pub open spec fn gather<T: Scalar>(
    f: Factors<T>,
    col: Seq<(int, T)>,
    pat: Seq<int>,
    y: Seq<T>,
    j: int,
    t: int,
) -> T
    decreases t,
{
    if t <= 0 {
        csc::entry(col, j)
    } else {
        let rest = gather(f, col, pat, y, j, t - 1);
        match (f.lower)(j, pat[t - 1]) {
            Some(l) => T::minus_spec(rest, T::times_spec(l, y[t - 1])),
            None => rest,
        }
    }
}

/// The solution of the triangular system for the first `t` nodes of `pat`.
pub open spec fn work<T: Scalar>(
    f: Factors<T>,
    col: Seq<(int, T)>,
    pat: Seq<int>,
    t: int,
) -> Seq<T>
    decreases t,
{
    if t <= 0 {
        Seq::empty()
    } else {
        let y = work(f, col, pat, t - 1);
        y.push(gather(f, col, pat, y, pat[t - 1], t - 1))
    }
}

/// The diagonal entry less the first `t` products of the row of `L` with the solution.
pub open spec fn pivot<T: Scalar>(
    f: Factors<T>,
    col: Seq<(int, T)>,
    pat: Seq<int>,
    y: Seq<T>,
    k: int,
    t: int,
) -> T
    decreases t,
{
    if t <= 0 {
        csc::entry(col, k)
    } else {
        T::minus_spec(
            pivot(f, col, pat, y, k, t - 1),
            T::times_spec(T::over_spec(y[t - 1], f.pivots[pat[t - 1]]), y[t - 1]),
        )
    }
}

/// The factors with the row `k` that column `k` of the matrix gives.
pub open spec fn next_row<T: Scalar>(
    f: Factors<T>,
    k: int,
    col: Seq<(int, T)>,
    pat: Seq<int>,
) -> Factors<T> {
    let y = work(f, col, pat, pat.len() as int);
    Factors {
        lower: |r: int, i: int|
            if r == k {
                if pat.contains(i) {
                    Some(T::over_spec(y[pat.index_of(i)], f.pivots[i]))
                } else {
                    None
                }
            } else {
                (f.lower)(r, i)
            },
        pivots: f.pivots.push(pivot(f, col, pat, y, k, pat.len() as int)),
    }
}

/// The first `k` rows of the factors of the matrix `a`.
pub open spec fn factors<T: Scalar>(a: Seq<Seq<(int, T)>>, k: int) -> Factors<T>
    decreases k,
{
    if k <= 0 {
        Factors { lower: |r: int, i: int| None, pivots: Seq::empty() }
    } else {
        next_row(
            factors(a, k - 1),
            k - 1,
            a[k - 1],
            reach(a.len() as int, csc::graph_of(a), k - 1, a[k - 1]),
        )
    }
}

/// What makes `pat` an elimination order of row `k`: each node of the row once, and before its
/// parent.
pub open spec fn is_row_order(n: int, g: graph::Graph, k: int, pat: Seq<int>) -> bool {
    &&& pat.no_duplicates()
    &&& forall|t: int| 0 <= t < pat.len() ==> graph::fills(g, #[trigger] pat[t], k)
    &&& forall|t: int|
        0 <= t < pat.len() && graph::parent(n, g, #[trigger] pat[t]) < k ==> exists|s: int|
            t < s < pat.len() && #[trigger] pat[s] == graph::parent(n, g, pat[t])
}

pub proof fn lemma_path(n: int, g: graph::Graph, k: int, i: int, seen: Seq<int>)
    requires
        graph::is_graph(n, g),
        0 <= i <= k < n,
        i < k ==> graph::fills(g, i, k),
        is_row_order(n, g, k, seen),
    ensures
        is_row_order(n, g, k, path(n, g, k, i, seen) + seen),
        i < k ==> (path(n, g, k, i, seen) + seen).contains(i),
        forall|t: int|
            0 <= t < path(n, g, k, i, seen).len() ==> #[trigger] path(n, g, k, i, seen)[t] >= i,
    decreases k - i,
{
    let p = path(n, g, k, i, seen);
    if i == k || seen.contains(i) {
        assert(p + seen =~= seen);
    } else {
        graph::lemma_parent_fills(n, g, i, k);
        let q = graph::parent(n, g, i);
        lemma_path(n, g, k, q, seen);
        let rest = path(n, g, k, q, seen);
        let s = rest + seen;
        assert(p + seen =~= seq![i] + s);
        let w = seq![i] + s;
        assert forall|t: int| 0 <= t < rest.len() implies rest[t] != i by {
            assert(rest[t] >= q);
        }
        assert(!s.contains(i)) by {
            if s.contains(i) {
                let t = choose|t: int| 0 <= t < s.len() && s[t] == i;
                if t < rest.len() {
                    assert(rest[t] == i);
                } else {
                    assert(seen[t - rest.len()] == i);
                }
            }
        }
        assert(w[0] == i);
        assert forall|t: int| 0 < t < w.len() implies w[t] == s[t - 1] by {}
        assert(w.no_duplicates()) by {
            assert forall|x: int, z: int| 0 <= x < w.len() && 0 <= z < w.len() && x != z implies w[x]
                != w[z] by {
                if x == 0 {
                    assert(s.contains(s[z - 1]));
                } else if z == 0 {
                    assert(s.contains(s[x - 1]));
                } else {
                    assert(w[x] == s[x - 1] && w[z] == s[z - 1]);
                }
            }
        }
        assert forall|t: int| 0 <= t < w.len() implies graph::fills(g, #[trigger] w[t], k) by {
            if t > 0 {
                assert(graph::fills(g, s[t - 1], k));
            }
        }
        assert forall|t: int|
            0 <= t < w.len() && graph::parent(n, g, #[trigger] w[t]) < k implies exists|x: int|
            t < x < w.len() && #[trigger] w[x] == graph::parent(n, g, w[t]) by {
            if t == 0 {
                let x = choose|x: int| 0 <= x < s.len() && s[x] == q;
                assert(s.contains(q));
                assert(w[x + 1] == q);
            } else {
                assert(w[t] == s[t - 1]);
                let x = choose|x: int|
                    t - 1 < x < s.len() && #[trigger] s[x] == graph::parent(n, g, s[t - 1]);
                assert(w[x + 1] == s[x]);
            }
        }
        assert forall|t: int| 0 <= t < p.len() implies #[trigger] p[t] >= i by {
            if t > 0 {
                assert(p[t] == rest[t - 1]);
            }
        }
        assert(w.contains(i));
    }
}

/// The rows of a column of the matrix: the diagonal and neighbours of its node.
pub open spec fn is_column_of<T>(g: graph::Graph, k: int, col: Seq<(int, T)>) -> bool {
    forall|t: int|
        0 <= t < col.len() ==> 0 <= (#[trigger] col[t]).0 <= k && (col[t].0 < k ==> g(col[t].0, k))
}

pub proof fn lemma_reach<T>(n: int, g: graph::Graph, k: int, col: Seq<(int, T)>)
    requires
        graph::is_graph(n, g),
        0 <= k < n,
        is_column_of(g, k, col),
    ensures
        is_row_order(n, g, k, reach(n, g, k, col)),
        forall|t: int|
            0 <= t < col.len() && (#[trigger] col[t]).0 < k ==> reach(n, g, k, col).contains(
                col[t].0,
            ),
    decreases col.len(),
{
    if col.len() > 0 {
        let init = col.drop_last();
        assert forall|t: int| 0 <= t < init.len() implies 0 <= (#[trigger] init[t]).0 <= k && (
        init[t].0 < k ==> g(init[t].0, k)) by {
            assert(init[t] == col[t]);
        }
        lemma_reach(n, g, k, init);
        let rest = reach(n, g, k, init);
        let i = col.last().0;
        assert(col[col.len() - 1].0 == i);
        if i < k {
            graph::lemma_fills(n, g, i, k);
        }
        lemma_path(n, g, k, i, rest);
        let p = path(n, g, k, i, rest);
        assert forall|t: int| 0 <= t < col.len() && (#[trigger] col[t]).0 < k implies (p
            + rest).contains(col[t].0) by {
            if t < init.len() {
                assert(init[t] == col[t]);
                let x = choose|x: int| 0 <= x < rest.len() && rest[x] == col[t].0;
                assert((p + rest)[x + p.len()] == col[t].0);
            }
        }
    }
}

pub proof fn lemma_is_column_of<T>(a: Seq<Seq<(int, T)>>, k: int)
    requires
        csc::is_upper(a),
        0 <= k < a.len(),
    ensures
        is_column_of(csc::graph_of(a), k, a[k]),
{
    assert forall|t: int| 0 <= t < a[k].len() implies 0 <= (#[trigger] a[k][t]).0 <= k && (
    a[k][t].0 < k ==> csc::graph_of(a)(a[k][t].0, k)) by {
        csc::lemma_values_at_nonempty(a[k], t);
    }
}

/// The nodes of row `k`, in the order in which they are eliminated.
pub open spec fn row_order<T>(a: Seq<Seq<(int, T)>>, k: int) -> Seq<int> {
    reach(a.len() as int, csc::graph_of(a), k, a[k])
}

/// The order of row `k` lists exactly the nodes of the row.
pub proof fn lemma_row_order<T>(a: Seq<Seq<(int, T)>>, k: int)
    requires
        csc::is_upper(a),
        0 <= k < a.len(),
    ensures
        graph::is_graph(a.len() as int, csc::graph_of(a)),
        is_row_order(a.len() as int, csc::graph_of(a), k, row_order(a, k)),
        forall|i: int| #[trigger]
            row_order(a, k).contains(i) <==> graph::fills(csc::graph_of(a), i, k),
{
    let n = a.len() as int;
    let g = csc::graph_of(a);
    let pat = row_order(a, k);
    csc::lemma_graph_of(a);
    lemma_is_column_of(a, k);
    lemma_reach(n, g, k, a[k]);
    assert forall|i: int| #[trigger] pat.contains(i) <==> graph::fills(g, i, k) by {
        if pat.contains(i) {
            let t = choose|t: int| 0 <= t < pat.len() && pat[t] == i;
            assert(graph::fills(g, pat[t], k));
        }
        if graph::fills(g, i, k) {
            let s = |j: int| pat.contains(j);
            assert forall|j: int| 0 <= j < k && #[trigger] g(j, k) implies s(j) by {
                lemma_values_at_row(a[k], j);
            }
            assert forall|j: int|
                0 <= j < k && #[trigger] s(j) && graph::fills(g, j, k) && graph::parent(n, g, j)
                    < k implies s(graph::parent(n, g, j)) by {
                let t = choose|t: int| 0 <= t < pat.len() && pat[t] == j;
                let x = choose|x: int|
                    t < x < pat.len() && #[trigger] pat[x] == graph::parent(n, g, pat[t]);
                assert(pat[x] == graph::parent(n, g, j));
            }
            graph::lemma_row_closure(n, g, k, s, i);
        }
    }
}

/// A column that stores a value in row `j` has an entry in that row.
pub proof fn lemma_values_at_row<T>(col: Seq<(int, T)>, j: int)
    requires
        csc::values_at(col, j).len() > 0,
    ensures
        exists|t: int| 0 <= t < col.len() && (#[trigger] col[t]).0 == j,
    decreases col.len(),
{
    if col.last().0 != j {
        lemma_values_at_row(col.drop_last(), j);
        let t = choose|t: int| 0 <= t < col.len() - 1 && (#[trigger] col.drop_last()[t]).0 == j;
        assert(col[t].0 == j);
    } else {
        assert(col[col.len() - 1].0 == j);
    }
}

/// In the order of row `k` a node comes before every row of its column that is below `k`.
pub proof fn lemma_row_order_ascends(
    n: int,
    g: graph::Graph,
    k: int,
    pat: Seq<int>,
    t: int,
    r: int,
) -> (s: int)
    requires
        graph::is_graph(n, g),
        is_row_order(n, g, k, pat),
        0 <= t < pat.len(),
        graph::fills(g, pat[t], r),
        r < k,
    ensures
        t < s < pat.len(),
        pat[s] == r,
    decreases r - pat[t],
{
    let i = pat[t];
    graph::lemma_parent_fills(n, g, i, r);
    let q = graph::parent(n, g, i);
    let s = choose|s: int| t < s < pat.len() && #[trigger] pat[s] == graph::parent(n, g, pat[t]);
    if q < r {
        lemma_row_order_ascends(n, g, k, pat, s, r)
    } else {
        s
    }
}

pub proof fn lemma_gather_same<T: Scalar>(
    f: Factors<T>,
    col: Seq<(int, T)>,
    pat: Seq<int>,
    y: Seq<T>,
    z: Seq<T>,
    j: int,
    t: int,
)
    requires
        forall|s: int| 0 <= s < t ==> #[trigger] y[s] == z[s],
    ensures
        gather(f, col, pat, y, j, t) == gather(f, col, pat, z, j, t),
    decreases t,
{
    if t > 0 {
        lemma_gather_same(f, col, pat, y, z, j, t - 1);
        assert(y[t - 1] == z[t - 1]);
    }
}

/// Each value of the solution is what its row gathers from the values before it.
pub proof fn lemma_work<T: Scalar>(f: Factors<T>, col: Seq<(int, T)>, pat: Seq<int>, t: int)
    requires
        0 <= t,
    ensures
        work(f, col, pat, t).len() == t,
        forall|s: int|
            0 <= s < t ==> #[trigger] work(f, col, pat, t)[s] == gather(
                f,
                col,
                pat,
                work(f, col, pat, t),
                pat[s],
                s,
            ),
    decreases t,
{
    if t > 0 {
        lemma_work(f, col, pat, t - 1);
        let y = work(f, col, pat, t - 1);
        let z = work(f, col, pat, t);
        assert forall|s: int| 0 <= s < t implies #[trigger] z[s] == gather(
            f,
            col,
            pat,
            z,
            pat[s],
            s,
        ) by {
            if s < t - 1 {
                assert(z[s] == y[s]);
            }
            lemma_gather_same(f, col, pat, y, z, pat[s], s);
        }
    }
}

/// The shape of the factors: one pivot for each row, and an entry of `L` wherever the elimination
/// graph has one.
pub proof fn lemma_factors_shape<T: Scalar>(a: Seq<Seq<(int, T)>>, k: int)
    requires
        csc::is_upper(a),
        0 <= k <= a.len(),
    ensures
        factors(a, k).pivots.len() == k,
        forall|r: int, i: int|
            (#[trigger] (factors(a, k).lower)(r, i)) is Some <==> r < k && graph::fills(
                csc::graph_of(a),
                i,
                r,
            ),
    decreases k,
{
    if k > 0 {
        lemma_factors_shape(a, k - 1);
        lemma_row_order(a, k - 1);
        let f = factors(a, k - 1);
        let h = factors(a, k);
        assert forall|r: int, i: int| (#[trigger] (h.lower)(r, i)) is Some <==> r < k
            && graph::fills(csc::graph_of(a), i, r) by {
            if r == k - 1 {
                assert(row_order(a, k - 1).contains(i) <==> graph::fills(csc::graph_of(a), i, r));
            } else {
                assert((h.lower)(r, i) == (f.lower)(r, i));
            }
        }
    }
}

/// Later rows leave the earlier ones as they are.
pub proof fn lemma_factors_extend<T: Scalar>(a: Seq<Seq<(int, T)>>, j: int, k: int)
    requires
        csc::is_upper(a),
        0 <= j <= k <= a.len(),
    ensures
        forall|i: int| 0 <= i < j ==> #[trigger] factors(a, k).pivots[i] == factors(a, j).pivots[i],
        forall|r: int, i: int|
            r < j ==> #[trigger] (factors(a, k).lower)(r, i) == (factors(a, j).lower)(r, i),
    decreases k,
{
    if j < k {
        lemma_factors_extend(a, j, k - 1);
        lemma_factors_shape(a, k - 1);
        let f = factors(a, k - 1);
        let h = factors(a, k);
        assert forall|i: int| 0 <= i < j implies #[trigger] h.pivots[i] == factors(a, j).pivots[i] by {
            assert(h.pivots[i] == f.pivots[i]);
        }
        assert forall|r: int, i: int| r < j implies #[trigger] (h.lower)(r, i) == (factors(
            a,
            j,
        ).lower)(r, i) by {
            assert((h.lower)(r, i) == (f.lower)(r, i));
        }
    }
}

} // verus!
