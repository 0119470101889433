//! What depends on the pattern of the matrix alone, and what is not read at all.
//!
//! These laws hold of every scalar type, whether it rounds or not.
use vstd::prelude::*;

use crate::csc;
use crate::error::Fault;
use crate::graph;
use crate::laws::breakdown;
use crate::model;
use crate::ordering;
use crate::outcome;
use crate::permute;
use crate::scalar::Scalar;

verus! {

/// The second arrays are the first ones with entries below the diagonal left out: `kept` lists the
/// indices of the entries that are left, in order, and `col_ptr2` counts them.
pub open spec fn is_thinned<T>(
    n: int,
    col_ptr1: Seq<usize>,
    row_idx1: Seq<usize>,
    values1: Seq<T>,
    col_ptr2: Seq<usize>,
    row_idx2: Seq<usize>,
    values2: Seq<T>,
    kept: Seq<int>,
) -> bool {
    &&& kept.len() == row_idx2.len()
    &&& forall|s: int, t: int| 0 <= s < t < kept.len() ==> #[trigger] kept[s] < #[trigger] kept[t]
    &&& forall|t: int|
        0 <= t < kept.len() ==> {
            &&& 0 <= #[trigger] kept[t] < row_idx1.len()
            &&& row_idx2[t] == row_idx1[kept[t]]
            &&& values2[t] == values1[kept[t]]
        }
    &&& forall|k: int, t: int|
        0 <= k < n && 0 <= t < kept.len() ==> (#[trigger] col_ptr2[k] <= t < col_ptr2[k + 1] <==> col_ptr1[k]
            <= #[trigger] kept[t] < col_ptr1[k + 1])
    &&& forall|k: int, p: int|
        0 <= k < n && #[trigger] col_ptr1[k] <= p < col_ptr1[k + 1] && !kept.contains(p)
            ==> #[trigger] row_idx1[p] > k
}

/// Only the upper triangle is read: leaving out entries below the diagonal, all of them or some,
/// changes neither the matrix nor the graph that the arrays describe, and leaves well-formed arrays
/// well formed. So a matrix with both triangles stored gives what its upper triangle gives.
pub proof fn law_lower_triangle_is_not_read<T: Scalar>(
    n: int,
    col_ptr1: Seq<usize>,
    row_idx1: Seq<usize>,
    values1: Seq<T>,
    col_ptr2: Seq<usize>,
    row_idx2: Seq<usize>,
    values2: Seq<T>,
    kept: Seq<int>,
)
    requires
        csc::is_csc(n, col_ptr1, row_idx1, values1.len() as int),
        csc::is_csc(n, col_ptr2, row_idx2, values2.len() as int),
        is_thinned(n, col_ptr1, row_idx1, values1, col_ptr2, row_idx2, values2, kept),
    ensures
        csc::upper(n, col_ptr1, row_idx1, values1) == csc::upper(n, col_ptr2, row_idx2, values2),
        csc::pattern_graph(n, col_ptr1, row_idx1) == csc::pattern_graph(n, col_ptr2, row_idx2),
        csc::defect(n, col_ptr1, row_idx1, values1) is None ==> csc::defect(
            n,
            col_ptr2,
            row_idx2,
            values2,
        ) is None,
{
    let a = csc::upper(n, col_ptr1, row_idx1, values1);
    let b = csc::upper(n, col_ptr2, row_idx2, values2);
    assert forall|k: int| 0 <= k < n implies #[trigger] a[k] == b[k] by {
        let lo1 = col_ptr1[k] as int;
        let hi1 = col_ptr1[k + 1] as int;
        let lo2 = col_ptr2[k] as int;
        let hi2 = col_ptr2[k + 1] as int;
        csc::lemma_column_starts(n, col_ptr2, row_idx2, values2.len() as int, k + 1, n);
        csc::lemma_column_starts(n, col_ptr2, row_idx2, values2.len() as int, k, k + 1);
        assert forall|t: int| 0 <= t < kept.len() implies (lo2 <= t < hi2 <==> lo1
            <= #[trigger] kept[t] < hi1) by {
            assert(col_ptr2[k] <= t < col_ptr2[k + 1] <==> col_ptr1[k] <= kept[t] < col_ptr1[k
                + 1]);
        }
        assert forall|p: int| lo1 <= p < hi1 && !kept.contains(p) implies #[trigger] row_idx1[p]
            > k by {
            assert(col_ptr1[k] <= p);
        }
        lemma_column_thinned(
            row_idx1,
            values1,
            row_idx2,
            values2,
            kept,
            k,
            lo1,
            hi1,
            lo2,
            hi2,
        );
    }
    assert(a =~= b);
    csc::lemma_graph_of_upper(n, col_ptr1, row_idx1, values1);
    csc::lemma_graph_of_upper(n, col_ptr2, row_idx2, values2);
    csc::lemma_defect_of_columns(n, col_ptr1, row_idx1, values1);
    csc::lemma_defect_of_columns(n, col_ptr2, row_idx2, values2);
    if csc::has_overflow(values2) {
        let t = choose|t: int| 0 <= t < values2.len() && !T::is_finite_spec(#[trigger] values2[t]);
        assert(values2[t] == values1[kept[t]]);
        assert(csc::has_overflow(values1));
    }
}

/// A column with entries below the diagonal left out.
proof fn lemma_column_thinned<T>(
    row_idx1: Seq<usize>,
    values1: Seq<T>,
    row_idx2: Seq<usize>,
    values2: Seq<T>,
    kept: Seq<int>,
    k: int,
    lo1: int,
    hi1: int,
    lo2: int,
    hi2: int,
)
    requires
        forall|s: int, t: int| 0 <= s < t < kept.len() ==> #[trigger] kept[s] < #[trigger] kept[t],
        forall|t: int|
            0 <= t < kept.len() ==> row_idx2[t] == row_idx1[#[trigger] kept[t]] && values2[t]
                == values1[kept[t]],
        0 <= lo2 <= hi2 <= kept.len(),
        forall|t: int|
            0 <= t < kept.len() ==> (lo2 <= t < hi2 <==> lo1 <= #[trigger] kept[t] < hi1),
        forall|p: int| lo1 <= p < hi1 && !kept.contains(p) ==> #[trigger] row_idx1[p] > k,
    ensures
        csc::column(row_idx1, values1, k, lo1, hi1) == csc::column(
            row_idx2,
            values2,
            k,
            lo2,
            hi2,
        ),
    decreases hi1 - lo1,
{
    if hi1 <= lo1 {
        if lo2 < hi2 {
            assert(lo1 <= kept[lo2] < hi1);
        }
    } else if kept.contains(hi1 - 1) {
        let t = choose|t: int| 0 <= t < kept.len() && kept[t] == hi1 - 1;
        assert(lo2 <= t < hi2);
        if t < hi2 - 1 {
            assert(kept[t] < kept[hi2 - 1]);
        }
        assert forall|s: int| 0 <= s < kept.len() implies (lo2 <= s < hi2 - 1 <==> lo1
            <= #[trigger] kept[s] < hi1 - 1) by {
            if s < t {
                assert(kept[s] < kept[t]);
            }
            if t < s {
                assert(kept[t] < kept[s]);
            }
        }
        lemma_column_thinned(
            row_idx1,
            values1,
            row_idx2,
            values2,
            kept,
            k,
            lo1,
            hi1 - 1,
            lo2,
            hi2 - 1,
        );
    } else {
        assert(row_idx1[hi1 - 1] > k);
        assert forall|s: int| 0 <= s < kept.len() implies (lo2 <= s < hi2 <==> lo1
            <= #[trigger] kept[s] < hi1 - 1) by {
            assert(kept.contains(kept[s]));
        }
        lemma_column_thinned(
            row_idx1,
            values1,
            row_idx2,
            values2,
            kept,
            k,
            lo1,
            hi1 - 1,
            lo2,
            hi2,
        );
    }
}

/// Below the diagonal, values and indices do not count either: arrays that differ only there
/// describe the same matrix and the same graph.
pub proof fn law_values_below_the_diagonal_do_not_count<T>(
    n: int,
    col_ptr: Seq<usize>,
    row_idx1: Seq<usize>,
    values1: Seq<T>,
    row_idx2: Seq<usize>,
    values2: Seq<T>,
)
    requires
        n >= 0,
        forall|k: int, p: int|
            0 <= k < n && col_ptr[k] <= p < #[trigger] col_ptr[k + 1] ==> (
            #[trigger] row_idx1[p] == row_idx2[p] && values1[p] == values2[p]) || (row_idx1[p] > k
                && row_idx2[p] > k),
    ensures
        csc::upper(n, col_ptr, row_idx1, values1) == csc::upper(n, col_ptr, row_idx2, values2),
        csc::pattern_graph(n, col_ptr, row_idx1) == csc::pattern_graph(n, col_ptr, row_idx2),
{
    let a = csc::upper(n, col_ptr, row_idx1, values1);
    let b = csc::upper(n, col_ptr, row_idx2, values2);
    assert forall|k: int| 0 <= k < n implies #[trigger] a[k] == b[k] by {
        assert forall|p: int| col_ptr[k] <= p < col_ptr[k + 1] implies (#[trigger] row_idx1[p]
            == row_idx2[p] && values1[p] == values2[p]) || (row_idx1[p] > k && row_idx2[p] > k) by {}
        lemma_column_upper(
            row_idx1,
            values1,
            row_idx2,
            values2,
            k,
            col_ptr[k] as int,
            col_ptr[k + 1] as int,
        );
    }
    assert(a =~= b);
    csc::lemma_graph_of_upper(n, col_ptr, row_idx1, values1);
    csc::lemma_graph_of_upper(n, col_ptr, row_idx2, values2);
}

proof fn lemma_column_upper<T>(
    row_idx1: Seq<usize>,
    values1: Seq<T>,
    row_idx2: Seq<usize>,
    values2: Seq<T>,
    k: int,
    lo: int,
    hi: int,
)
    requires
        forall|p: int|
            lo <= p < hi ==> (#[trigger] row_idx1[p] == row_idx2[p] && values1[p] == values2[p])
                || (row_idx1[p] > k && row_idx2[p] > k),
    ensures
        csc::column(row_idx1, values1, k, lo, hi) == csc::column(row_idx2, values2, k, lo, hi),
    decreases hi - lo,
{
    if lo < hi {
        lemma_column_upper(row_idx1, values1, row_idx2, values2, k, lo, hi - 1);
        assert((row_idx1[hi - 1] == row_idx2[hi - 1] && values1[hi - 1] == values2[hi - 1]) || (
        row_idx1[hi - 1] > k && row_idx2[hi - 1] > k));
    }
}

/// `L` has an entry exactly where the elimination graph of the matrix has an edge: the fill-in is
/// that of the elimination, no more and no less.
pub proof fn law_factors_have_the_structure_of_the_elimination<T: Scalar>(
    a: Seq<Seq<(int, T)>>,
    r: int,
    i: int,
)
    requires
        csc::is_upper(a),
        0 <= r < a.len(),
        0 <= i < a.len(),
    ensures
        (model::factors(a, a.len() as int).lower)(r, i) is Some <==> graph::fills(
            csc::graph_of(a),
            i,
            r,
        ),
{
    model::lemma_factors_shape(a, a.len() as int);
}

/// The number of entries of `L` and the number of operations depend on the pattern alone: two
/// matrices with the same graph report the same counts.
pub proof fn law_pattern_fixes_the_counts<T: Scalar>(
    a: Seq<Seq<(int, T)>>,
    b: Seq<Seq<(int, T)>>,
    k: int,
)
    requires
        csc::is_upper(a),
        csc::is_upper(b),
        a.len() == b.len(),
        csc::graph_of(a) == csc::graph_of(b),
        0 <= k <= a.len(),
    ensures
        outcome::entry_count(model::factors(a, a.len() as int), k) == outcome::entry_count(
            model::factors(b, b.len() as int),
            k,
        ),
        outcome::flop_count(model::factors(a, a.len() as int), k) == outcome::flop_count(
            model::factors(b, b.len() as int),
            k,
        ),
    decreases k,
{
    if k > 0 {
        law_pattern_fixes_the_counts(a, b, k - 1);
        let n = a.len() as int;
        let f = model::factors(a, n);
        let h = model::factors(b, n);
        model::lemma_factors_shape(a, n);
        model::lemma_factors_shape(b, n);
        graph::lemma_count_same(
            n,
            |r: int| (f.lower)(r, k - 1) is Some,
            |r: int| (h.lower)(r, k - 1) is Some,
        );
    }
}

/// The number of operations is bounded by the number of entries: at most `c * c + 3 * c` for `c`
/// entries in all.
pub proof fn law_flops_are_bounded_by_the_entries<T>(f: model::Factors<T>, k: int)
    requires
        0 <= k,
    ensures
        0 <= outcome::entry_count(f, k),
        0 <= outcome::flop_count(f, k),
        outcome::flop_count(f, k) <= outcome::entry_count(f, k) * outcome::entry_count(f, k) + 3
            * outcome::entry_count(f, k),
    decreases k,
{
    if k > 0 {
        law_flops_are_bounded_by_the_entries(f, k - 1);
        let c = outcome::column_count(f, k - 1);
        let e = outcome::entry_count(f, k - 1);
        let w = outcome::flop_count(f, k - 1);
        graph::lemma_count_bounds(
            f.pivots.len() as int,
            |r: int| (f.lower)(r, k - 1) is Some,
        );
        assert(0 <= w + (c * c + 3 * c) <= (e + c) * (e + c) + 3 * (e + c)) by (nonlinear_arith)
            requires
                0 <= w <= e * e + 3 * e,
                0 <= c,
                0 <= e,
        ;
    } else {
        assert(outcome::entry_count(f, k) == 0);
    }
}

/// A minimum degree order is a permutation, so it is accepted as an elimination order.
pub proof fn law_min_degree_order_is_a_permutation(n: int, g: graph::Graph, order: Seq<int>)
    requires
        n >= 0,
        ordering::is_min_degree_order(n, g, order),
    ensures
        ordering::is_permutation(n, order),
        outcome::order_defect(n, order) is None,
{
    assert forall|s: int, t: int| 0 <= s < order.len() && 0 <= t < order.len() && s
        != t implies order[s] != order[t] by {
        if s < t {
            lemma_earlier_differs(n, g, order, s, t);
        } else {
            lemma_earlier_differs(n, g, order, t, s);
        }
    }
    assert forall|t: int| 0 <= t < n implies 0 <= #[trigger] order[t] < n by {
        assert(ordering::is_next(
            n,
            graph::eliminate_all(g, order.take(t)),
            order.take(t),
            order[t],
        ));
    }
    permute::lemma_distinct_is_permutation(n, order);
}

proof fn lemma_earlier_differs(n: int, g: graph::Graph, order: Seq<int>, s: int, t: int)
    requires
        ordering::is_min_degree_order(n, g, order),
        0 <= s < t < n,
    ensures
        order[s] != order[t],
{
    assert(ordering::is_next(
        n,
        graph::eliminate_all(g, order.take(t)),
        order.take(t),
        order[t],
    ));
    assert(order.take(t)[s] == order[s]);
}

/// There is one minimum degree order: the graph fixes it.
pub proof fn law_min_degree_order_is_unique(
    n: int,
    g: graph::Graph,
    order1: Seq<int>,
    order2: Seq<int>,
)
    requires
        ordering::is_min_degree_order(n, g, order1),
        ordering::is_min_degree_order(n, g, order2),
    ensures
        order1 == order2,
{
    assert forall|t: int| 0 <= t < n implies #[trigger] order1[t] == order2[t] by {
        lemma_orders_agree(n, g, order1, order2, t);
    }
    assert(order1 =~= order2);
}

proof fn lemma_orders_agree(
    n: int,
    g: graph::Graph,
    order1: Seq<int>,
    order2: Seq<int>,
    t: int,
)
    requires
        ordering::is_min_degree_order(n, g, order1),
        ordering::is_min_degree_order(n, g, order2),
        0 <= t < n,
    ensures
        order1[t] == order2[t],
    decreases t,
{
    assert forall|s: int| 0 <= s < t implies order1[s] == order2[s] by {
        lemma_orders_agree(n, g, order1, order2, s);
    }
    let done = order1.take(t);
    assert(done =~= order2.take(t));
    let left = graph::eliminate_all(g, done);
    assert(ordering::is_next(n, left, done, order1[t]));
    assert(ordering::is_next(n, left, done, order2[t]));
    assert(!done.contains(order1[t]) && !done.contains(order2[t]));
}

/// Each column of `L` has as many entries as its node has neighbours when it is eliminated. So
/// factoring in a minimum degree order makes each column as short as any remaining node could.
pub proof fn law_column_is_as_long_as_its_node_has_neighbours<T: Scalar>(
    a: Seq<Seq<(int, T)>>,
    order: Seq<int>,
    k: int,
)
    requires
        csc::is_upper(a),
        ordering::is_permutation(a.len() as int, order),
        0 <= k < a.len(),
    ensures
        outcome::column_count(model::factors(permute::permuted(a, order), a.len() as int), k)
            == graph::degree(
            a.len() as int,
            graph::eliminate_all(csc::graph_of(a), order.take(k)),
            order[k],
        ),
{
    let n = a.len() as int;
    let b = permute::permuted(a, order);
    let g = csc::graph_of(a);
    let h = csc::graph_of(b);
    let f = model::factors(b, n);
    let left = graph::eliminate_all(g, order.take(k));
    permute::lemma_permuted_is_upper(a, order);
    model::lemma_factors_shape(b, n);
    csc::lemma_graph_of(a);
    let p = |r: int| (f.lower)(r, k) is Some;
    let neighbour = |v: int| left(order[k], v);
    let listed = |r: int| neighbour(order[r]);
    assert forall|r: int| 0 <= r < n implies p(r) == #[trigger] listed(r) by {
        lemma_elimination_permuted(a, order, k, k, r);
        if r < k {
            assert(order.take(k)[r] == order[r]);
            graph::lemma_eliminated_node_is_isolated(n, g, order.take(k), order[r], order[k]);
        } else if r == k {
            graph::lemma_eliminate_all_is_graph(n, g, order.take(k));
        }
    }
    graph::lemma_count_same(n, p, listed);
    assert forall|t: int| 0 <= t < n implies 0 <= #[trigger] order[t] < n by {
        assert(order.contains(order[t]));
    }
    graph::lemma_count_by_listing(n, neighbour, order);
}

/// Elimination in the given order, and elimination by number in the permuted matrix.
proof fn lemma_elimination_permuted<T: Scalar>(
    a: Seq<Seq<(int, T)>>,
    order: Seq<int>,
    k: int,
    i: int,
    j: int,
)
    requires
        ordering::is_permutation(a.len() as int, order),
        0 <= k <= a.len(),
        0 <= i < a.len(),
        0 <= j < a.len(),
    ensures
        graph::eliminate_below(csc::graph_of(permute::permuted(a, order)), k)(i, j)
            == graph::eliminate_all(csc::graph_of(a), order.take(k))(order[i], order[j]),
    decreases k,
{
    let b = permute::permuted(a, order);
    if k == 0 {
        assert(order.contains(order[i]) && order.contains(order[j]));
        let lo = if i < j {
            i
        } else {
            j
        };
        let hi = if i < j {
            j
        } else {
            i
        };
        permute::lemma_permuted_values(a, order, hi, hi + 1, lo);
        assert(order.take(0).len() == 0);
    } else {
        assert(order.take(k).drop_last() =~= order.take(k - 1));
        assert(order.take(k).last() == order[k - 1]);
        lemma_elimination_permuted(a, order, k - 1, i, j);
        lemma_elimination_permuted(a, order, k - 1, k - 1, i);
        lemma_elimination_permuted(a, order, k - 1, k - 1, j);
    }
}

/// The graph of a leading block is the graph of the matrix among its nodes, and it stays so as they
/// are eliminated.
proof fn lemma_leading_graph<T>(a: Seq<Seq<(int, T)>>, m: int, t: int, u: int, v: int)
    requires
        0 <= t <= m <= a.len(),
        0 <= u < m,
        0 <= v < m,
    ensures
        graph::eliminate_below(csc::graph_of(a.take(m)), t)(u, v) == graph::eliminate_below(
            csc::graph_of(a),
            t,
        )(u, v),
    decreases t,
{
    if t > 0 {
        lemma_leading_graph(a, m, t - 1, u, v);
        lemma_leading_graph(a, m, t - 1, t - 1, u);
        lemma_leading_graph(a, m, t - 1, t - 1, v);
    }
}

proof fn lemma_leading_fills<T>(a: Seq<Seq<(int, T)>>, m: int, i: int, k: int)
    requires
        0 <= m <= a.len(),
        k < m,
    ensures
        graph::fills(csc::graph_of(a.take(m)), i, k) == graph::fills(csc::graph_of(a), i, k),
{
    if 0 <= i < k {
        lemma_leading_graph(a, m, i, i, k);
    }
}

/// The parents in a leading block are those in the matrix, as far as they lie in the block.
proof fn lemma_leading_first_fill<T>(a: Seq<Seq<(int, T)>>, m: int, i: int, k: int)
    requires
        0 <= m <= a.len(),
        0 <= i,
    ensures
        ({
            let inner = graph::first_fill(m, csc::graph_of(a.take(m)), i, k);
            let outer = graph::first_fill(a.len() as int, csc::graph_of(a), i, k);
            inner == outer || (inner >= m && outer >= m)
        }),
    decreases a.len() - k,
{
    let n = a.len() as int;
    if k < m {
        lemma_leading_fills(a, m, i, k);
        lemma_leading_first_fill(a, m, i, k + 1);
    } else {
        lemma_first_fill_from(n, csc::graph_of(a), i, k);
    }
}

proof fn lemma_first_fill_from(n: int, g: graph::Graph, i: int, k: int)
    ensures
        k <= n ==> graph::first_fill(n, g, i, k) >= k,
        graph::first_fill(n, g, i, k) >= k || graph::first_fill(n, g, i, k) == n,
    decreases n - k,
{
    if k < n && !graph::fills(g, i, k) {
        lemma_first_fill_from(n, g, i, k + 1);
    }
}

proof fn lemma_leading_path<T>(a: Seq<Seq<(int, T)>>, m: int, k: int, i: int, seen: Seq<int>)
    requires
        0 <= k < m <= a.len(),
    ensures
        model::path(m, csc::graph_of(a.take(m)), k, i, seen) == model::path(
            a.len() as int,
            csc::graph_of(a),
            k,
            i,
            seen,
        ),
    decreases
            if i < k {
                k - i
            } else {
                0
            },
{
    let n = a.len() as int;
    let g = csc::graph_of(a);
    let h = csc::graph_of(a.take(m));
    if 0 <= i < k && !seen.contains(i) {
        graph::lemma_parent(n, g, i);
        graph::lemma_parent(m, h, i);
        lemma_leading_first_fill(a, m, i, i + 1);
        let q = graph::parent(n, g, i);
        lemma_leading_path(a, m, k, q, seen);
        assert(model::path(m, h, k, graph::parent(m, h, i), seen) == model::path(
            n,
            g,
            k,
            q,
            seen,
        ));
    }
}

proof fn lemma_leading_reach<T>(a: Seq<Seq<(int, T)>>, m: int, k: int, col: Seq<(int, T)>)
    requires
        0 <= k < m <= a.len(),
    ensures
        model::reach(m, csc::graph_of(a.take(m)), k, col) == model::reach(
            a.len() as int,
            csc::graph_of(a),
            k,
            col,
        ),
    decreases col.len(),
{
    if col.len() > 0 {
        lemma_leading_reach(a, m, k, col.drop_last());
        lemma_leading_path(
            a,
            m,
            k,
            col.last().0,
            model::reach(a.len() as int, csc::graph_of(a), k, col.drop_last()),
        );
    }
}

/// Row `k` of the factors follows from the first columns of the matrix alone.
pub proof fn lemma_leading_factors<T: Scalar>(a: Seq<Seq<(int, T)>>, m: int, k: int)
    requires
        0 <= k <= m <= a.len(),
    ensures
        model::factors(a.take(m), k) == model::factors(a, k),
    decreases k,
{
    if k > 0 {
        lemma_leading_factors(a, m, k - 1);
        lemma_leading_reach(a, m, k - 1, a[k - 1]);
    }
}

/// There is no pivoting and no reordering: the factors of a leading block are the leading rows of
/// the factors of the matrix. Where the matrix can be factored with collapsed pivots reported, so
/// can the block, and its factors have no more entries.
pub proof fn law_leading_block_has_the_leading_factors<T: Scalar>(a: Seq<Seq<(int, T)>>, m: int)
    requires
        csc::is_upper(a),
        0 <= m <= a.len(),
    ensures
        csc::is_upper(a.take(m)),
        forall|k: int|
            0 <= k < m ==> #[trigger] outcome::pivot_at(a.take(m), k) == outcome::pivot_at(a, k),
        forall|r: int, i: int|
            r < m ==> #[trigger] (model::factors(a.take(m), m).lower)(r, i) == (model::factors(
                a,
                a.len() as int,
            ).lower)(r, i),
        outcome::factored(a, false) matches Ok(f) ==> (outcome::factored(a.take(m), false) matches Ok(
            g,
        ) && g.factors.pivots == f.factors.pivots.take(m)),
        outcome::entry_count(model::factors(a.take(m), m), m) <= outcome::entry_count(
            model::factors(a, a.len() as int),
            a.len() as int,
        ),
{
    let n = a.len() as int;
    let b = a.take(m);
    let f = model::factors(a, n);
    let g = model::factors(b, m);
    assert forall|k: int, t: int| 0 <= k < b.len() && 0 <= t < b[k].len() implies 0 <= (
    #[trigger] b[k][t]).0 <= k by {
        assert(b[k][t] == a[k][t]);
    }
    lemma_leading_factors(a, m, m);
    model::lemma_factors_extend(a, m, n);
    model::lemma_factors_shape(a, m);
    model::lemma_factors_shape(a, n);
    model::lemma_factors_shape(b, m);
    csc::lemma_graph_of(a);
    assert forall|k: int| 0 <= k < m implies #[trigger] outcome::pivot_at(b, k)
        == outcome::pivot_at(a, k) by {
        assert(f.pivots[k] == model::factors(a, m).pivots[k]);
    }
    breakdown::lemma_first_break(a, false, 0);
    breakdown::lemma_first_break(b, false, 0);
    if outcome::factored(a, false) is Ok {
        let k = outcome::first_break(b, false, 0);
        if k < m {
            assert(!outcome::breaks(a, false, k));
            assert(outcome::pivot_at(b, k) == outcome::pivot_at(a, k));
        }
        assert forall|k: int| 0 <= k < m implies g.pivots[k] == #[trigger] f.pivots.take(m)[k] by {
            assert(outcome::pivot_at(b, k) == outcome::pivot_at(a, k));
        }
        assert(g.pivots =~= f.pivots.take(m));
    }
    lemma_leading_entry_count(f, g, n, m, m);
    lemma_entry_count_monotone(f, m, n);
}

/// Stopping at destroyed pivots, a leading block of a matrix that can be factored can be factored
/// too, with the leading pivots, wherever a pivot that is destroyed against the diagonal of the
/// block is destroyed against the larger diagonal of the matrix. So it is where products and
/// maxima are rounded in order.
pub proof fn law_leading_block_is_factored_with_the_matrix<T: Scalar>(
    a: Seq<Seq<(int, T)>>,
    f: outcome::Factorization<T>,
    m: int,
)
    requires
        csc::is_upper(a),
        outcome::factored(a, true) == Ok::<_, Fault<T>>(f),
        0 <= m <= a.len(),
        forall|k: int|
            0 <= k < m && outcome::is_collapsed(
                #[trigger] outcome::pivot_at(a, k),
                csc::scale(a.take(m), m),
            ) ==> outcome::is_collapsed(outcome::pivot_at(a, k), csc::scale(a, a.len() as int)),
    ensures
        outcome::factored(a.take(m), true) matches Ok(g) && {
            &&& g.factors.pivots == f.factors.pivots.take(m)
            &&& outcome::entry_count(g.factors, m) <= outcome::entry_count(
                f.factors,
                a.len() as int,
            )
        },
{
    let b = a.take(m);
    law_leading_block_has_the_leading_factors(a, m);
    breakdown::law_stopping_and_reporting_agree(a);
    breakdown::law_every_returned_pivot_is_sound(a);
    breakdown::law_every_returned_pivot_is_sound(b);
    assert forall|k: int| 0 <= k < m implies T::is_finite_spec(#[trigger] outcome::pivot_at(b, k))
        && !T::is_zero_spec(outcome::pivot_at(b, k)) && !outcome::is_collapsed(
        outcome::pivot_at(b, k),
        csc::scale(b, m),
    ) by {
        let d = outcome::pivot_at(a, k);
        assert(T::is_finite_spec(d));
        assert(outcome::pivot_at(b, k) == d);
    }
}

proof fn lemma_leading_entry_count<T>(
    f: model::Factors<T>,
    g: model::Factors<T>,
    n: int,
    m: int,
    k: int,
)
    requires
        0 <= k <= m <= n,
        f.pivots.len() == n,
        g.pivots.len() == m,
        forall|r: int, i: int| r < m ==> #[trigger] (g.lower)(r, i) == (f.lower)(r, i),
    ensures
        outcome::entry_count(g, k) <= outcome::entry_count(f, k),
    decreases k,
{
    if k > 0 {
        lemma_leading_entry_count(f, g, n, m, k - 1);
        let p = |r: int| (g.lower)(r, k - 1) is Some;
        let q = |r: int| (f.lower)(r, k - 1) is Some;
        graph::lemma_count_same(m, p, q);
        graph::lemma_count_monotone(m, n, q);
    }
}

proof fn lemma_entry_count_monotone<T>(f: model::Factors<T>, m: int, n: int)
    requires
        0 <= m <= n,
    ensures
        outcome::entry_count(f, m) <= outcome::entry_count(f, n),
    decreases n - m,
{
    if m < n {
        lemma_entry_count_monotone(f, m, n - 1);
        graph::lemma_count_bounds(
            f.pivots.len() as int,
            |r: int| (f.lower)(r, n - 1) is Some,
        );
    }
}

/// The first columns of the arrays describe the leading block of the matrix. Where nothing is
/// stored below the diagonal, they are as well formed as the whole.
pub proof fn law_leading_arrays_describe_the_leading_block<T: Scalar>(
    n: int,
    col_ptr: Seq<usize>,
    row_idx: Seq<usize>,
    values: Seq<T>,
    m: int,
)
    requires
        csc::defect(n, col_ptr, row_idx, values) is None,
        0 <= m <= n,
    ensures
        csc::upper(
            m,
            col_ptr.take(m + 1),
            row_idx.take(col_ptr[m] as int),
            values.take(col_ptr[m] as int),
        ) == csc::upper(n, col_ptr, row_idx, values).take(m),
        (forall|k: int, p: int|
            0 <= k < n && #[trigger] col_ptr[k] <= p < col_ptr[k + 1] ==> #[trigger] row_idx[p]
                <= k) && col_ptr[0] == 0 ==> csc::defect(
            m,
            col_ptr.take(m + 1),
            row_idx.take(col_ptr[m] as int),
            values.take(col_ptr[m] as int),
        ) is None,
{
    csc::lemma_no_defect(n, col_ptr, row_idx, values);
    let len = values.len() as int;
    let cp = col_ptr.take(m + 1);
    let ri = row_idx.take(col_ptr[m] as int);
    let vx = values.take(col_ptr[m] as int);
    csc::lemma_column_starts(n, col_ptr, row_idx, len, m, n);
    assert forall|k: int| 0 <= k < m implies csc::upper(m, cp, ri, vx)[k] == #[trigger] csc::upper(
        n,
        col_ptr,
        row_idx,
        values,
    )[k] by {
        csc::lemma_column_starts(n, col_ptr, row_idx, len, k + 1, m);
        csc::lemma_column_starts(n, col_ptr, row_idx, len, k, k + 1);
        permute::lemma_column_same(
            ri,
            vx,
            row_idx,
            values,
            k,
            col_ptr[k] as int,
            col_ptr[k + 1] as int,
        );
    }
    assert(csc::upper(m, cp, ri, vx) =~= csc::upper(n, col_ptr, row_idx, values).take(m));
    if (forall|k: int, p: int|
        0 <= k < n && #[trigger] col_ptr[k] <= p < col_ptr[k + 1] ==> #[trigger] row_idx[p] <= k)
        && col_ptr[0] == 0 {
        assert forall|p: int| 0 <= p < ri.len() implies #[trigger] ri[p] < m by {
            let k = permute::lemma_find_column(n, col_ptr, m, p);
            assert(col_ptr[k] <= p);
            assert(row_idx[p] <= k);
        }
        assert(csc::is_csc(m, cp, ri, vx.len() as int)) by {
            assert forall|k: int| 0 <= k < m implies #[trigger] cp[k] <= cp[k + 1] by {
                assert(col_ptr[k] <= col_ptr[k + 1]);
            }
        }
        csc::lemma_defect_of_columns(m, cp, ri, vx);
        if csc::has_overflow(vx) {
            let p = choose|p: int| 0 <= p < vx.len() && !T::is_finite_spec(#[trigger] vx[p]);
            assert(vx[p] == values[p]);
        }
    }
}

} // verus!
