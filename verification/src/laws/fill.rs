//! How much the factors fill in, whatever the order, and that forests need not fill in at all.
//!
//! These laws hold of every scalar type, whether it rounds or not.
use vstd::prelude::*;

use crate::csc;
use crate::graph;
use crate::laws::structure;
use crate::model;
use crate::ordering;
use crate::outcome;
use crate::permute;
use crate::scalar::Scalar;

verus! {

/// Three or more different nodes, each a neighbour of the next one and the last of the first.
pub open spec fn is_cycle(g: graph::Graph, c: Seq<int>) -> bool {
    &&& c.len() >= 3
    &&& c.no_duplicates()
    &&& forall|t: int| 0 <= t < c.len() - 1 ==> g(#[trigger] c[t], c[t + 1])
    &&& g(c[c.len() - 1], c[0])
}

/// The graph has no cycle.
pub open spec fn is_forest(g: graph::Graph) -> bool {
    forall|c: Seq<int>| !is_cycle(g, c)
}

/// The number of edges among the first `k` nodes.
pub open spec fn edge_count(g: graph::Graph, k: int) -> int
    decreases k,
{
    if k <= 0 {
        0
    } else {
        edge_count(g, k - 1) + graph::count(k - 1, |u: int| g(u, k - 1))
    }
}

/// The graph without the edges of node `u`.
pub open spec fn without(g: graph::Graph, u: int) -> graph::Graph {
    |x: int, y: int| x != u && y != u && g(x, y)
}

proof fn lemma_edge_count_same(g: graph::Graph, h: graph::Graph, k: int)
    requires
        forall|x: int, y: int| 0 <= x < y < k ==> #[trigger] g(x, y) == h(x, y),
    ensures
        edge_count(g, k) == edge_count(h, k),
    decreases k,
{
    if k > 0 {
        lemma_edge_count_same(g, h, k - 1);
        let p = |u: int| g(u, k - 1);
        let q = |u: int| h(u, k - 1);
        assert forall|x: int| 0 <= x < k - 1 implies p(x) == #[trigger] q(x) by {
            assert(g(x, k - 1) == h(x, k - 1));
        }
        graph::lemma_count_same(k - 1, p, q);
    }
}

proof fn lemma_count_more(n: int, p: spec_fn(int) -> bool, q: spec_fn(int) -> bool)
    requires
        forall|x: int| 0 <= x < n && #[trigger] p(x) ==> q(x),
    ensures
        graph::count(n, p) <= graph::count(n, q),
    decreases n,
{
    if n > 0 {
        lemma_count_more(n - 1, p, q);
        assert(p(n - 1) ==> q(n - 1));
    }
}

proof fn lemma_edge_count_more(g: graph::Graph, h: graph::Graph, k: int)
    requires
        forall|x: int, y: int| 0 <= x < y < k && #[trigger] g(x, y) ==> h(x, y),
    ensures
        edge_count(g, k) <= edge_count(h, k),
    decreases k,
{
    if k > 0 {
        lemma_edge_count_more(g, h, k - 1);
        let p = |u: int| g(u, k - 1);
        let q = |u: int| h(u, k - 1);
        assert forall|x: int| 0 <= x < k - 1 && #[trigger] p(x) implies q(x) by {
            assert(g(x, k - 1));
        }
        lemma_count_more(k - 1, p, q);
    }
}

/// Taking one number out of what is counted.
proof fn lemma_count_without(n: int, p: spec_fn(int) -> bool, u: int)
    requires
        0 <= u < n,
    ensures
        graph::count(n, p) == graph::count(n, |x: int| x != u && p(x)) + if p(u) {
            1int
        } else {
            0
        },
    decreases n,
{
    let q = |x: int| x != u && p(x);
    if u == n - 1 {
        graph::lemma_count_same(n - 1, p, q);
    } else {
        lemma_count_without(n - 1, p, u);
    }
}

/// A node has as many edges as neighbours.
proof fn lemma_edges_of_node(n: int, g: graph::Graph, u: int, k: int)
    requires
        graph::is_graph(n, g),
        0 <= u < n,
        0 <= k <= n,
    ensures
        edge_count(g, k) == edge_count(without(g, u), k) + if k > u {
            graph::count(k, |v: int| g(u, v))
        } else {
            0
        },
    decreases k,
{
    if k > 0 {
        let v = k - 1;
        lemma_edges_of_node(n, g, u, v);
        let p = |x: int| g(x, v);
        let q = |x: int| without(g, u)(x, v);
        let r = |x: int| g(u, x);
        if v < u {
            graph::lemma_count_same(v, p, q);
        } else if v == u {
            let none = |x: int| false;
            graph::lemma_count_same(v, q, none);
            lemma_count_none(v);
            assert forall|x: int| 0 <= x < v implies p(x) == #[trigger] r(x) by {
                assert(g(x, u) == g(u, x));
            }
            graph::lemma_count_same(v, p, r);
            assert(!g(u, u));
        } else {
            lemma_count_without(v, p, u);
            graph::lemma_count_same(v, q, |x: int| x != u && p(x));
        }
    }
}

proof fn lemma_count_none(n: int)
    ensures
        graph::count(n, |x: int| false) == 0,
    decreases n,
{
    if n > 0 {
        lemma_count_none(n - 1);
    }
}

/// Eliminating a node takes its edges away and may put others in. A node with one neighbour at
/// most puts none in.
proof fn lemma_edges_after_elimination(n: int, g: graph::Graph, u: int)
    requires
        graph::is_graph(n, g),
        0 <= u < n,
    ensures
        edge_count(graph::eliminate(g, u), n) >= edge_count(g, n) - graph::degree(n, g, u),
        graph::degree(n, g, u) <= 1 ==> edge_count(graph::eliminate(g, u), n) == edge_count(g, n)
            - graph::degree(n, g, u),
        graph::degree(n, g, u) <= 1 ==> forall|x: int, y: int| #[trigger]
            graph::eliminate(g, u)(x, y) == without(g, u)(x, y),
{
    let h = graph::eliminate(g, u);
    lemma_edges_of_node(n, g, u, n);
    lemma_edge_count_more(without(g, u), h, n);
    if graph::degree(n, g, u) <= 1 {
        assert forall|x: int, y: int| #[trigger] h(x, y) == without(g, u)(x, y) by {
            if h(x, y) && !g(x, y) {
                lemma_two_neighbours(n, g, u, x, y);
            }
            if g(x, y) {
                assert(x != y);
            }
        }
        lemma_edge_count_same(h, without(g, u), n);
    }
}

/// A node with two different neighbours has a degree of two at least.
proof fn lemma_two_neighbours(n: int, g: graph::Graph, u: int, x: int, y: int)
    requires
        graph::is_graph(n, g),
        g(u, x),
        g(u, y),
        x != y,
    ensures
        graph::degree(n, g, u) >= 2,
{
    let p = |v: int| g(u, v);
    lemma_count_without(n, p, x);
    let q = |v: int| v != x && p(v);
    lemma_count_without(n, q, y);
    graph::lemma_count_bounds(n, |v: int| v != y && q(v));
}

/// A node of degree two at least has a neighbour other than a given one.
proof fn lemma_other_neighbour(n: int, g: graph::Graph, u: int, x: int) -> (y: int)
    requires
        graph::is_graph(n, g),
        graph::degree(n, g, u) >= 2,
        0 <= x < n,
    ensures
        g(u, y),
        y != x,
{
    let p = |v: int| g(u, v);
    lemma_count_without(n, p, x);
    let q = |v: int| v != x && p(v);
    if !(exists|y: int| 0 <= y < n && #[trigger] q(y)) {
        let none = |w: int| false;
        assert forall|v: int| 0 <= v < n implies q(v) == #[trigger] none(v) by {}
        graph::lemma_count_same(n, q, none);
        lemma_count_none(n);
    }
    choose|y: int| 0 <= y < n && #[trigger] q(y)
}

/// Different nodes, each a neighbour of the next one.
spec fn is_walk(n: int, g: graph::Graph, w: Seq<int>) -> bool {
    &&& w.len() >= 2
    &&& w.no_duplicates()
    &&& forall|t: int| 0 <= t < w.len() ==> 0 <= #[trigger] w[t] < n
    &&& forall|t: int| 0 <= t < w.len() - 1 ==> g(#[trigger] w[t], w[t + 1])
}

/// Where every node with a neighbour has two of them, a walk can go on until it closes a cycle.
proof fn lemma_walk_closes(n: int, g: graph::Graph, w: Seq<int>)
    requires
        graph::is_graph(n, g),
        is_walk(n, g, w),
        forall|u: int| 0 <= u < n && #[trigger] graph::degree(n, g, u) > 0 ==> graph::degree(n, g, u)
            >= 2,
    ensures
        !is_forest(g),
    decreases n - w.len(),
{
    let len = w.len() as int;
    let last = w[len - 1];
    let before = w[len - 2];
    assert(g(w[len - 2], w[len - 2 + 1]));
    assert(g(last, before));
    lemma_has_degree(n, g, last, before);
    let next = lemma_other_neighbour(n, g, last, before);
    lemma_walk_length(n, w);
    if w.contains(next) {
        let i = choose|i: int| 0 <= i < len && w[i] == next;
        assert(next != last);
        let c = w.subrange(i, len);
        assert forall|t: int| 0 <= t < c.len() - 1 implies g(#[trigger] c[t], c[t + 1]) by {
            assert(g(w[i + t], w[i + t + 1]));
        }
        assert(c[0] == next && c[c.len() - 1] == last);
        assert(is_cycle(g, c));
    } else {
        let longer = w.push(next);
        assert forall|t: int| 0 <= t < longer.len() - 1 implies g(
            #[trigger] longer[t],
            longer[t + 1],
        ) by {
            if t < len - 1 {
                assert(g(w[t], w[t + 1]));
            }
        }
        assert(longer.no_duplicates()) by {
            assert forall|s: int, t: int| 0 <= s < longer.len() && 0 <= t < longer.len() && s
                != t implies longer[s] != longer[t] by {
                if s == len {
                    assert(w.contains(w[t]));
                } else if t == len {
                    assert(w.contains(w[s]));
                }
            }
        }
        lemma_walk_length(n, longer);
        lemma_walk_closes(n, g, longer);
    }
}

proof fn lemma_has_degree(n: int, g: graph::Graph, u: int, v: int)
    requires
        graph::is_graph(n, g),
        g(u, v),
    ensures
        graph::degree(n, g, u) > 0,
{
    let p = |x: int| g(u, x);
    lemma_count_without(n, p, v);
    graph::lemma_count_bounds(n, |x: int| x != v && p(x));
}

/// Different nodes are no more than there are.
proof fn lemma_walk_length(n: int, w: Seq<int>)
    requires
        w.no_duplicates(),
        forall|t: int| 0 <= t < w.len() ==> 0 <= #[trigger] w[t] < n,
        n >= 0,
    ensures
        w.len() <= n,
{
    let p = |x: int| w.contains(x);
    assert forall|x: int| #[trigger] w.contains(x) <==> 0 <= x < n && p(x) by {
        if w.contains(x) {
            let t = choose|t: int| 0 <= t < w.len() && w[t] == x;
            assert(0 <= w[t] < n);
        }
    }
    graph::lemma_count_of_listing(n, p, w);
    graph::lemma_count_bounds(n, p);
}

/// The node that is eliminated next from a forest has one neighbour at most.
proof fn lemma_next_of_forest(n: int, g: graph::Graph, done: Seq<int>, u: int)
    requires
        graph::is_graph(n, g),
        is_forest(g),
        ordering::is_next(n, g, done, u),
        forall|x: int, y: int| done.contains(x) ==> !#[trigger] g(x, y),
    ensures
        graph::degree(n, g, u) <= 1,
{
    if graph::degree(n, g, u) >= 2 {
        assert forall|x: int| 0 <= x < n && #[trigger] graph::degree(n, g, x)
            > 0 implies graph::degree(n, g, x) >= 2 by {
            if done.contains(x) {
                let p = |v: int| g(x, v);
                let none = |v: int| false;
                assert forall|v: int| 0 <= v < n implies p(v) == #[trigger] none(v) by {
                    assert(!g(x, v));
                }
                graph::lemma_count_same(n, p, none);
                lemma_count_none(n);
            }
        }
        let v = lemma_other_neighbour(n, g, u, u);
        let w = seq![u, v];
        assert(g(w[0], w[1]));
        assert(is_walk(n, g, w));
        lemma_walk_closes(n, g, w);
    }
}

/// What is left of a forest when nodes of one neighbour at most are eliminated is a forest.
proof fn lemma_forest_after(g: graph::Graph, h: graph::Graph)
    requires
        is_forest(g),
        forall|x: int, y: int| #[trigger] h(x, y) ==> g(x, y),
    ensures
        is_forest(h),
{
    assert forall|c: Seq<int>| !is_cycle(h, c) by {
        if is_cycle(h, c) {
            assert forall|t: int| 0 <= t < c.len() - 1 implies g(#[trigger] c[t], c[t + 1]) by {
                assert(h(c[t], c[t + 1]));
            }
            assert(is_cycle(g, c));
        }
    }
}

/// The entries of the first `k` columns of `L` and the edges that are left make up the edges of the
/// matrix, and what has filled in.
proof fn lemma_entries_and_edges<T: Scalar>(a: Seq<Seq<(int, T)>>, order: Seq<int>, k: int)
    requires
        csc::is_upper(a),
        ordering::is_permutation(a.len() as int, order),
        0 <= k <= a.len(),
    ensures
        outcome::entry_count(model::factors(permute::permuted(a, order), a.len() as int), k)
            + edge_count(graph::eliminate_all(csc::graph_of(a), order.take(k)), a.len() as int)
            >= edge_count(csc::graph_of(a), a.len() as int),
        is_forest(csc::graph_of(a)) && ordering::is_min_degree_order(
            a.len() as int,
            csc::graph_of(a),
            order,
        ) ==> {
            &&& is_forest(graph::eliminate_all(csc::graph_of(a), order.take(k)))
            &&& outcome::entry_count(
                model::factors(permute::permuted(a, order), a.len() as int),
                k,
            ) + edge_count(
                graph::eliminate_all(csc::graph_of(a), order.take(k)),
                a.len() as int,
            ) == edge_count(csc::graph_of(a), a.len() as int)
        },
    decreases k,
{
    let n = a.len() as int;
    let g = csc::graph_of(a);
    csc::lemma_graph_of(a);
    if k == 0 {
        assert(order.take(0).len() == 0);
    } else {
        lemma_entries_and_edges(a, order, k - 1);
        let done = order.take(k - 1);
        let left = graph::eliminate_all(g, done);
        let u = order[k - 1];
        assert(order.take(k).drop_last() =~= done);
        assert(order.take(k).last() == u);
        assert(order.contains(u));
        graph::lemma_eliminate_all_is_graph(n, g, done);
        structure::law_column_is_as_long_as_its_node_has_neighbours(a, order, k - 1);
        lemma_edges_after_elimination(n, left, u);
        if is_forest(g) && ordering::is_min_degree_order(n, g, order) {
            assert(ordering::is_next(n, left, done, order[k - 1]));
            assert forall|x: int, y: int| done.contains(x) implies !#[trigger] left(x, y) by {
                graph::lemma_eliminated_node_is_isolated(n, g, done, x, y);
            }
            lemma_next_of_forest(n, left, done, u);
            lemma_forest_after(left, graph::eliminate(left, u));
        }
    }
}

/// When every node is eliminated, no edge is left.
proof fn lemma_no_edge_left(n: int, g: graph::Graph, order: Seq<int>)
    requires
        graph::is_graph(n, g),
        ordering::is_permutation(n, order),
    ensures
        edge_count(graph::eliminate_all(g, order), n) == 0,
{
    let left = graph::eliminate_all(g, order);
    let none: graph::Graph = |x: int, y: int| false;
    assert forall|x: int, y: int| 0 <= x < y < n implies #[trigger] left(x, y) == none(x, y) by {
        assert(order.contains(x));
        graph::lemma_eliminated_node_is_isolated(n, g, order, x, y);
    }
    lemma_edge_count_same(left, none, n);
    lemma_no_edges(n);
}

proof fn lemma_no_edges(k: int)
    ensures
        edge_count(|x: int, y: int| false, k) == 0,
    decreases k,
{
    if k > 0 {
        let none: graph::Graph = |x: int, y: int| false;
        lemma_no_edges(k - 1);
        graph::lemma_count_same(k - 1, |u: int| none(u, k - 1), |x: int| false);
        lemma_count_none(k - 1);
    }
}

/// Whatever the elimination order, `L` has at least one entry for each edge of the graph of the
/// matrix.
pub proof fn law_factors_have_an_entry_for_each_edge<T: Scalar>(
    a: Seq<Seq<(int, T)>>,
    order: Seq<int>,
)
    requires
        csc::is_upper(a),
        ordering::is_permutation(a.len() as int, order),
    ensures
        outcome::entry_count(
            model::factors(permute::permuted(a, order), a.len() as int),
            a.len() as int,
        ) >= edge_count(csc::graph_of(a), a.len() as int),
{
    let n = a.len() as int;
    lemma_entries_and_edges(a, order, n);
    csc::lemma_graph_of(a);
    assert(order.take(n) =~= order);
    lemma_no_edge_left(n, csc::graph_of(a), order);
}

/// A minimum degree order of a forest, such as a tridiagonal matrix is, creates no fill at all: `L`
/// has as many entries as the forest has edges, so no order has fewer.
pub proof fn law_forest_is_ordered_without_fill<T: Scalar>(
    a: Seq<Seq<(int, T)>>,
    order: Seq<int>,
    other: Seq<int>,
)
    requires
        csc::is_upper(a),
        is_forest(csc::graph_of(a)),
        ordering::is_min_degree_order(a.len() as int, csc::graph_of(a), order),
        ordering::is_permutation(a.len() as int, other),
    ensures
        outcome::entry_count(
            model::factors(permute::permuted(a, order), a.len() as int),
            a.len() as int,
        ) == edge_count(csc::graph_of(a), a.len() as int),
        outcome::entry_count(
            model::factors(permute::permuted(a, order), a.len() as int),
            a.len() as int,
        ) <= outcome::entry_count(
            model::factors(permute::permuted(a, other), a.len() as int),
            a.len() as int,
        ),
{
    let n = a.len() as int;
    structure::law_min_degree_order_is_a_permutation(n, csc::graph_of(a), order);
    lemma_entries_and_edges(a, order, n);
    csc::lemma_graph_of(a);
    assert(order.take(n) =~= order);
    lemma_no_edge_left(n, csc::graph_of(a), order);
    law_factors_have_an_entry_for_each_edge(a, other);
}

} // verus!
