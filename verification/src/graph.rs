//! Elimination graphs: what eliminating the nodes of a symmetric pattern one after the other does
//! to the pattern, and the elimination tree that summarises it.
//!
//! A graph is a symmetric relation on the nodes `0..n`. Eliminating a node joins all of its
//! neighbours to one another and drops the node. Eliminating `0, 1, 2, ..` in this order gives the
//! structure of the factor `L`: entry `(k, i)` of `L` is present where `i` and `k` are neighbours
//! at the moment when `i` is eliminated ([`fills`]).
use vstd::prelude::*;

verus! {

/// An undirected graph, as its neighbour relation.
pub type Graph = spec_fn(int, int) -> bool;

/// The relation joins different nodes of `0..n`, in both directions.
pub open spec fn is_graph(n: int, g: Graph) -> bool {
    &&& forall|u: int, v: int| #[trigger] g(u, v) ==> 0 <= u < n && 0 <= v < n && u != v && g(v, u)
}

/// The graph that is left when node `i` is eliminated: its neighbours become neighbours of one
/// another, and it has no neighbour any more.
pub open spec fn eliminate(g: Graph, i: int) -> Graph {
    |u: int, v: int| u != v && u != i && v != i && (g(u, v) || (g(i, u) && g(i, v)))
}

/// The graph that is left when the nodes of `nodes` are eliminated in order.
pub open spec fn eliminate_all(g: Graph, nodes: Seq<int>) -> Graph
    decreases nodes.len(),
{
    if nodes.len() == 0 {
        g
    } else {
        eliminate(eliminate_all(g, nodes.drop_last()), nodes.last())
    }
}

/// The graph that is left when the nodes `0..t` are eliminated in order.
pub open spec fn eliminate_below(g: Graph, t: int) -> Graph
    decreases t,
{
    if t <= 0 {
        g
    } else {
        eliminate(eliminate_below(g, t - 1), t - 1)
    }
}

/// Whether `L` has an entry in row `k` of column `i`: `k` is a later node that is a neighbour of
/// `i` when `i` is eliminated, the nodes being eliminated in the order of their numbers.
pub open spec fn fills(g: Graph, i: int, k: int) -> bool {
    0 <= i < k && eliminate_below(g, i)(i, k)
}

/// The parent of `i` in the elimination tree: the first row of column `i` of `L`, found by looking
/// through the rows `k..n`; `n` where there is none.
pub open spec fn first_fill(n: int, g: Graph, i: int, k: int) -> int
    decreases n - k,
{
    if k >= n {
        n
    } else if fills(g, i, k) {
        k
    } else {
        first_fill(n, g, i, k + 1)
    }
}

/// The parent of `i` in the elimination tree: the first row of column `i` of `L`, `n` at a root.
pub open spec fn parent(n: int, g: Graph, i: int) -> int {
    first_fill(n, g, i, i + 1)
}

/// The number of `x` in `0..n` with `p(x)`.
pub open spec fn count(n: int, p: spec_fn(int) -> bool) -> int
    decreases n,
{
    if n <= 0 {
        0
    } else {
        count(n - 1, p) + if p(n - 1) {
            1int
        } else {
            0
        }
    }
}

/// The number of neighbours of `u`.
pub open spec fn degree(n: int, g: Graph, u: int) -> int {
    count(n, |v: int| g(u, v))
}

/// The number of entries of column `i` of `L` that lie in the rows below `k`.
pub open spec fn column_fill(g: Graph, i: int, k: int) -> int {
    count(k, |r: int| fills(g, i, r))
}

/// Some node `m` below `t` fills both columns' rows `u` and `v`.
pub open spec fn fill_witness(g: Graph, t: int, u: int, v: int) -> bool {
    exists|m: int| 0 <= m < t && #[trigger] fills(g, m, u) && fills(g, m, v)
}

pub proof fn lemma_count_bounds(n: int, p: spec_fn(int) -> bool)
    ensures
        0 <= count(n, p),
        n >= 0 ==> count(n, p) <= n,
    decreases n,
{
    if n > 0 {
        lemma_count_bounds(n - 1, p);
    }
}

pub proof fn lemma_count_same(n: int, p: spec_fn(int) -> bool, q: spec_fn(int) -> bool)
    requires
        forall|x: int| 0 <= x < n ==> p(x) == #[trigger] q(x),
    ensures
        count(n, p) == count(n, q),
    decreases n,
{
    if n > 0 {
        lemma_count_same(n - 1, p, q);
        assert(p(n - 1) == q(n - 1));
    }
}

pub proof fn lemma_count_monotone(m: int, n: int, p: spec_fn(int) -> bool)
    requires
        m <= n,
    ensures
        count(m, p) <= count(n, p),
    decreases n - m,
{
    if m < n {
        lemma_count_monotone(m, n - 1, p);
        lemma_count_bounds(m, p);
    }
}

pub proof fn lemma_count_complement(n: int, p: spec_fn(int) -> bool, q: spec_fn(int) -> bool)
    requires
        n >= 0,
        forall|i: int| 0 <= i < n ==> #[trigger] q(i) == !p(i),
    ensures
        count(n, p) + count(n, q) == n,
    decreases n,
{
    if n > 0 {
        lemma_count_complement(n - 1, p, q);
        assert(q(n - 1) == !p(n - 1));
    }
}

pub proof fn lemma_count_all(n: int, p: spec_fn(int) -> bool)
    requires
        n >= 0,
        forall|x: int| 0 <= x < n ==> #[trigger] p(x),
    ensures
        count(n, p) == n,
    decreases n,
{
    if n > 0 {
        lemma_count_all(n - 1, p);
    }
}

/// What all of `0..n` satisfy, each of them does.
pub proof fn lemma_count_full(n: int, p: spec_fn(int) -> bool, x: int)
    requires
        count(n, p) == n,
        0 <= x < n,
    ensures
        p(x),
    decreases n,
{
    lemma_count_bounds(n - 1, p);
    if x < n - 1 {
        lemma_count_full(n - 1, p, x);
    }
}

/// A sequence without duplicates that holds exactly the `x` in `0..n` with `p(x)` has `count(n, p)`
/// elements.
pub proof fn lemma_count_of_listing(n: int, p: spec_fn(int) -> bool, s: Seq<int>)
    requires
        s.no_duplicates(),
        forall|x: int| #[trigger] s.contains(x) <==> 0 <= x < n && p(x),
    ensures
        s.len() == count(n, p),
    decreases n,
{
    if n <= 0 {
        if s.len() > 0 {
            assert(s.contains(s[0]));
        }
    } else if p(n - 1) {
        assert(s.contains(n - 1));
        let t = choose|t: int| 0 <= t < s.len() && s[t] == n - 1;
        let rest = s.remove(t);
        assert forall|x: int| #[trigger] rest.contains(x) implies 0 <= x < n - 1 && p(x) by {
            let w = choose|w: int| 0 <= w < rest.len() && rest[w] == x;
            let w2 = if w < t { w } else { w + 1 };
            assert(s[w2] == x);
            assert(s.contains(x));
        }
        assert forall|x: int| 0 <= x < n - 1 && p(x) implies #[trigger] rest.contains(x) by {
            assert(s.contains(x));
            let w = choose|w: int| 0 <= w < s.len() && s[w] == x;
            let w2 = if w < t { w } else { w - 1 };
            assert(rest[w2] == x);
        }
        assert(rest.no_duplicates());
        lemma_count_of_listing(n - 1, p, rest);
    } else {
        assert forall|x: int| #[trigger] s.contains(x) <==> 0 <= x < n - 1 && p(x) by {
            if s.contains(x) && x == n - 1 {
                assert(p(n - 1));
            }
        }
        lemma_count_of_listing(n - 1, p, s);
    }
}

/// A list without repetitions that names every `x` with `p(x)` gives the same count.
pub proof fn lemma_count_by_listing(n: int, p: spec_fn(int) -> bool, s: Seq<int>)
    requires
        s.no_duplicates(),
        forall|t: int| 0 <= t < s.len() ==> 0 <= #[trigger] s[t] < n,
        forall|x: int| 0 <= x < n && #[trigger] p(x) ==> s.contains(x),
    ensures
        count(s.len() as int, |t: int| p(s[t])) == count(n, p),
    decreases n,
{
    if n <= 0 {
        if s.len() > 0 {
            assert(0 <= s[0] < n);
        }
    } else if s.contains(n - 1) {
        let w = choose|w: int| 0 <= w < s.len() && s[w] == n - 1;
        let rest = s.remove(w);
        assert forall|t: int| 0 <= t < rest.len() implies 0 <= #[trigger] rest[t] < n - 1 by {
            let t2 = if t < w {
                t
            } else {
                t + 1
            };
            assert(rest[t] == s[t2]);
            assert(s[t2] != s[w]);
        }
        assert forall|x: int| 0 <= x < n - 1 && #[trigger] p(x) implies rest.contains(x) by {
            let t = choose|t: int| 0 <= t < s.len() && s[t] == x;
            let t2 = if t < w {
                t
            } else {
                t - 1
            };
            assert(rest[t2] == x);
        }
        lemma_count_by_listing(n - 1, p, rest);
        lemma_count_remove(s, w, p);
    } else {
        assert forall|t: int| 0 <= t < s.len() implies 0 <= #[trigger] s[t] < n - 1 by {
            assert(s.contains(s[t]));
        }
        assert(!p(n - 1));
        lemma_count_by_listing(n - 1, p, s);
    }
}

/// Taking one element out of a list takes it out of the count.
proof fn lemma_count_remove(s: Seq<int>, w: int, p: spec_fn(int) -> bool)
    requires
        0 <= w < s.len(),
    ensures
        count(s.len() as int, |t: int| p(s[t])) == count(
            s.len() - 1,
            |t: int| p(s.remove(w)[t]),
        ) + if p(s[w]) {
            1int
        } else {
            0
        },
    decreases s.len(),
{
    let n = s.len() as int;
    let g = |t: int| p(s[t]);
    let h = |t: int| p(s.remove(w)[t]);
    if w == n - 1 {
        lemma_count_same(n - 1, g, h);
    } else {
        let init = s.drop_last();
        lemma_count_remove(init, w, p);
        lemma_count_same(n - 1, g, |t: int| p(init[t]));
        lemma_count_same(n - 2, h, |t: int| p(init.remove(w)[t]));
        assert(s.remove(w)[n - 2] == s[n - 1]);
    }
}

pub proof fn lemma_eliminate_is_graph(n: int, g: Graph, i: int)
    requires
        is_graph(n, g),
    ensures
        is_graph(n, eliminate(g, i)),
{
    let h = eliminate(g, i);
    assert forall|u: int, v: int| #[trigger] h(u, v) implies 0 <= u < n && 0 <= v < n && u != v
        && h(v, u) by {
        if g(u, v) {
            assert(g(v, u));
        } else {
            assert(g(i, u) && g(i, v));
        }
    }
}

pub proof fn lemma_eliminate_all_is_graph(n: int, g: Graph, nodes: Seq<int>)
    requires
        is_graph(n, g),
    ensures
        is_graph(n, eliminate_all(g, nodes)),
    decreases nodes.len(),
{
    if nodes.len() > 0 {
        lemma_eliminate_all_is_graph(n, g, nodes.drop_last());
        lemma_eliminate_is_graph(n, eliminate_all(g, nodes.drop_last()), nodes.last());
    }
}

pub proof fn lemma_eliminate_below_is_graph(n: int, g: Graph, t: int)
    requires
        is_graph(n, g),
    ensures
        is_graph(n, eliminate_below(g, t)),
    decreases t,
{
    if t > 0 {
        lemma_eliminate_below_is_graph(n, g, t - 1);
        lemma_eliminate_is_graph(n, eliminate_below(g, t - 1), t - 1);
    }
}

/// An eliminated node has no neighbour.
pub proof fn lemma_eliminated_node_is_isolated(n: int, g: Graph, nodes: Seq<int>, u: int, v: int)
    requires
        is_graph(n, g),
        nodes.contains(u),
    ensures
        !eliminate_all(g, nodes)(u, v),
        !eliminate_all(g, nodes)(v, u),
    decreases nodes.len(),
{
    let h = eliminate_all(g, nodes.drop_last());
    lemma_eliminate_all_is_graph(n, g, nodes.drop_last());
    if u != nodes.last() {
        let t = choose|t: int| 0 <= t < nodes.len() && nodes[t] == u;
        assert(nodes.drop_last()[t] == u);
        lemma_eliminated_node_is_isolated(n, g, nodes.drop_last(), u, v);
        lemma_eliminated_node_is_isolated(n, g, nodes.drop_last(), u, nodes.last());
    }
}

/// Between two nodes that are still there, the nodes eliminated so far leave an edge where there
/// was one to begin with, or where some eliminated node fills both.
pub proof fn lemma_edges_after(n: int, g: Graph, t: int, u: int, v: int)
    requires
        is_graph(n, g),
        0 <= t <= u,
        t <= v,
        u != v,
    ensures
        eliminate_below(g, t)(u, v) <==> g(u, v) || fill_witness(g, t, u, v),
    decreases t,
{
    if t > 0 {
        let h = eliminate_below(g, t - 1);
        lemma_edges_after(n, g, t - 1, u, v);
        assert(eliminate_below(g, t)(u, v) <==> h(u, v) || (h(t - 1, u) && h(t - 1, v)));
        assert(fills(g, t - 1, u) <==> h(t - 1, u));
        assert(fills(g, t - 1, v) <==> h(t - 1, v));
        if fill_witness(g, t, u, v) {
            let m = choose|m: int| 0 <= m < t && #[trigger] fills(g, m, u) && fills(g, m, v);
            if m < t - 1 {
                assert(fill_witness(g, t - 1, u, v));
            }
        }
        if fill_witness(g, t - 1, u, v) {
            let m = choose|m: int| 0 <= m < t - 1 && #[trigger] fills(g, m, u) && fills(g, m, v);
            assert(fills(g, m, u) && fills(g, m, v));
        }
    }
}

/// The entries of `L`: those of the matrix, and those that an earlier column with both rows makes.
pub proof fn lemma_fills(n: int, g: Graph, i: int, k: int)
    requires
        is_graph(n, g),
        0 <= i < k,
    ensures
        fills(g, i, k) <==> g(i, k) || fill_witness(g, i, i, k),
{
    lemma_edges_after(n, g, i, i, k);
}

pub proof fn lemma_fills_bounds(n: int, g: Graph, i: int, k: int)
    requires
        is_graph(n, g),
        fills(g, i, k),
    ensures
        0 <= i < k < n,
{
    lemma_eliminate_below_is_graph(n, g, i);
}

/// Two rows of one column of `L` fill each other.
pub proof fn lemma_fills_join(n: int, g: Graph, m: int, i: int, k: int)
    requires
        is_graph(n, g),
        fills(g, m, i),
        fills(g, m, k),
        i < k,
    ensures
        fills(g, i, k),
{
    lemma_fills(n, g, i, k);
    assert(fill_witness(g, i, i, k));
}

pub proof fn lemma_first_fill(n: int, g: Graph, i: int, k: int)
    requires
        0 <= i < k <= n,
    ensures
        k <= first_fill(n, g, i, k) <= n,
        first_fill(n, g, i, k) < n ==> fills(g, i, first_fill(n, g, i, k)),
        forall|r: int| k <= r < first_fill(n, g, i, k) ==> !#[trigger] fills(g, i, r),
    decreases n - k,
{
    if k < n && !fills(g, i, k) {
        lemma_first_fill(n, g, i, k + 1);
    }
}

/// The parent is the first row of the column.
pub proof fn lemma_parent(n: int, g: Graph, i: int)
    requires
        0 <= i < n,
    ensures
        i < parent(n, g, i) <= n,
        parent(n, g, i) < n ==> fills(g, i, parent(n, g, i)),
        forall|r: int| i < r < parent(n, g, i) ==> !#[trigger] fills(g, i, r),
{
    lemma_first_fill(n, g, i, i + 1);
}

/// The parent of a node of row `k` is `k` or a node of row `k`.
pub proof fn lemma_parent_fills(n: int, g: Graph, i: int, k: int)
    requires
        is_graph(n, g),
        fills(g, i, k),
    ensures
        i < parent(n, g, i) <= k,
        fills(g, i, parent(n, g, i)),
        parent(n, g, i) < k ==> fills(g, parent(n, g, i), k),
{
    lemma_fills_bounds(n, g, i, k);
    lemma_parent(n, g, i);
    if parent(n, g, i) < k {
        lemma_fills_join(n, g, i, parent(n, g, i), k);
    }
}

/// A set of nodes that holds the neighbours of `k` below `k`, and with each node its parent where
/// that is below `k`, holds every node of row `k`.
pub proof fn lemma_row_closure(n: int, g: Graph, k: int, s: spec_fn(int) -> bool, i: int)
    requires
        is_graph(n, g),
        forall|j: int| 0 <= j < k && #[trigger] g(j, k) ==> s(j),
        forall|j: int|
            0 <= j < k && #[trigger] s(j) && fills(g, j, k) && parent(n, g, j) < k ==> s(
                parent(n, g, j),
            ),
        fills(g, i, k),
    ensures
        s(i),
    decreases i,
{
    lemma_fills(n, g, i, k);
    if !g(i, k) {
        let m = choose|m: int| 0 <= m < i && #[trigger] fills(g, m, i) && fills(g, m, k);
        lemma_row_closure(n, g, k, s, m);
        lemma_ancestor_closure(n, g, k, s, m, i);
    }
}

/// A set of row nodes that is closed under parents holds with `m` every row of column `m` that is
/// below `k`.
pub proof fn lemma_ancestor_closure(
    n: int,
    g: Graph,
    k: int,
    s: spec_fn(int) -> bool,
    m: int,
    i: int,
)
    requires
        is_graph(n, g),
        forall|j: int|
            0 <= j < k && #[trigger] s(j) && fills(g, j, k) && parent(n, g, j) < k ==> s(
                parent(n, g, j),
            ),
        fills(g, m, k),
        fills(g, m, i),
        i < k,
        s(m),
    ensures
        s(i),
    decreases i - m,
{
    lemma_parent_fills(n, g, m, i);
    lemma_parent_fills(n, g, m, k);
    let q = parent(n, g, m);
    assert(s(q));
    if q < i {
        lemma_ancestor_closure(n, g, k, s, q, i);
    }
}

} // verus!
