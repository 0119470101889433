//! Fill-in and degrees by paths in the graph of the matrix.
//!
//! `L` has an entry in row `k` of column `i` exactly where a path leads from `i` to `k` whose inner
//! nodes are all below `i`, and a node of the graph that eliminations leave has as neighbours the
//! nodes that it reaches through eliminated ones.
use vstd::prelude::*;

use crate::csc;
use crate::graph;
use crate::laws::structure;
use crate::model;
use crate::ordering;
use crate::scalar::Scalar;

verus! {

/// `p` leads from `u` to `v`, each node a neighbour of the next one, all inner nodes satisfying
/// `through`.
pub open spec fn is_path(
    g: graph::Graph,
    through: spec_fn(int) -> bool,
    p: Seq<int>,
    u: int,
    v: int,
) -> bool {
    &&& p.len() >= 2
    &&& p[0] == u
    &&& p[p.len() - 1] == v
    &&& forall|t: int| 0 <= t < p.len() - 1 ==> g(#[trigger] p[t], p[t + 1])
    &&& forall|t: int| 0 < t < p.len() - 1 ==> through(#[trigger] p[t])
}

/// Some path leads from `u` to `v` through nodes that satisfy `through`.
pub open spec fn reaches(
    g: graph::Graph,
    through: spec_fn(int) -> bool,
    u: int,
    v: int,
) -> bool {
    exists|p: Seq<int>| is_path(g, through, p, u, v)
}

/// Two paths that meet at a node are one path.
proof fn lemma_join(
    g: graph::Graph,
    through: spec_fn(int) -> bool,
    p: Seq<int>,
    q: Seq<int>,
    u: int,
    m: int,
    v: int,
)
    requires
        is_path(g, through, p, u, m),
        is_path(g, through, q, m, v),
        through(m),
    ensures
        reaches(g, through, u, v),
{
    let w = p + q.drop_first();
    let len = p.len() as int;
    assert forall|t: int| len <= t < w.len() implies #[trigger] w[t] == q[t - len + 1] by {}
    assert forall|t: int| 0 <= t < w.len() - 1 implies g(#[trigger] w[t], w[t + 1]) by {
        if t < len - 1 {
            assert(g(p[t], p[t + 1]));
        } else if t == len - 1 {
            assert(g(q[0], q[0int + 1]));
        } else {
            assert(g(q[t - len + 1], q[t - len + 1 + 1]));
        }
    }
    assert forall|t: int| 0 < t < w.len() - 1 implies through(#[trigger] w[t]) by {
        if t < len - 1 {
            assert(through(p[t]));
        } else if t >= len {
            assert(through(q[t - len + 1]));
        }
    }
    assert(is_path(g, through, w, u, v));
}

proof fn lemma_weaken(
    g: graph::Graph,
    a: spec_fn(int) -> bool,
    b: spec_fn(int) -> bool,
    p: Seq<int>,
    u: int,
    v: int,
)
    requires
        is_path(g, a, p, u, v),
        forall|t: int| 0 < t < p.len() - 1 ==> b(#[trigger] p[t]),
    ensures
        is_path(g, b, p, u, v),
        reaches(g, b, u, v),
{
    assert(is_path(g, b, p, u, v));
}

proof fn lemma_sub_path(
    g: graph::Graph,
    through: spec_fn(int) -> bool,
    p: Seq<int>,
    u: int,
    v: int,
    lo: int,
    hi: int,
)
    requires
        is_path(g, through, p, u, v),
        0 <= lo < hi < p.len(),
    ensures
        is_path(g, through, p.subrange(lo, hi + 1), p[lo], p[hi]),
{
    let q = p.subrange(lo, hi + 1);
    assert forall|t: int| 0 <= t < q.len() - 1 implies g(#[trigger] q[t], q[t + 1]) by {
        assert(g(p[lo + t], p[lo + t + 1]));
    }
    assert forall|t: int| 0 < t < q.len() - 1 implies through(#[trigger] q[t]) by {
        assert(through(p[lo + t]));
    }
}

proof fn lemma_last_of(p: Seq<int>, m: int, k: int) -> (t: int)
    requires
        0 <= k < p.len(),
        p[k] == m,
    ensures
        k <= t < p.len(),
        p[t] == m,
        forall|s: int| t < s < p.len() ==> #[trigger] p[s] != m,
    decreases p.len() - k,
{
    if exists|s: int| k < s < p.len() && #[trigger] p[s] == m {
        let s = choose|s: int| k < s < p.len() && #[trigger] p[s] == m;
        lemma_last_of(p, m, s)
    } else {
        k
    }
}

proof fn lemma_first_of(p: Seq<int>, m: int, k: int) -> (t: int)
    requires
        0 <= k < p.len(),
        p[k] == m,
    ensures
        0 <= t <= k,
        p[t] == m,
        forall|s: int| 0 <= s < t ==> #[trigger] p[s] != m,
    decreases k,
{
    if exists|s: int| 0 <= s < k && #[trigger] p[s] == m {
        let s = choose|s: int| 0 <= s < k && #[trigger] p[s] == m;
        lemma_first_of(p, m, s)
    } else {
        k
    }
}

/// Two nodes that are left are neighbours after eliminations exactly where a path through
/// eliminated nodes joins them.
pub proof fn law_eliminations_leave_paths(
    n: int,
    g: graph::Graph,
    nodes: Seq<int>,
    u: int,
    v: int,
)
    requires
        graph::is_graph(n, g),
        !nodes.contains(u),
        !nodes.contains(v),
        u != v,
    ensures
        graph::eliminate_all(g, nodes)(u, v) <==> reaches(g, |x: int| nodes.contains(x), u, v),
    decreases nodes.len(),
{
    let through = |x: int| nodes.contains(x);
    if nodes.len() == 0 {
        if g(u, v) {
            let p = seq![u, v];
            assert(g(p[0], p[0int + 1]));
            assert(is_path(g, through, p, u, v));
        }
        if reaches(g, through, u, v) {
            let p = choose|p: Seq<int>| is_path(g, through, p, u, v);
            if p.len() > 2 {
                assert(through(p[1]));
            }
            assert(g(p[0], p[0int + 1]));
        }
    } else {
        let init = nodes.drop_last();
        let m = nodes.last();
        let h = graph::eliminate_all(g, init);
        let inner = |x: int| init.contains(x);
        graph::lemma_eliminate_all_is_graph(n, g, init);
        assert forall|x: int| #[trigger] nodes.contains(x) <==> init.contains(x) || x == m by {
            if nodes.contains(x) {
                let t = choose|t: int| 0 <= t < nodes.len() && nodes[t] == x;
                if t < init.len() {
                    assert(init[t] == x);
                }
            }
            if init.contains(x) {
                let t = choose|t: int| 0 <= t < init.len() && init[t] == x;
                assert(nodes[t] == x);
            }
            assert(nodes[nodes.len() - 1] == m);
        }
        law_eliminations_leave_paths(n, g, init, u, v);
        if !init.contains(m) {
            law_eliminations_leave_paths(n, g, init, u, m);
            law_eliminations_leave_paths(n, g, init, m, v);
        }
        if graph::eliminate_all(g, nodes)(u, v) {
            if h(u, v) {
                let p = choose|p: Seq<int>| is_path(g, inner, p, u, v);
                assert forall|t: int| 0 < t < p.len() - 1 implies through(#[trigger] p[t]) by {
                    assert(inner(p[t]));
                }
                lemma_weaken(g, inner, through, p, u, v);
            } else {
                assert(h(m, u) && h(m, v));
                if init.contains(m) {
                    graph::lemma_eliminated_node_is_isolated(n, g, init, m, u);
                }
                assert(h(u, m));
                let p = choose|p: Seq<int>| is_path(g, inner, p, u, m);
                let q = choose|q: Seq<int>| is_path(g, inner, q, m, v);
                assert forall|t: int| 0 < t < p.len() - 1 implies through(#[trigger] p[t]) by {
                    assert(inner(p[t]));
                }
                assert forall|t: int| 0 < t < q.len() - 1 implies through(#[trigger] q[t]) by {
                    assert(inner(q[t]));
                }
                lemma_weaken(g, inner, through, p, u, m);
                lemma_weaken(g, inner, through, q, m, v);
                assert(nodes.contains(m));
                lemma_join(g, through, p, q, u, m, v);
            }
        }
        if reaches(g, through, u, v) {
            let p = choose|p: Seq<int>| is_path(g, through, p, u, v);
            let end = p.len() - 1;
            if init.contains(m) || forall|t: int| 0 < t < end ==> #[trigger] p[t] != m {
                assert forall|t: int| 0 < t < p.len() - 1 implies inner(#[trigger] p[t]) by {
                    assert(through(p[t]));
                }
                lemma_weaken(g, through, inner, p, u, v);
                assert(h(u, v));
            } else {
                let k = choose|k: int| 0 < k < end && #[trigger] p[k] == m;
                let lo = lemma_first_of(p, m, k);
                let hi = lemma_last_of(p, m, k);
                assert(nodes.contains(m));
                assert(lo > 0 && hi < end);
                let q = p.subrange(0, lo + 1);
                let r = p.subrange(hi, end + 1);
                lemma_sub_path(g, through, p, u, v, 0, lo);
                lemma_sub_path(g, through, p, u, v, hi, end);
                assert forall|t: int| 0 < t < q.len() - 1 implies inner(#[trigger] q[t]) by {
                    assert(through(p[t]));
                    assert(p[t] != m);
                }
                assert forall|t: int| 0 < t < r.len() - 1 implies inner(#[trigger] r[t]) by {
                    assert(through(p[hi + t]));
                    assert(p[hi + t] != m);
                }
                lemma_weaken(g, through, inner, q, u, m);
                lemma_weaken(g, through, inner, r, m, v);
                assert(h(u, m));
                assert(h(m, v));
                assert(h(m, u));
            }
        }
    }
}

proof fn lemma_eliminate_below(g: graph::Graph, t: int)
    requires
        0 <= t,
    ensures
        graph::eliminate_below(g, t) == graph::eliminate_all(g, Seq::new(t as nat, |i: int| i)),
    decreases t,
{
    let s = Seq::new(t as nat, |i: int| i);
    if t > 0 {
        lemma_eliminate_below(g, t - 1);
        assert(s.drop_last() =~= Seq::new((t - 1) as nat, |i: int| i));
        assert(s.last() == t - 1);
    } else {
        assert(s.len() == 0);
    }
}

/// Column `hi` of the matrix stores row `lo`, above the diagonal.
pub open spec fn stores_above<T>(a: Seq<Seq<(int, T)>>, lo: int, hi: int) -> bool {
    &&& 0 <= lo < hi < a.len()
    &&& exists|t: int| 0 <= t < a[hi].len() && (#[trigger] a[hi][t]).0 == lo
}

/// The matrix stores something for the rows `u` and `v`, which differ.
pub open spec fn stores<T>(a: Seq<Seq<(int, T)>>, u: int, v: int) -> bool {
    stores_above(a, u, v) || stores_above(a, v, u)
}

proof fn lemma_stores_above<T>(a: Seq<Seq<(int, T)>>, lo: int, hi: int)
    requires
        0 <= lo < hi < a.len(),
    ensures
        stores_above(a, lo, hi) == (csc::values_at(a[hi], lo).len() > 0),
{
    let col = a[hi];
    if csc::values_at(col, lo).len() > 0 {
        model::lemma_values_at_row(col, lo);
        let t = choose|t: int| 0 <= t < col.len() && (#[trigger] col[t]).0 == lo;
        assert(a[hi][t].0 == lo);
    }
    if stores_above(a, lo, hi) {
        let t = choose|t: int| 0 <= t < a[hi].len() && (#[trigger] a[hi][t]).0 == lo;
        csc::lemma_values_at_nonempty(col, t);
    }
}

proof fn lemma_stores<T>(a: Seq<Seq<(int, T)>>, u: int, v: int)
    ensures
        csc::graph_of(a)(u, v) == stores(a, u, v),
{
    if 0 <= u < v < a.len() {
        lemma_stores_above(a, u, v);
    }
    if 0 <= v < u < a.len() {
        lemma_stores_above(a, v, u);
    }
}

/// `L` has an entry in row `r` of column `i` exactly where a path of stored entries leads from `i`
/// to `r` through rows below `i` alone.
pub proof fn law_entries_of_l_are_paths<T: Scalar>(a: Seq<Seq<(int, T)>>, r: int, i: int)
    requires
        csc::is_upper(a),
        0 <= r < a.len(),
        0 <= i < a.len(),
    ensures
        (model::factors(a, a.len() as int).lower)(r, i) is Some <==> i < r && reaches(
            |u: int, v: int| stores(a, u, v),
            |x: int| 0 <= x < i,
            i,
            r,
        ),
{
    let n = a.len() as int;
    let g = csc::graph_of(a);
    let st = |u: int, v: int| stores(a, u, v);
    let below = |x: int| 0 <= x < i;
    let nodes = Seq::new(i as nat, |t: int| t);
    let through = |x: int| nodes.contains(x);
    model::lemma_factors_shape(a, n);
    csc::lemma_graph_of(a);
    assert forall|u: int, v: int| #[trigger] g(u, v) == st(u, v) by {
        lemma_stores(a, u, v);
    }
    assert forall|x: int| #[trigger] nodes.contains(x) <==> 0 <= x < i by {
        if 0 <= x < i {
            assert(nodes[x] == x);
        }
    }
    if i < r {
        lemma_eliminate_below(g, i);
        law_eliminations_leave_paths(n, g, nodes, i, r);
        if reaches(g, through, i, r) {
            let p = choose|p: Seq<int>| is_path(g, through, p, i, r);
            assert forall|t: int| 0 <= t < p.len() - 1 implies st(#[trigger] p[t], p[t + 1]) by {
                assert(g(p[t], p[t + 1]));
            }
            assert forall|t: int| 0 < t < p.len() - 1 implies below(#[trigger] p[t]) by {
                assert(through(p[t]));
            }
            assert(is_path(st, below, p, i, r));
        }
        if reaches(st, below, i, r) {
            let p = choose|p: Seq<int>| is_path(st, below, p, i, r);
            assert forall|t: int| 0 <= t < p.len() - 1 implies g(#[trigger] p[t], p[t + 1]) by {
                assert(st(p[t], p[t + 1]));
                assert(g(p[t], p[t + 1]) == st(p[t], p[t + 1]));
            }
            assert forall|t: int| 0 < t < p.len() - 1 implies through(#[trigger] p[t]) by {
                assert(below(p[t]));
            }
            assert(is_path(g, through, p, i, r));
        }
    } else if graph::fills(g, i, r) {
        graph::lemma_fills_bounds(n, g, i, r);
    }
}

/// `list` holds the nodes that `u` reaches through `done`, other than itself and those, each once.
pub open spec fn lists_reach(
    n: int,
    g: graph::Graph,
    done: Seq<int>,
    u: int,
    list: Seq<int>,
) -> bool {
    &&& list.no_duplicates()
    &&& forall|v: int| #[trigger]
        list.contains(v) <==> 0 <= v < n && v != u && !done.contains(v) && reaches(
            g,
            |x: int| done.contains(x),
            u,
            v,
        )
}

proof fn lemma_degree_is_reach(
    n: int,
    g: graph::Graph,
    done: Seq<int>,
    u: int,
    list: Seq<int>,
)
    requires
        graph::is_graph(n, g),
        !done.contains(u),
        lists_reach(n, g, done, u, list),
    ensures
        graph::degree(n, graph::eliminate_all(g, done), u) == list.len(),
{
    let left = graph::eliminate_all(g, done);
    let p = |v: int| left(u, v);
    graph::lemma_eliminate_all_is_graph(n, g, done);
    assert forall|v: int| #[trigger] list.contains(v) <==> 0 <= v < n && p(v) by {
        if done.contains(v) {
            graph::lemma_eliminated_node_is_isolated(n, g, done, v, u);
        } else if v != u {
            law_eliminations_leave_paths(n, g, done, u, v);
        }
    }
    graph::lemma_count_of_listing(n, p, list);
}

/// A minimum degree order takes, of the nodes that are left, one that reaches the fewest others
/// through the nodes before it, and of several such the one of smallest number.
pub proof fn law_min_degree_order_takes_the_fewest(
    n: int,
    g: graph::Graph,
    order: Seq<int>,
    t: int,
    v: int,
    own: Seq<int>,
    others: Seq<int>,
)
    requires
        graph::is_graph(n, g),
        ordering::is_min_degree_order(n, g, order),
        0 <= t < n,
        0 <= v < n,
        !order.take(t).contains(v),
        lists_reach(n, g, order.take(t), order[t], own),
        lists_reach(n, g, order.take(t), v, others),
    ensures
        order.len() == n,
        0 <= order[t] < n,
        !order.take(t).contains(order[t]),
        own.len() < others.len() || (own.len() == others.len() && order[t] <= v),
{
    let done = order.take(t);
    assert(ordering::is_next(n, graph::eliminate_all(g, done), done, order[t]));
    lemma_degree_is_reach(n, g, done, order[t], own);
    lemma_degree_is_reach(n, g, done, v, others);
}

/// The order lists each node once, and each time takes, of the nodes that are left, one that
/// reaches the fewest others through the nodes before it, of several such the one of smallest
/// number.
pub open spec fn takes_the_fewest(n: int, g: graph::Graph, order: Seq<int>) -> bool {
    &&& order.len() == n
    &&& order.no_duplicates()
    &&& forall|t: int| 0 <= t < n ==> 0 <= #[trigger] order[t] < n
    &&& forall|t: int, v: int, own: Seq<int>, others: Seq<int>|
        0 <= t < n && 0 <= v < n && !order.take(t).contains(v) && #[trigger] lists_reach(
            n,
            g,
            order.take(t),
            order[t],
            own,
        ) && #[trigger] lists_reach(n, g, order.take(t), v, others) ==> own.len() < others.len()
            || (own.len() == others.len() && order[t] <= v)
}

/// A minimum degree order takes the node that reaches the fewest others, at every step.
pub proof fn law_min_degree_order_always_takes_the_fewest(
    n: int,
    g: graph::Graph,
    order: Seq<int>,
)
    requires
        n >= 0,
        graph::is_graph(n, g),
        ordering::is_min_degree_order(n, g, order),
    ensures
        takes_the_fewest(n, g, order),
{
    structure::law_min_degree_order_is_a_permutation(n, g, order);
    assert forall|t: int| 0 <= t < n implies 0 <= #[trigger] order[t] < n by {
        assert(order.contains(order[t]));
    }
    assert forall|t: int, v: int, own: Seq<int>, others: Seq<int>|
        0 <= t < n && 0 <= v < n && !order.take(t).contains(v) && #[trigger] lists_reach(
            n,
            g,
            order.take(t),
            order[t],
            own,
        ) && #[trigger] lists_reach(n, g, order.take(t), v, others) implies own.len()
        < others.len() || (own.len() == others.len() && order[t] <= v) by {
        law_min_degree_order_takes_the_fewest(n, g, order, t, v, own, others);
    }
}

} // verus!
