//! Minimum degree ordering on the quotient graph.
use vstd::prelude::*;

use crate::csc;
use crate::graph;
use crate::laws::paths;

verus! {

/// The column ranges can be read: every index that a column names is one of `row_idx`.
pub open spec fn readable(n: int, col_ptr: Seq<usize>, row_idx: Seq<usize>) -> bool {
    &&& n > 0 ==> col_ptr.len() > n
    &&& forall|k: int|
        0 <= k < n ==> (#[trigger] col_ptr[k] < col_ptr[k + 1] ==> col_ptr[k + 1] <= row_idx.len())
}

/// The next node to eliminate, given the nodes `done` so far and the graph `g` that they left:
/// of the others the one of smallest degree, and of several such the one of smallest number.
pub open spec fn is_next(n: int, g: graph::Graph, done: Seq<int>, u: int) -> bool {
    &&& 0 <= u < n
    &&& !done.contains(u)
    &&& forall|v: int|
        0 <= v < n && !#[trigger] done.contains(v) ==> graph::degree(n, g, u) < graph::degree(n, g, v) || (graph::degree(
            n,
            g,
            u,
        ) == graph::degree(n, g, v) && u <= v)
}

/// `order` eliminates the nodes of `g` by minimum degree: each node is the next one in the graph
/// that the nodes before it leave.
pub open spec fn is_min_degree_order(n: int, g: graph::Graph, order: Seq<int>) -> bool {
    &&& order.len() == n
    &&& forall|t: int|
        #![trigger order[t]]
        0 <= t < n ==> is_next(n, graph::eliminate_all(g, order.take(t)), order.take(t), order[t])
}

/// The numbers of a vector of indices.
pub open spec fn ints(s: Seq<usize>) -> Seq<int> {
    s.map_values(|x: usize| x as int)
}

/// `s` lists each of `0..n` exactly once.
pub open spec fn is_permutation(n: int, s: Seq<int>) -> bool {
    &&& s.len() == n
    &&& s.no_duplicates()
    &&& forall|x: int| #[trigger] s.contains(x) <==> 0 <= x < n
}

/// The list holds `x`.
pub open spec fn holds(s: Seq<usize>, x: int) -> bool {
    exists|t: int| 0 <= t < s.len() && #[trigger] s[t] == x
}

/// No number occurs twice in the list.
pub open spec fn distinct(s: Seq<usize>) -> bool {
    forall|t: int, w: int| 0 <= t < w < s.len() ==> #[trigger] s[t] != #[trigger] s[w]
}

pub proof fn lemma_holds_push(s: Seq<usize>, y: usize)
    ensures
        forall|x: int| #[trigger] holds(s.push(y), x) <==> holds(s, x) || x == y,
{
    assert forall|x: int| #[trigger] holds(s.push(y), x) <==> holds(s, x) || x == y by {
        if holds(s, x) {
            let t = choose|t: int| 0 <= t < s.len() && #[trigger] s[t] == x;
            assert(s.push(y)[t] == x);
        }
        if x == y {
            assert(s.push(y)[s.len() as int] == x);
        }
        if holds(s.push(y), x) {
            let t = choose|t: int| 0 <= t < s.push(y).len() && #[trigger] s.push(y)[t] == x;
            if t < s.len() {
                assert(s[t] == x);
            }
        }
    }
}

/// The quotient graph: what is kept of the elimination so far.
///
/// `adj[u]` are the neighbours that `u` has in the matrix. Eliminating a node turns its
/// neighbourhood into an element: the list `vars[e]` of the nodes that it joined, each of which
/// carries `e` in `elems[u]`. An element whose nodes were all joined by a later one is emptied.
struct Quotient {
    adj: Vec<Vec<usize>>,
    vars: Vec<Vec<usize>>,
    elems: Vec<Vec<usize>>,
    alive: Vec<bool>,
}

/// `u` and `v` are joined by the element `e`.
spec fn joined(vars: Seq<Vec<usize>>, e: int, u: int, v: int) -> bool {
    0 <= e < vars.len() && holds(vars[e]@, u) && holds(vars[e]@, v)
}

/// Every number of the list is below `n`.
spec fn below(s: Seq<usize>, n: int) -> bool {
    forall|t: int| 0 <= t < s.len() ==> #[trigger] s[t] < n
}

impl Quotient {
    /// The lists are in range, and `elems` and `vars` agree for the nodes that are still there.
    spec fn wf(&self, n: int) -> bool {
        &&& self.adj@.len() == n
        &&& self.elems@.len() == n
        &&& self.alive@.len() == n
        &&& forall|u: int| 0 <= u < n ==> below(#[trigger] self.adj@[u]@, n)
        &&& forall|u: int| 0 <= u < n ==> below(#[trigger] self.elems@[u]@, self.vars@.len() as int)
        &&& forall|e: int| 0 <= e < self.vars@.len() ==> below(#[trigger] self.vars@[e]@, n)
        &&& forall|u: int, e: int|
            #![trigger holds(self.vars@[e]@, u)]
            0 <= u < n && self.alive@[u] && 0 <= e < self.vars@.len() && holds(self.vars@[e]@, u)
                ==> holds(self.elems@[u]@, e)
        &&& forall|u: int, e: int|
            #![trigger holds(self.elems@[u]@, e)]
            0 <= u < n && self.alive@[u] && holds(self.elems@[u]@, e) && self.vars@[e]@.len() > 0
                ==> holds(self.vars@[e]@, u)
    }

    /// The neighbour relation that the quotient graph stands for.
    spec fn edge(&self, n: int, u: int, v: int) -> bool {
        &&& 0 <= u < n
        &&& 0 <= v < n
        &&& u != v
        &&& self.alive@[u]
        &&& self.alive@[v]
        &&& holds(self.adj@[u]@, v) || exists|e: int| #[trigger] joined(self.vars@, e, u, v)
    }

    /// Adds to `nb` the nodes of `list` that are still there and not yet marked, and marks them.
    fn collect(&self, n: usize, list: &Vec<usize>, mark: &mut Vec<bool>, nb: &mut Vec<usize>)
        requires
            self.alive@.len() == n,
            below(list@, n as int),
            old(mark)@.len() == n,
            distinct(old(nb)@),
            below(old(nb)@, n as int),
            forall|v: int| #[trigger] holds(old(nb)@, v) ==> old(mark)@[v],
        ensures
            final(mark)@.len() == n,
            distinct(final(nb)@),
            below(final(nb)@, n as int),
            forall|v: int| #[trigger]
                holds(final(nb)@, v) <==> holds(old(nb)@, v) || (holds(list@, v) && self.alive@[v]
                    && !old(mark)@[v]),
            forall|v: int|
                0 <= v < n ==> (#[trigger] final(mark)@[v] <==> old(mark)@[v] || holds(
                    final(nb)@,
                    v,
                )),
    {
        let ghost mark0 = mark@;
        let ghost nb0 = nb@;
        let mut t: usize = 0;
        while t < list.len()
            invariant
                t <= list@.len(),
                self.alive@.len() == n,
                below(list@, n as int),
                mark@.len() == n,
                mark0.len() == n,
                distinct(nb@),
                below(nb@, n as int),
                forall|v: int| #[trigger] holds(nb0, v) ==> mark0[v],
                forall|v: int| #[trigger]
                    holds(nb@, v) <==> holds(nb0, v) || (holds(list@.take(t as int), v) && self.alive@[v]
                        && !mark0[v]),
                forall|v: int|
                    0 <= v < n ==> (#[trigger] mark@[v] <==> mark0[v] || holds(nb@, v)),
            decreases list@.len() - t,
        {
            let v: usize = list[t];
            proof {
                assert(list@.take(t + 1) =~= list@.take(t as int).push(v));
                lemma_holds_push(list@.take(t as int), v);
                lemma_holds_push(nb@, v);
            }
            if self.alive[v] && !mark[v] {
                proof {
                    assert(!holds(nb@, v as int));
                }
                mark.set(v, true);
                nb.push(v);
            }
            t = t + 1;
        }
        proof {
            assert(list@.take(t as int) =~= list@);
        }
    }

    /// The neighbours of the node `u`, each once.
    fn neighbours(&self, n: usize, u: usize, mark: &mut Vec<bool>) -> (nb: Vec<usize>)
        requires
            self.wf(n as int),
            u < n,
            self.alive@[u as int],
            old(mark)@.len() == n,
            forall|v: int| 0 <= v < n ==> !#[trigger] old(mark)@[v],
        ensures
            distinct(nb@),
            forall|v: int| #[trigger] holds(nb@, v) <==> self.edge(n as int, u as int, v),
            final(mark)@.len() == n,
            forall|v: int| 0 <= v < n ==> !#[trigger] final(mark)@[v],
    {
        let mut nb: Vec<usize> = Vec::new();
        mark.set(u, true);
        self.collect(n, &self.adj[u], mark, &mut nb);
        let ghost base = nb@;
        proof {
            assert forall|v: int| #[trigger] holds(base, v) <==> 0 <= v < n && v != u
                && self.alive@[v] && holds(self.adj@[u as int]@, v) by {
                assert(below(self.adj@[u as int]@, n as int));
            }
        }
        let mut t: usize = 0;
        let ghost elems = self.elems@[u as int]@;
        while t < self.elems[u].len()
            invariant
                self.wf(n as int),
                u < n,
                self.alive@[u as int],
                elems == self.elems@[u as int]@,
                t <= elems.len(),
                mark@.len() == n,
                distinct(nb@),
                below(nb@, n as int),
                forall|v: int| 0 <= v < n ==> (#[trigger] mark@[v] <==> v == u || holds(nb@, v)),
                forall|v: int|
                    #![trigger holds(nb@, v)]
                    #![trigger holds(base, v)]
                    holds(nb@, v) <==> holds(base, v) || (v != u && 0 <= v < n && self.alive@[v]
                        && exists|s: int|
                        0 <= s < t && holds(#[trigger] self.vars@[elems[s] as int]@, v)),
            decreases elems.len() - t,
        {
            let e: usize = self.elems[u][t];
            assert(below(elems, self.vars@.len() as int));
            let ghost before = nb@;
            self.collect(n, &self.vars[e], mark, &mut nb);
            proof {
                assert forall|v: int|
                    #![trigger holds(nb@, v)]
                    #![trigger holds(base, v)]
                    holds(nb@, v) <==> holds(base, v) || (v != u && 0 <= v < n && self.alive@[v]
                        && exists|s: int|
                        0 <= s < t + 1 && holds(#[trigger] self.vars@[elems[s] as int]@, v)) by {
                    assert(holds(nb@, v) ==> 0 <= v < n);
                    if holds(self.vars@[e as int]@, v) {
                        assert(holds(self.vars@[elems[t as int] as int]@, v));
                    }
                    if exists|s: int|
                        0 <= s < t && holds(#[trigger] self.vars@[elems[s] as int]@, v) {
                        let s = choose|s: int|
                            0 <= s < t && holds(#[trigger] self.vars@[elems[s] as int]@, v);
                        assert(holds(self.vars@[elems[s] as int]@, v));
                    }
                }
            }
            t = t + 1;
        }
        proof {
            assert forall|v: int| #[trigger] holds(nb@, v) <==> self.edge(
                n as int,
                u as int,
                v,
            ) by {
                assert(holds(base, v) <==> 0 <= v < n && v != u && self.alive@[v] && holds(
                    self.adj@[u as int]@,
                    v,
                ));
                if holds(nb@, v) && !holds(base, v) {
                    let s = choose|s: int|
                        0 <= s < t && holds(#[trigger] self.vars@[elems[s] as int]@, v);
                    let e = elems[s] as int;
                    assert(below(elems, self.vars@.len() as int));
                    assert(holds(elems, e));
                    assert(joined(self.vars@, e, u as int, v));
                }
                if self.edge(n as int, u as int, v) && !holds(base, v) {
                    let e = choose|e: int| #[trigger] joined(self.vars@, e, u as int, v);
                    assert(holds(self.vars@[e]@, u as int));
                    assert(holds(elems, e));
                    let s = choose|s: int| 0 <= s < elems.len() && #[trigger] elems[s] == e;
                    assert(holds(self.vars@[elems[s] as int]@, v));
                }
            }
            assert(nb@.skip(0) =~= nb@);
        }
        mark.set(u, false);
        let mut w: usize = 0;
        while w < nb.len()
            invariant
                w <= nb@.len(),
                below(nb@, n as int),
                mark@.len() == n,
                forall|v: int|
                    0 <= v < n ==> (#[trigger] mark@[v] ==> holds(nb@.skip(w as int), v)),
            decreases nb@.len() - w,
        {
            proof {
                assert forall|v: int| holds(nb@.skip(w as int), v) && v != nb@[w as int] implies holds(
                    nb@.skip(w + 1),
                    v,
                ) by {
                    let q = choose|q: int|
                        0 <= q < nb@.skip(w as int).len() && #[trigger] nb@.skip(w as int)[q] == v;
                    assert(nb@.skip(w + 1)[q - 1] == v);
                }
            }
            mark.set(nb[w], false);
            w = w + 1;
        }
        nb
    }

    /// Eliminates the node `i`, whose neighbours are `nb`: they become an element, which takes the
    /// place of the elements that joined `i` to them.
    fn absorb(&mut self, n: usize, i: usize, nb: &Vec<usize>)
        requires
            old(self).wf(n as int),
            i < n,
            old(self).alive@[i as int],
            forall|v: int| #[trigger] holds(nb@, v) <==> old(self).edge(n as int, i as int, v),
        ensures
            final(self).wf(n as int),
            final(self).alive@ == old(self).alive@.update(i as int, false),
            forall|u: int, v: int| #[trigger]
                final(self).edge(n as int, u, v) <==> u != v && u != i && v != i && (old(self).edge(
                    n as int,
                    u,
                    v,
                ) || (old(self).edge(n as int, i as int, u) && old(self).edge(
                    n as int,
                    i as int,
                    v,
                ))),
    {
        let ghost vars0 = self.vars@;
        let ghost elems0 = self.elems@;
        let ghost m = vars0.len() as int;
        let ghost mine = elems0[i as int]@;
        self.alive.set(i, false);
        let mut t: usize = 0;
        while t < self.elems[i].len()
            invariant
                i < n,
                old(self).wf(n as int),
                self.adj@ == old(self).adj@,
                self.elems@ == elems0,
                elems0 == old(self).elems@,
                self.alive@ == old(self).alive@.update(i as int, false),
                vars0 == old(self).vars@,
                m == vars0.len(),
                mine == elems0[i as int]@,
                t <= mine.len(),
                self.vars@.len() == m,
                forall|e: int|
                    0 <= e < m ==> (#[trigger] self.vars@[e]@).len() == 0 || self.vars@[e]
                        == vars0[e],
                forall|e: int|
                    0 <= e < m && #[trigger] holds(mine.take(t as int), e) ==> self.vars@[e]@.len()
                        == 0,
                forall|e: int|
                    0 <= e < m && !#[trigger] holds(mine.take(t as int), e) ==> self.vars@[e]
                        == vars0[e],
            decreases mine.len() - t,
        {
            let e: usize = self.elems[i][t];
            proof {
                assert(below(elems0[i as int]@, m));
                assert(mine.take(t + 1) =~= mine.take(t as int).push(e));
                lemma_holds_push(mine.take(t as int), e);
            }
            self.vars.set(e, Vec::new());
            t = t + 1;
        }
        proof {
            assert(mine.take(t as int) =~= mine);
        }
        let id: usize = self.vars.len();
        self.vars.push(nb.clone());
        let ghost vars1 = self.vars@;
        proof {
            assert(vars1[m]@ =~= nb@);
            assert forall|t: int| 0 <= t < nb@.len() implies #[trigger] nb@[t] < n by {
                assert(holds(nb@, nb@[t] as int));
            }
            assert forall|u: int| 0 <= u < n implies below(#[trigger] self.elems@[u]@, m + 1) by {
                assert(below(elems0[u]@, m));
            }
        }
        let mut w: usize = 0;
        while w < nb.len()
            invariant
                i < n,
                id == m,
                elems0.len() == n,
                self.adj@ == old(self).adj@,
                self.vars@ == vars1,
                self.alive@ == old(self).alive@.update(i as int, false),
                w <= nb@.len(),
                below(nb@, n as int),
                self.elems@.len() == n,
                forall|u: int| 0 <= u < n ==> below(#[trigger] self.elems@[u]@, m + 1),
                forall|u: int, e: int|
                    #![trigger holds(self.elems@[u]@, e)]
                    0 <= u < n ==> (holds(self.elems@[u]@, e) <==> holds(elems0[u]@, e) || (e == m
                        && holds(nb@.take(w as int), u))),
            decreases nb@.len() - w,
        {
            let j: usize = nb[w];
            let ghost elems1 = self.elems@;
            proof {
                assert(nb@.take(w + 1) =~= nb@.take(w as int).push(j));
                lemma_holds_push(nb@.take(w as int), j);
                lemma_holds_push(elems1[j as int]@, id);
            }
            self.elems[j].push(id);
            proof {
                assert forall|u: int, e: int|
                    #![trigger holds(self.elems@[u]@, e)]
                    0 <= u < n implies (holds(self.elems@[u]@, e) <==> holds(elems0[u]@, e) || (e
                    == m && holds(nb@.take(w + 1), u))) by {
                    assert(holds(elems1[u]@, e) <==> holds(elems0[u]@, e) || (e == m && holds(
                        nb@.take(w as int),
                        u,
                    )));
                    assert(u != j ==> self.elems@[u] == elems1[u]);
                }
                assert forall|u: int| 0 <= u < n implies below(#[trigger] self.elems@[u]@, m + 1) by {
                    assert(u != j ==> self.elems@[u] == elems1[u]);
                    assert(below(elems1[u]@, m + 1));
                }
            }
            w = w + 1;
        }
        proof {
            assert(nb@.take(w as int) =~= nb@);
            assert forall|e: int| 0 <= e < self.vars@.len() implies below(
                #[trigger] self.vars@[e]@,
                n as int,
            ) by {
                if e < m {
                    assert(below(vars0[e]@, n as int));
                }
            }
            assert forall|u: int, e: int|
                #![trigger holds(self.vars@[e]@, u)]
                0 <= u < n && self.alive@[u] && 0 <= e < self.vars@.len() && holds(
                    self.vars@[e]@,
                    u,
                ) implies holds(self.elems@[u]@, e) by {
                if e < m {
                    assert(holds(vars0[e]@, u));
                    assert(holds(elems0[u]@, e));
                }
            }
            assert forall|u: int, e: int|
                #![trigger holds(self.elems@[u]@, e)]
                0 <= u < n && self.alive@[u] && holds(self.elems@[u]@, e) && self.vars@[e]@.len()
                    > 0 implies holds(self.vars@[e]@, u) by {
                if e != m {
                    assert(holds(elems0[u]@, e));
                    assert(below(elems0[u]@, m));
                }
            }
            assert forall|u: int, v: int| #[trigger]
                self.edge(n as int, u, v) <==> u != v && u != i && v != i && (old(self).edge(
                    n as int,
                    u,
                    v,
                ) || (old(self).edge(n as int, i as int, u) && old(self).edge(
                    n as int,
                    i as int,
                    v,
                ))) by {
                let q = old(self);
                if self.edge(n as int, u, v) && !holds(self.adj@[u]@, v) {
                    let e = choose|e: int| #[trigger] joined(self.vars@, e, u, v);
                    if e < m {
                        assert(joined(vars0, e, u, v));
                    } else {
                        assert(holds(nb@, u) && holds(nb@, v));
                    }
                }
                if u != v && u != i && v != i && q.edge(n as int, u, v) && !holds(
                    q.adj@[u]@,
                    v,
                ) {
                    let e = choose|e: int| #[trigger] joined(vars0, e, u, v);
                    if holds(mine, e) {
                        assert(vars0[e]@.len() > 0);
                        assert(holds(vars0[e]@, i as int));
                        assert(joined(vars0, e, i as int, u));
                        assert(joined(vars0, e, i as int, v));
                        assert(holds(nb@, u) && holds(nb@, v));
                        assert(joined(self.vars@, m, u, v));
                    } else {
                        assert(self.vars@[e] == vars0[e]);
                        assert(joined(self.vars@, e, u, v));
                    }
                }
                if u != v && q.edge(n as int, i as int, u) && q.edge(n as int, i as int, v) {
                    assert(holds(nb@, u) && holds(nb@, v));
                    assert(joined(self.vars@, m, u, v));
                }
            }
        }
    }
}

/// A list of the neighbours of `u`, each once, has as many elements as `u` has neighbours.
proof fn lemma_degree_of_listing(n: int, g: graph::Graph, u: int, nb: Seq<usize>)
    requires
        graph::is_graph(n, g),
        distinct(nb),
        forall|v: int| #[trigger] holds(nb, v) <==> g(u, v),
    ensures
        nb.len() == graph::degree(n, g, u),
{
    let s = ints(nb);
    let p = |v: int| g(u, v);
    assert forall|x: int| #[trigger] s.contains(x) <==> 0 <= x < n && p(x) by {
        if s.contains(x) {
            let t = choose|t: int| 0 <= t < s.len() && s[t] == x;
            assert(nb[t] == x);
            assert(holds(nb, x));
            assert(g(u, x));
        }
        if 0 <= x < n && p(x) {
            assert(holds(nb, x));
            let t = choose|t: int| 0 <= t < nb.len() && #[trigger] nb[t] == x;
            assert(s[t] == x);
        }
    }
    assert(s.no_duplicates()) by {
        assert forall|t: int, w: int| 0 <= t < s.len() && 0 <= w < s.len() && t != w implies s[t]
            != s[w] by {
            if t < w {
                assert(nb[t] != nb[w]);
            } else {
                assert(nb[w] != nb[t]);
            }
        }
    }
    graph::lemma_count_of_listing(n, p, s);
}

/// The entry `(j, k)` is stored among the first columns, up to index `p` of column `c`.
spec fn stored_before(
    col_ptr: Seq<usize>,
    row_idx: Seq<usize>,
    c: int,
    p: int,
    j: int,
    k: int,
) -> bool {
    ||| k < c && csc::stored(col_ptr, row_idx, j, k)
    ||| k == c && exists|q: int| col_ptr[k] <= q < p && #[trigger] row_idx[q] == j
}

/// The neighbour lists of the graph of the compressed columns, with repetitions.
fn adjacency(n: usize, col_ptr: &[usize], row_idx: &[usize]) -> (adj: Vec<Vec<usize>>)
    requires
        readable(n as int, col_ptr@, row_idx@),
    ensures
        adj@.len() == n,
        forall|u: int| 0 <= u < n ==> below(#[trigger] adj@[u]@, n as int),
        forall|u: int, v: int|
            #![trigger holds(adj@[u]@, v)]
            0 <= u < n ==> (holds(adj@[u]@, v) <==> csc::pattern_graph(n as int, col_ptr@, row_idx@)(
                u,
                v,
            )),
{
    let mut adj: Vec<Vec<usize>> = Vec::new();
    let mut u: usize = 0;
    while u < n
        invariant
            u <= n,
            adj@.len() == u,
            forall|w: int| 0 <= w < u ==> (#[trigger] adj@[w]@).len() == 0,
        decreases n - u,
    {
        adj.push(Vec::new());
        u = u + 1;
    }
    let mut k: usize = 0;
    while k < n
        invariant
            readable(n as int, col_ptr@, row_idx@),
            k <= n,
            adj@.len() == n,
            forall|u: int| 0 <= u < n ==> below(#[trigger] adj@[u]@, n as int),
            forall|u: int, v: int|
                #![trigger holds(adj@[u]@, v)]
                0 <= u < n ==> (holds(adj@[u]@, v) <==> 0 <= v < n && u != v && (if u < v {
                    v < k && csc::stored(col_ptr@, row_idx@, u, v)
                } else {
                    u < k && csc::stored(col_ptr@, row_idx@, v, u)
                })),
        decreases n - k,
    {
        let start: usize = col_ptr[k];
        let end: usize = col_ptr[k + 1];
        let mut p: usize = start;
        while p < end
            invariant
                k < n,
                start == col_ptr@[k as int],
                end == col_ptr@[k + 1],
                start < end ==> start <= p <= end <= row_idx@.len(),
                start >= end ==> p == start,
                adj@.len() == n,
                forall|u: int| 0 <= u < n ==> below(#[trigger] adj@[u]@, n as int),
                forall|u: int, v: int|
                    #![trigger holds(adj@[u]@, v)]
                    0 <= u < n ==> (holds(adj@[u]@, v) <==> 0 <= v < n && u != v && (if u < v {
                        stored_before(col_ptr@, row_idx@, k as int, p as int, u, v)
                    } else {
                        stored_before(col_ptr@, row_idx@, k as int, p as int, v, u)
                    })),
            decreases end - p,
        {
            let i: usize = row_idx[p];
            let ghost adj0 = adj@;
            proof {
                assert forall|u: int, v: int|
                    stored_before(col_ptr@, row_idx@, k as int, p + 1, u, v) <==> stored_before(
                        col_ptr@,
                        row_idx@,
                        k as int,
                        p as int,
                        u,
                        v,
                    ) || (v == k && u == i) by {
                    if v == k && u == i {
                        assert(row_idx@[p as int] == u);
                    }
                    if v == k && exists|q: int|
                        col_ptr@[v] <= q < p && #[trigger] row_idx@[q] == u {
                        let q = choose|q: int|
                            col_ptr@[v] <= q < p && #[trigger] row_idx@[q] == u;
                        assert(row_idx@[q] == u);
                    }
                }
            }
            if i < k {
                proof {
                    lemma_holds_push(adj0[k as int]@, i);
                    lemma_holds_push(adj0[i as int]@, k);
                }
                adj[k].push(i);
                adj[i].push(k);
                proof {
                    assert forall|u: int| 0 <= u < n implies below(#[trigger] adj@[u]@, n as int) by {
                        assert(below(adj0[u]@, n as int));
                        assert(u != k && u != i ==> adj@[u] == adj0[u]);
                    }
                    assert forall|u: int, v: int|
                        #![trigger holds(adj@[u]@, v)]
                        0 <= u < n implies (holds(adj@[u]@, v) <==> holds(adj0[u]@, v) || (u == k
                        && v == i) || (u == i && v == k)) by {
                        assert(u != k && u != i ==> adj@[u] == adj0[u]);
                    }
                }
            }
            p = p + 1;
        }
        proof {
            assert forall|u: int, v: int|
                stored_before(col_ptr@, row_idx@, k as int, p as int, u, v) <==> v < k + 1
                    && csc::stored(col_ptr@, row_idx@, u, v) by {
                if v == k && csc::stored(col_ptr@, row_idx@, u, v) {
                    let q = choose|q: int|
                        col_ptr@[v] <= q < col_ptr@[v + 1] && #[trigger] row_idx@[q] == u;
                    assert(row_idx@[q] == u);
                }
                if v == k && exists|q: int| col_ptr@[v] <= q < p && #[trigger] row_idx@[q] == u {
                    let q = choose|q: int| col_ptr@[v] <= q < p && #[trigger] row_idx@[q] == u;
                    assert(row_idx@[q] == u);
                }
            }
        }
        k = k + 1;
    }
    adj
}

/// Approximate minimum degree ordering (Amestoy, Davis & Duff 1996): the fill-reducing
/// elimination order for a symmetric sparse matrix.
///
/// Returns `order` where `order[k]` is the node that is eliminated k-th, ready for
/// [`crate::SparseLdlt::factor_perm`]. Only the upper triangle (row <= col) is read, exactly as
/// [`crate::SparseLdlt::factor`] does.
///
/// Eliminated nodes become elements of a quotient graph, and the degree of a node is the number
/// of distinct nodes that it reaches through its own adjacency and the elements that it carries,
/// recomputed only for the neighbours of each elimination. That count is the degree in the
/// elimination graph, so the order is the minimum degree order of the graph of the matrix; of
/// several nodes of smallest degree the one of smallest number is taken.
pub fn amd(n: usize, col_ptr: &[usize], row_idx: &[usize]) -> (order: Vec<usize>)
    requires
        readable(n as int, col_ptr@, row_idx@),
    ensures
        is_min_degree_order(n as int, csc::pattern_graph(n as int, col_ptr@, row_idx@), ints(order@)),
        paths::takes_the_fewest(
            n as int,
            csc::pattern_graph(n as int, col_ptr@, row_idx@),
            ints(order@),
        ),
{
    let ghost g0 = csc::pattern_graph(n as int, col_ptr@, row_idx@);
    proof {
        csc::lemma_pattern_graph(n as int, col_ptr@, row_idx@);
    }
    let adj = adjacency(n, col_ptr, row_idx);
    let mut q = Quotient { adj, vars: Vec::new(), elems: Vec::new(), alive: vec![true; n] };
    let mut mark: Vec<bool> = vec![false; n];
    let mut u: usize = 0;
    while u < n
        invariant
            u <= n,
            q.adj == adj,
            q.vars@.len() == 0,
            q.alive@.len() == n,
            forall|w: int| 0 <= w < n ==> #[trigger] q.alive@[w],
            q.elems@.len() == u,
            forall|w: int| 0 <= w < u ==> (#[trigger] q.elems@[w]@).len() == 0,
        decreases n - u,
    {
        q.elems.push(Vec::new());
        u = u + 1;
    }
    proof {
        assert forall|u: int, v: int| #[trigger] q.edge(n as int, u, v) <==> g0(u, v) by {
            assert(0 <= u < n ==> (holds(adj@[u]@, v) <==> g0(u, v)));
        }
    }
    let mut deg: Vec<usize> = Vec::new();
    let mut w: usize = 0;
    while w < n
        invariant
            w <= n,
            q.wf(n as int),
            graph::is_graph(n as int, g0),
            forall|u: int, v: int| #[trigger] q.edge(n as int, u, v) <==> g0(u, v),
            forall|v: int| 0 <= v < n ==> #[trigger] q.alive@[v],
            mark@.len() == n,
            forall|v: int| 0 <= v < n ==> !#[trigger] mark@[v],
            deg@.len() == w,
            forall|v: int| 0 <= v < w ==> #[trigger] deg@[v] == graph::degree(n as int, g0, v),
        decreases n - w,
    {
        let nb = q.neighbours(n, w, &mut mark);
        proof {
            assert forall|v: int| #[trigger] holds(nb@, v) <==> g0(w as int, v) by {
                assert(q.edge(n as int, w as int, v) <==> g0(w as int, v));
            }
            lemma_degree_of_listing(n as int, g0, w as int, nb@);
        }
        deg.push(nb.len());
        w = w + 1;
    }
    let mut order: Vec<usize> = Vec::new();
    proof {
        assert(ints(order@) =~= Seq::<int>::empty());
    }
    while order.len() < n
        invariant
            order@.len() <= n,
            graph::is_graph(n as int, g0),
            q.wf(n as int),
            mark@.len() == n,
            forall|v: int| 0 <= v < n ==> !#[trigger] mark@[v],
            deg@.len() == n,
            distinct(order@),
            below(order@, n as int),
            forall|v: int|
                0 <= v < n ==> (#[trigger] q.alive@[v] <==> !ints(order@).contains(v)),
            forall|u: int, v: int| #[trigger]
                q.edge(n as int, u, v) <==> graph::eliminate_all(g0, ints(order@))(u, v),
            forall|v: int|
                0 <= v < n && q.alive@[v] ==> #[trigger] deg@[v] == graph::degree(
                    n as int,
                    graph::eliminate_all(g0, ints(order@)),
                    v,
                ),
            forall|t: int|
                #![trigger ints(order@)[t]]
                0 <= t < order@.len() ==> is_next(
                    n as int,
                    graph::eliminate_all(g0, ints(order@).take(t)),
                    ints(order@).take(t),
                    ints(order@)[t],
                ),
        decreases n - order@.len(),
    {
        let ghost done = ints(order@);
        let ghost g = graph::eliminate_all(g0, done);
        // The first of the remaining nodes that have the smallest degree.
        let mut i: usize = n;
        let mut u: usize = 0;
        while u < n
            invariant
                u <= n,
                q.alive@.len() == n,
                deg@.len() == n,
                i < n ==> i < u && q.alive@[i as int],
                i >= n ==> i == n && forall|v: int| 0 <= v < u ==> !#[trigger] q.alive@[v],
                i < n ==> forall|v: int|
                    0 <= v < u && #[trigger] q.alive@[v] ==> deg@[i as int] < deg@[v] || (
                    deg@[i as int] == deg@[v] && i <= v),
            decreases n - u,
        {
            if q.alive[u] && (i == n || deg[u] < deg[i]) {
                i = u;
            }
            u = u + 1;
        }
        proof {
            lemma_someone_is_left(n as int, order@);
            graph::lemma_eliminate_all_is_graph(n as int, g0, done);
            let left = choose|v: int| 0 <= v < n && !done.contains(v);
            assert(q.alive@[left]);
            assert(is_next(n as int, g, done, i as int)) by {
                assert forall|v: int| 0 <= v < n && !#[trigger] done.contains(v) implies graph::degree(
                    n as int,
                    g,
                    i as int,
                ) < graph::degree(n as int, g, v) || (graph::degree(n as int, g, i as int)
                    == graph::degree(n as int, g, v) && i <= v) by {
                    assert(q.alive@[v]);
                    assert(deg@[v] == graph::degree(n as int, g, v));
                }
            }
        }
        let nb = q.neighbours(n, i, &mut mark);
        let ghost q0 = q;
        q.absorb(n, i, &nb);
        let ghost g1 = graph::eliminate(g, i as int);
        proof {
            assert forall|u: int, v: int| #[trigger] q.edge(n as int, u, v) <==> g1(u, v) by {
                assert(q0.edge(n as int, u, v) <==> g(u, v));
                assert(q0.edge(n as int, i as int, u) <==> g(i as int, u));
                assert(q0.edge(n as int, i as int, v) <==> g(i as int, v));
            }
            graph::lemma_eliminate_is_graph(n as int, g, i as int);
            assert forall|v: int| #[trigger] holds(nb@, v) <==> g(i as int, v) by {
                assert(q0.edge(n as int, i as int, v) <==> g(i as int, v));
            }
            assert forall|t: int| 0 <= t < nb@.len() implies #[trigger] nb@[t] < n by {
                assert(holds(nb@, nb@[t] as int));
            }
            assert forall|v: int|
                0 <= v < n && q.alive@[v] && !holds(nb@, v) implies #[trigger] deg@[v]
                == graph::degree(n as int, g1, v) by {
                assert(!g(i as int, v));
                assert(!g(v, i as int));
                graph::lemma_count_same(n as int, |x: int| g(v, x), |x: int| g1(v, x));
                assert(q0.alive@[v]);
            }
        }
        // Only the degrees of its neighbours change.
        let mut t: usize = 0;
        while t < nb.len()
            invariant
                t <= nb@.len(),
                graph::is_graph(n as int, g1),
                q.wf(n as int),
                below(nb@, n as int),
                forall|u: int, v: int| #[trigger] q.edge(n as int, u, v) <==> g1(u, v),
                forall|v: int| #[trigger] holds(nb@, v) ==> q.alive@[v],
                mark@.len() == n,
                forall|v: int| 0 <= v < n ==> !#[trigger] mark@[v],
                deg@.len() == n,
                forall|v: int|
                    0 <= v < n && q.alive@[v] && (!holds(nb@, v) || holds(nb@.take(t as int), v))
                        ==> #[trigger] deg@[v] == graph::degree(n as int, g1, v),
            decreases nb@.len() - t,
        {
            let j: usize = nb[t];
            proof {
                assert(holds(nb@, j as int));
                assert(nb@.take(t + 1) =~= nb@.take(t as int).push(j));
                lemma_holds_push(nb@.take(t as int), j);
            }
            let around = q.neighbours(n, j, &mut mark);
            proof {
                assert forall|v: int| #[trigger] holds(around@, v) <==> g1(j as int, v) by {
                    assert(q.edge(n as int, j as int, v) <==> g1(j as int, v));
                }
                lemma_degree_of_listing(n as int, g1, j as int, around@);
            }
            deg.set(j, around.len());
            t = t + 1;
        }
        order.push(i);
        proof {
            assert(nb@.take(t as int) =~= nb@);
            let now = ints(order@);
            assert(now =~= done.push(i as int));
            assert(now.drop_last() =~= done);
            assert forall|v: int| 0 <= v < n implies (#[trigger] q.alive@[v] <==> !now.contains(
                v,
            )) by {
                assert(q0.alive@[v] <==> !done.contains(v));
                if done.contains(v) {
                    let t = choose|t: int| 0 <= t < done.len() && done[t] == v;
                    assert(now[t] == v);
                }
                if now.contains(v) && v != i {
                    let t = choose|t: int| 0 <= t < now.len() && now[t] == v;
                    assert(done[t] == v);
                }
                if v == i {
                    assert(now[done.len() as int] == v);
                }
            }
            assert forall|t: int, w: int| 0 <= t < w < order@.len() implies #[trigger] order@[t]
                != #[trigger] order@[w] by {
                if w == done.len() {
                    assert(done[t] == order@[t]);
                    assert(done.contains(done[t]));
                }
            }
            assert forall|t: int| #![trigger now[t]] 0 <= t < now.len() implies is_next(
                n as int,
                graph::eliminate_all(g0, now.take(t)),
                now.take(t),
                now[t],
            ) by {
                assert(now.take(t) =~= done.take(t));
                if t < done.len() {
                    assert(done[t] == now[t]);
                } else {
                    assert(done.take(t) =~= done);
                }
            }
        }
    }
    proof {
        paths::law_min_degree_order_always_takes_the_fewest(n as int, g0, ints(order@));
    }
    order
}

/// Where fewer than `n` nodes are listed, one of `0..n` is not.
proof fn lemma_someone_is_left(n: int, order: Seq<usize>)
    requires
        order.len() < n,
        distinct(order),
        below(order, n),
    ensures
        exists|v: int| 0 <= v < n && !ints(order).contains(v),
{
    if forall|v: int| 0 <= v < n ==> ints(order).contains(v) {
        let s = ints(order);
        let p = |v: int| true;
        assert(s.no_duplicates()) by {
            assert forall|t: int, w: int|
                0 <= t < s.len() && 0 <= w < s.len() && t != w implies s[t] != s[w] by {
                if t < w {
                    assert(order[t] != order[w]);
                } else {
                    assert(order[w] != order[t]);
                }
            }
        }
        assert forall|x: int| #[trigger] s.contains(x) <==> 0 <= x < n && p(x) by {
            if s.contains(x) {
                let t = choose|t: int| 0 <= t < s.len() && s[t] == x;
                assert(order[t] == x);
            }
        }
        graph::lemma_count_of_listing(n, p, s);
        graph::lemma_count_all(n, p);
    }
}

} // verus!
