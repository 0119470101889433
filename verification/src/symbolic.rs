//! The symbolic phase: the elimination tree of a pattern and the column counts of `L`.
use vstd::prelude::*;

use crate::csc;
use crate::graph;

verus! {

/// The number of entries of `L` in the columns `0..k`.
pub open spec fn fill_before(n: int, g: graph::Graph, k: int) -> int
    decreases k,
{
    if k <= 0 {
        0
    } else {
        fill_before(n, g, k - 1) + graph::column_fill(g, k - 1, n)
    }
}

/// The sum of the first `k` numbers.
spec fn total(s: Seq<usize>, k: int) -> int
    decreases k,
{
    if k <= 0 {
        0
    } else {
        total(s, k - 1) + s[k - 1]
    }
}

proof fn lemma_total_zero(s: Seq<usize>, k: int)
    requires
        0 <= k <= s.len(),
        forall|i: int| 0 <= i < s.len() ==> #[trigger] s[i] == 0,
    ensures
        total(s, k) == 0,
    decreases k,
{
    if k > 0 {
        lemma_total_zero(s, k - 1);
    }
}

proof fn lemma_total_step(s: Seq<usize>, r: Seq<usize>, i: int, k: int)
    requires
        0 <= i < s.len(),
        0 <= k <= s.len(),
        s[i] < usize::MAX,
        r == s.update(i, (s[i] + 1) as usize),
    ensures
        total(r, k) == total(s, k) + if i < k {
            1int
        } else {
            0
        },
    decreases k,
{
    if k > 0 {
        lemma_total_step(s, r, i, k - 1);
    }
}

proof fn lemma_total_monotone(s: Seq<usize>, j: int, k: int)
    requires
        0 <= j <= k <= s.len(),
    ensures
        0 <= total(s, j) <= total(s, k),
    decreases k,
{
    if j < k {
        lemma_total_monotone(s, j, k - 1);
    } else if k > 0 {
        lemma_total_monotone(s, j - 1, k - 1);
    }
}

/// The stored form of a parent: the largest index stands for none.
pub open spec fn parent_index(n: int, g: graph::Graph, i: int) -> usize {
    if graph::parent(n, g, i) < n {
        graph::parent(n, g, i) as usize
    } else {
        usize::MAX
    }
}

/// The elimination tree and the shape of `L`.
pub struct Symbolic {
    /// The parent of each node, `usize::MAX` at a root.
    pub parent: Vec<usize>,
    /// Where each column of `L` starts, and the number of entries at the end.
    pub starts: Vec<usize>,
    /// Room for the row indices of `L`.
    pub rows: Vec<usize>,
}

impl Symbolic {
    /// These are the tree and the shape for the graph `g`.
    pub open spec fn describes(&self, n: int, g: graph::Graph) -> bool {
        &&& self.parent@.len() == n
        &&& forall|i: int| 0 <= i < n ==> #[trigger] self.parent@[i] == parent_index(n, g, i)
        &&& self.starts@.len() == n + 1
        &&& forall|k: int| 0 <= k <= n ==> #[trigger] self.starts@[k] == fill_before(n, g, k)
        &&& self.rows@.len() == fill_before(n, g, n)
    }
}

/// A parent is a later node.
spec fn is_tree(n: int, g: graph::Graph) -> bool {
    forall|i: int| 0 <= i < n ==> i < #[trigger] graph::parent(n, g, i) <= n
}

proof fn lemma_tree(n: int, g: graph::Graph)
    ensures
        is_tree(n, g),
{
    assert forall|i: int| 0 <= i < n implies i < #[trigger] graph::parent(n, g, i) <= n by {
        graph::lemma_parent(n, g, i);
    }
}

/// How the tree and the counts stand when the columns `0..k` have been read, and of column `k`
/// the nodes with `flag[i] == k`.
spec fn progress(
    n: int,
    g: graph::Graph,
    k: int,
    parent: Seq<usize>,
    flag: Seq<usize>,
    counts: Seq<usize>,
) -> bool {
    &&& parent.len() == n
    &&& flag.len() == n
    &&& counts.len() == n
    &&& 0 <= k < n ==> flag[k] == k
    &&& forall|i: int| k < i < n ==> #[trigger] flag[i] != k
    &&& forall|i: int| 0 <= i < n && #[trigger] flag[i] == k && i != k ==> graph::fills(g, i, k)
    &&& forall|i: int|
        0 <= i < n ==> #[trigger] parent[i] == (if graph::parent(n, g, i) < k || (graph::parent(
            n,
            g,
            i,
        ) == k && k < n && flag[i] == k) {
            graph::parent(n, g, i) as usize
        } else {
            usize::MAX
        })
    &&& forall|i: int|
        0 <= i < n ==> #[trigger] counts[i] == graph::column_fill(g, i, k) + (if k < n && flag[i]
            == k && i != k {
            1int
        } else {
            0
        })
}

/// Computes the elimination tree and the column counts of `L` by walking, for each column `k`,
/// from the rows that it stores up the tree built so far.
pub fn analyse(n: usize, col_ptr: &[usize], row_idx: &[usize]) -> (s: Symbolic)
    requires
        csc::is_csc(n as int, col_ptr@, row_idx@, row_idx@.len() as int),
    ensures
        s.describes(n as int, csc::pattern_graph(n as int, col_ptr@, row_idx@)),
{
    let ghost g = csc::pattern_graph(n as int, col_ptr@, row_idx@);
    proof {
        csc::lemma_pattern_graph(n as int, col_ptr@, row_idx@);
    }
    let mut parent: Vec<usize> = vec![usize::MAX; n];
    let mut flag: Vec<usize> = vec![usize::MAX; n];
    let mut counts: Vec<usize> = vec![0; n];
    // One slot is made for every entry that is counted.
    let mut rows: Vec<usize> = Vec::new();
    proof {
        lemma_total_zero(counts@, n as int);
        lemma_tree(n as int, g);
    }
    let mut k: usize = 0;
    while k < n
        invariant
            k <= n,
            csc::is_csc(n as int, col_ptr@, row_idx@, row_idx@.len() as int),
            g == csc::pattern_graph(n as int, col_ptr@, row_idx@),
            graph::is_graph(n as int, g),
            is_tree(n as int, g),
            parent@.len() == n,
            flag@.len() == n,
            counts@.len() == n,
            forall|i: int| 0 <= i < n ==> #[trigger] flag@[i] < k || flag@[i] == usize::MAX,
            forall|i: int|
                0 <= i < n ==> #[trigger] parent@[i] == (if graph::parent(n as int, g, i) < k {
                    graph::parent(n as int, g, i) as usize
                } else {
                    usize::MAX
                }),
            forall|i: int|
                0 <= i < n ==> #[trigger] counts@[i] == graph::column_fill(g, i, k as int),
            total(counts@, n as int) == rows@.len(),
        decreases n - k,
    {
        let start: usize = col_ptr[k];
        let end: usize = col_ptr[k + 1];
        flag.set(k, k);
        let mut p: usize = start;
        proof {
            csc::lemma_column_starts(
                n as int,
                col_ptr@,
                row_idx@,
                row_idx@.len() as int,
                k as int,
                k + 1,
            );
            csc::lemma_column_starts(
                n as int,
                col_ptr@,
                row_idx@,
                row_idx@.len() as int,
                k + 1,
                n as int,
            );
        }
        while p < end
            invariant
                k < n,
                csc::is_csc(n as int, col_ptr@, row_idx@, row_idx@.len() as int),
                g == csc::pattern_graph(n as int, col_ptr@, row_idx@),
                graph::is_graph(n as int, g),
                is_tree(n as int, g),
                start == col_ptr@[k as int],
                end == col_ptr@[k + 1],
                start <= p <= end <= row_idx@.len(),
                progress(n as int, g, k as int, parent@, flag@, counts@),
                forall|i: int|
                    0 <= i < n ==> #[trigger] flag@[i] <= k || flag@[i] == usize::MAX,
                forall|q: int|
                    start <= q < p && #[trigger] row_idx@[q] < k ==> flag@[row_idx@[q] as int] == k,
                forall|i: int|
                    0 <= i < k && #[trigger] flag@[i] == k && graph::parent(n as int, g, i) < k
                        ==> flag@[graph::parent(n as int, g, i)] == k,
                total(counts@, n as int) == rows@.len(),
            decreases end - p,
        {
            let mut i: usize = row_idx[p];
            if i < k {
                proof {
                    assert(csc::stored(col_ptr@, row_idx@, i as int, k as int));
                    assert(g(i as int, k as int));
                    graph::lemma_fills(n as int, g, i as int, k as int);
                }
                let ghost first = i as int;
                while flag[i] != k
                    invariant
                        k < n,
                        first < k,
                        graph::is_graph(n as int, g),
                        is_tree(n as int, g),
                        start <= p < end <= row_idx@.len(),
                        first == row_idx@[p as int],
                        i <= k,
                        i == k || graph::fills(g, i as int, k as int),
                        i == first || flag@[first] == k,
                        progress(n as int, g, k as int, parent@, flag@, counts@),
                        forall|j: int|
                            0 <= j < n ==> #[trigger] flag@[j] <= k || flag@[j] == usize::MAX,
                        forall|q: int|
                            start <= q < p && #[trigger] row_idx@[q] < k
                                ==> flag@[row_idx@[q] as int] == k,
                        forall|j: int|
                            0 <= j < k && #[trigger] flag@[j] == k && graph::parent(n as int, g, j)
                                < k ==> flag@[graph::parent(n as int, g, j)] == k || graph::parent(
                                n as int,
                                g,
                                j,
                            ) == i,
                        total(counts@, n as int) == rows@.len(),
                    decreases k - i,
                {
                    proof {
                        graph::lemma_parent_fills(n as int, g, i as int, k as int);
                        lemma_total_monotone(counts@, i + 1, n as int);
                        lemma_total_monotone(counts@, 0, i as int);
                    }
                    if parent[i] == usize::MAX {
                        parent.set(i, k);
                    }
                    rows.push(0);
                    assert(rows.len() <= usize::MAX);
                    let ghost counts0 = counts@;
                    let c: usize = counts[i];
                    counts.set(i, c + 1);
                    proof {
                        lemma_total_step(counts0, counts@, i as int, n as int);
                    }
                    flag.set(i, k);
                    i = parent[i];
                }
            }
            p = p + 1;
        }
        proof {
            let s = |i: int| 0 <= i < k && flag@[i] == k;
            assert forall|i: int| 0 <= i < n && i != k implies (#[trigger] flag@[i] == k
                <==> graph::fills(g, i, k as int)) by {
                if graph::fills(g, i, k as int) {
                    assert forall|j: int| 0 <= j < k && #[trigger] g(j, k as int) implies s(j) by {
                        let q = choose|q: int|
                            col_ptr@[k as int] <= q < col_ptr@[k + 1] && #[trigger] row_idx@[q]
                                == j;
                        assert(row_idx@[q] == j);
                    }
                    assert forall|j: int|
                        0 <= j < k && #[trigger] s(j) && graph::fills(g, j, k as int)
                            && graph::parent(n as int, g, j) < k implies s(
                        graph::parent(n as int, g, j),
                    ) by {
                        graph::lemma_parent(n as int, g, j);
                        assert(flag@[j] == k);
                    }
                    graph::lemma_row_closure(n as int, g, k as int, s, i);
                }
            }
            assert forall|i: int| 0 <= i < n implies #[trigger] counts@[i] == graph::column_fill(
                g,
                i,
                k + 1,
            ) by {
                assert(!graph::fills(g, k as int, k as int));
                assert(flag@[i] == flag@[i]);
            }
            assert forall|i: int| 0 <= i < n implies #[trigger] parent@[i] == (if graph::parent(
                n as int,
                g,
                i,
            ) < k + 1 {
                graph::parent(n as int, g, i) as usize
            } else {
                usize::MAX
            }) by {
                graph::lemma_parent(n as int, g, i);
                assert(flag@[i] == flag@[i]);
            }
        }
        k = k + 1;
    }
    let mut starts: Vec<usize> = Vec::new();
    starts.push(0);
    let mut i: usize = 0;
    while i < n
        invariant
            i <= n,
            counts@.len() == n,
            forall|j: int| 0 <= j < n ==> #[trigger] counts@[j] == graph::column_fill(g, j, n as int),
            total(counts@, n as int) == rows@.len(),
            starts@.len() == i + 1,
            total(counts@, i as int) == fill_before(n as int, g, i as int),
            forall|j: int| 0 <= j <= i ==> #[trigger] starts@[j] == fill_before(n as int, g, j),
        decreases n - i,
    {
        proof {
            lemma_total_monotone(counts@, i + 1, n as int);
            assert(rows.len() <= usize::MAX);
        }
        let next: usize = starts[i] + counts[i];
        starts.push(next);
        i = i + 1;
    }
    Symbolic { parent, starts, rows }
}

/// The rows below `k` of column `i` of `L`, ascending.
pub open spec fn rows_of(g: graph::Graph, i: int, k: int) -> Seq<int>
    decreases k,
{
    if k <= 0 {
        Seq::empty()
    } else if graph::fills(g, i, k - 1) {
        rows_of(g, i, k - 1).push(k - 1)
    } else {
        rows_of(g, i, k - 1)
    }
}

pub proof fn lemma_rows_of(g: graph::Graph, i: int, k: int)
    ensures
        rows_of(g, i, k).len() == graph::column_fill(g, i, k),
        forall|q: int|
            0 <= q < rows_of(g, i, k).len() ==> i < #[trigger] rows_of(g, i, k)[q] < k
                && graph::fills(g, i, rows_of(g, i, k)[q]),
        forall|q: int, w: int|
            0 <= q < w < rows_of(g, i, k).len() ==> #[trigger] rows_of(g, i, k)[q]
                < #[trigger] rows_of(g, i, k)[w],
        forall|r: int|
            0 <= r < k && #[trigger] graph::fills(g, i, r) ==> rows_of(g, i, k).contains(r),
    decreases k,
{
    if k > 0 {
        lemma_rows_of(g, i, k - 1);
        let s = rows_of(g, i, k - 1);
        let z = rows_of(g, i, k);
        assert forall|q: int| 0 <= q < z.len() implies i < #[trigger] z[q] < k && graph::fills(
            g,
            i,
            z[q],
        ) by {
            if q < s.len() {
                assert(z[q] == s[q]);
            }
        }
        assert forall|q: int, w: int| 0 <= q < w < z.len() implies #[trigger] z[q]
            < #[trigger] z[w] by {
            assert(z[q] == s[q]);
            if w < s.len() {
                assert(z[w] == s[w]);
            }
        }
        assert forall|r: int| 0 <= r < k && #[trigger] graph::fills(g, i, r) implies z.contains(
            r,
        ) by {
            if r < k - 1 {
                let q = choose|q: int| 0 <= q < s.len() && s[q] == r;
                assert(z[q] == r);
            } else {
                assert(z[s.len() as int] == r);
            }
        }
    }
}

/// The slots of a column lie between its start and the start of the next one.
pub proof fn lemma_slots(n: int, g: graph::Graph, i: int, j: int)
    requires
        0 <= i < j <= n,
    ensures
        0 <= fill_before(n, g, i),
        fill_before(n, g, i) + graph::column_fill(g, i, n) <= fill_before(n, g, j),
    decreases j,
{
    graph::lemma_count_bounds(n, |r: int| graph::fills(g, j - 1, r));
    lemma_fill_before(n, g, i);
    if i < j - 1 {
        lemma_slots(n, g, i, j - 1);
    }
}

pub proof fn lemma_fill_before(n: int, g: graph::Graph, k: int)
    ensures
        0 <= fill_before(n, g, k),
    decreases k,
{
    if k > 0 {
        lemma_fill_before(n, g, k - 1);
        graph::lemma_count_bounds(n, |r: int| graph::fills(g, k - 1, r));
    }
}

} // verus!
