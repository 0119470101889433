//! The numeric phase: the rows of `L` and the pivots, one column of the matrix after the other.
use vstd::prelude::*;

use crate::csc;
use crate::graph;
use crate::model;
use crate::ordering;
use crate::scalar::Scalar;
use crate::symbolic;

verus! {

/// The numbers of the list, from the last to the first.
pub open spec fn reversed(s: Seq<usize>) -> Seq<int> {
    Seq::new(s.len(), |t: int| s[s.len() - 1 - t] as int)
}

/// The columns of `L` as far as the rows below `k` are concerned: the rows of a column ascend from
/// its start, each with its value.
pub open spec fn is_layout<T>(
    n: int,
    g: graph::Graph,
    f: model::Factors<T>,
    k: int,
    starts: Seq<usize>,
    li: Seq<usize>,
    lx: Seq<T>,
) -> bool {
    &&& li.len() == starts[n]
    &&& lx.len() == starts[n]
    &&& forall|i: int, q: int|
        0 <= i < n && 0 <= q < symbolic::rows_of(g, i, k).len() ==> li[starts[i] + q]
            == #[trigger] symbolic::rows_of(g, i, k)[q] && (f.lower)(
            symbolic::rows_of(g, i, k)[q],
            i,
        ) == Some(lx[starts[i] + q])
}

/// `y[li[p]] -= lx[p] * yi` for the indices `lo..hi`, whose rows are all different.
pub(crate) fn subtract_column<T: Scalar>(
    y: &mut Vec<T>,
    li: &Vec<usize>,
    lx: &Vec<T>,
    lo: usize,
    hi: usize,
    yi: T,
)
    requires
        lo <= hi <= li@.len(),
        li@.len() == lx@.len(),
        forall|p: int| lo <= p < hi ==> #[trigger] li@[p] < old(y)@.len(),
        forall|p: int, q: int| lo <= p < q < hi ==> #[trigger] li@[p] != #[trigger] li@[q],
    ensures
        final(y)@.len() == old(y)@.len(),
        forall|p: int|
            lo <= p < hi ==> final(y)@[#[trigger] li@[p] as int] == T::minus_spec(
                old(y)@[li@[p] as int],
                T::times_spec(lx@[p], yi),
            ),
        forall|j: int|
            0 <= j < old(y)@.len() && (forall|p: int| lo <= p < hi ==> #[trigger] li@[p] != j)
                ==> #[trigger] final(y)@[j] == old(y)@[j],
{
    let ghost y0 = y@;
    let mut p: usize = lo;
    while p < hi
        invariant
            lo <= p <= hi <= li@.len(),
            li@.len() == lx@.len(),
            y@.len() == y0.len(),
            forall|q: int| lo <= q < hi ==> #[trigger] li@[q] < y0.len(),
            forall|s: int, q: int| lo <= s < q < hi ==> #[trigger] li@[s] != #[trigger] li@[q],
            forall|q: int|
                lo <= q < p ==> y@[#[trigger] li@[q] as int] == T::minus_spec(
                    y0[li@[q] as int],
                    T::times_spec(lx@[q], yi),
                ),
            forall|q: int| p <= q < hi ==> y@[#[trigger] li@[q] as int] == y0[li@[q] as int],
            forall|j: int|
                0 <= j < y0.len() && (forall|q: int| lo <= q < hi ==> #[trigger] li@[q] != j)
                    ==> #[trigger] y@[j] == y0[j],
        decreases hi - p,
    {
        let r: usize = li[p];
        let v: T = T::minus(y[r], T::times(lx[p], yi));
        y.set(r, v);
        p = p + 1;
    }
}

/// Adds column `k` of the matrix into `y`, and collects the nodes of row `k` of `L` in `stack`,
/// ancestors before descendants.
pub(crate) fn scatter_column<T: Scalar>(
    n: usize,
    k: usize,
    col_ptr: &[usize],
    row_idx: &[usize],
    values: &[T],
    parent: &Vec<usize>,
    flag: &mut Vec<usize>,
    y: &mut Vec<T>,
    stack: &mut Vec<usize>,
)
    requires
        k < n,
        csc::is_csc(n as int, col_ptr@, row_idx@, values@.len() as int),
        parent@.len() == n,
        forall|i: int|
            0 <= i < n ==> #[trigger] parent@[i] == symbolic::parent_index(
                n as int,
                csc::pattern_graph(n as int, col_ptr@, row_idx@),
                i,
            ),
        old(flag)@.len() == n,
        forall|i: int| 0 <= i < n ==> #[trigger] old(flag)@[i] < k || old(flag)@[i] == usize::MAX,
        old(y)@.len() == n,
        forall|i: int| 0 <= i < n ==> #[trigger] old(y)@[i] == T::of_u64_spec(0),
    ensures
        final(flag)@.len() == n,
        forall|i: int|
            0 <= i < n ==> #[trigger] final(flag)@[i] < k + 1 || final(flag)@[i] == usize::MAX,
        final(y)@.len() == n,
        forall|j: int|
            0 <= j < n ==> #[trigger] final(y)@[j] == csc::entry(
                csc::upper(n as int, col_ptr@, row_idx@, values@)[k as int],
                j,
            ),
        reversed(final(stack)@) == model::row_order(
            csc::upper(n as int, col_ptr@, row_idx@, values@),
            k as int,
        ),
{
    let ghost a = csc::upper(n as int, col_ptr@, row_idx@, values@);
    let ghost g = csc::graph_of(a);
    proof {
        csc::lemma_graph_of(a);
        csc::lemma_graph_of_upper(n as int, col_ptr@, row_idx@, values@);
        csc::lemma_upper_is_upper(n as int, col_ptr@, row_idx@, values@);
        csc::lemma_column_starts(n as int, col_ptr@, row_idx@, values@.len() as int, k as int, k + 1);
    }
    let start: usize = col_ptr[k];
    let end: usize = col_ptr[k + 1];
    flag.set(k, k);
    stack.clear();
    proof {
        assert(reversed(stack@) =~= Seq::<int>::empty());
    }
    let mut climb: Vec<usize> = Vec::new();
    let mut p: usize = start;
    let ghost col = csc::column(row_idx@, values@, k as int, start as int, start as int);
    while p < end
        invariant
            k < n,
            csc::is_csc(n as int, col_ptr@, row_idx@, values@.len() as int),
            parent@.len() == n,
            g == csc::pattern_graph(n as int, col_ptr@, row_idx@),
            graph::is_graph(n as int, g),
            forall|i: int|
                0 <= i < n ==> #[trigger] parent@[i] == symbolic::parent_index(n as int, g, i),
            start == col_ptr@[k as int],
            end == col_ptr@[k + 1],
            start <= p <= end <= values@.len(),
            climb@.len() == 0,
            col == csc::column(row_idx@, values@, k as int, start as int, p as int),
            model::is_column_of(g, k as int, col),
            flag@.len() == n,
            forall|i: int| 0 <= i < n ==> #[trigger] flag@[i] <= k || flag@[i] == usize::MAX,
            forall|i: int|
                0 <= i < n ==> (#[trigger] flag@[i] == k <==> i == k || reversed(stack@).contains(i)),
            reversed(stack@) == model::reach(n as int, g, k as int, col),
            y@.len() == n,
            forall|j: int| 0 <= j < n ==> #[trigger] y@[j] == csc::entry(col, j),
        decreases end - p,
    {
        let i: usize = row_idx[p];
        if i <= k {
            let ghost seen = reversed(stack@);
            let ghost next = col.push((i as int, values@[p as int]));
            proof {
                assert(next == csc::column(row_idx@, values@, k as int, start as int, p + 1));
                assert(next.drop_last() =~= col);
                if i < k {
                    assert(csc::stored(col_ptr@, row_idx@, i as int, k as int));
                    graph::lemma_fills(n as int, g, i as int, k as int);
                }
                assert forall|t: int| 0 <= t < next.len() implies 0 <= (#[trigger] next[t]).0 <= k
                    && (next[t].0 < k ==> g(next[t].0, k as int)) by {
                    if t < col.len() {
                        assert(next[t] == col[t]);
                    }
                }
                model::lemma_reach(n as int, g, k as int, col);
                assert forall|j: int| 0 <= j < n implies csc::entry(next, j) == if j == i {
                    T::plus_spec(csc::entry(col, j), values@[p as int])
                } else {
                    csc::entry(col, j)
                } by {
                    if j == i {
                        let vs = csc::values_at(next, j);
                        assert(vs.drop_last() =~= csc::values_at(col, j));
                    }
                }
            }
            let v: T = T::plus(y[i], values[p]);
            y.set(i, v);
            let mut ii: usize = i;
            let ghost whole = model::path(n as int, g, k as int, i as int, seen);
            proof {
                assert(ordering::ints(climb@) + whole =~= whole);
            }
            while flag[ii] != k
                invariant
                    k < n,
                    ii <= k,
                    ii < k ==> graph::fills(g, ii as int, k as int),
                    graph::is_graph(n as int, g),
                    parent@.len() == n,
                    forall|j: int|
                        0 <= j < n ==> #[trigger] parent@[j] == symbolic::parent_index(
                            n as int,
                            g,
                            j,
                        ),
                    flag@.len() == n,
                    forall|j: int|
                        0 <= j < n ==> #[trigger] flag@[j] <= k || flag@[j] == usize::MAX,
                    forall|j: int|
                        0 <= j < n ==> (#[trigger] flag@[j] == k <==> j == k || seen.contains(j)
                            || ordering::holds(climb@, j)),
                    forall|t: int| 0 <= t < climb@.len() ==> #[trigger] climb@[t] < ii,
                    ordering::ints(climb@) + model::path(
                        n as int,
                        g,
                        k as int,
                        ii as int,
                        seen,
                    ) == whole,
                decreases k - ii,
            {
                proof {
                    graph::lemma_parent_fills(n as int, g, ii as int, k as int);
                    graph::lemma_fills_bounds(n as int, g, ii as int, k as int);
                    ordering::lemma_holds_push(climb@, ii);
                    let rest = model::path(
                        n as int,
                        g,
                        k as int,
                        graph::parent(n as int, g, ii as int),
                        seen,
                    );
                    assert(ordering::ints(climb@.push(ii)) + rest =~= ordering::ints(climb@) + (
                    seq![ii as int] + rest));
                }
                climb.push(ii);
                flag.set(ii, k);
                ii = parent[ii];
            }
            let ghost climbed = climb@;
            proof {
                assert(model::path(n as int, g, k as int, ii as int, seen).len() == 0) by {
                    assert(flag@[ii as int] == k);
                    assert(!ordering::holds(climbed, ii as int));
                }
                assert(ordering::ints(climbed) =~= whole);
                assert(climbed.skip(climbed.len() as int) =~= Seq::<usize>::empty());
                assert(reversed(stack@) =~= ordering::ints(climbed.skip(climbed.len() as int))
                    + seen);
                assert(climbed.take(climbed.len() as int) =~= climbed);
            }
            while climb.len() > 0
                invariant
                    climb@.len() <= climbed.len(),
                    climb@ == climbed.take(climb@.len() as int),
                    reversed(stack@) == ordering::ints(climbed.skip(climb@.len() as int)) + seen,
                decreases climb@.len(),
            {
                let ghost m = climb@.len() as int;
                let ghost stack0 = stack@;
                let top = climb.pop();
                match top {
                    Some(node) => {
                        stack.push(node);
                        proof {
                            assert(node == climbed[m - 1]);
                            let w = ordering::ints(climbed.skip(m - 1)) + seen;
                            let w0 = ordering::ints(climbed.skip(m)) + seen;
                            assert(climbed.skip(m - 1) =~= seq![node] + climbed.skip(m));
                            assert(w =~= seq![node as int] + w0);
                            assert(reversed(stack@) =~= seq![node as int] + reversed(stack0));
                        }
                    },
                    None => {},
                }
            }
            proof {
                assert(climbed.skip(0) =~= climbed);
                assert(reversed(stack@) =~= whole + seen);
                let now = reversed(stack@);
                assert forall|j: int| 0 <= j < n implies (#[trigger] flag@[j] == k <==> j == k
                    || now.contains(j)) by {
                    if ordering::holds(climbed, j) {
                        let t = choose|t: int| 0 <= t < climbed.len() && #[trigger] climbed[t] == j;
                        assert(now[t] == j);
                    }
                    if seen.contains(j) {
                        let t = choose|t: int| 0 <= t < seen.len() && seen[t] == j;
                        assert(now[t + whole.len()] == j);
                    }
                    if now.contains(j) {
                        let t = choose|t: int| 0 <= t < now.len() && now[t] == j;
                        if t < whole.len() {
                            assert(climbed[t] == j);
                        } else {
                            assert(seen[t - whole.len()] == j);
                        }
                    }
                }
                col = next;
            }
        }
        p = p + 1;
    }
}

/// Two columns of `L` have no slot in common.
proof fn lemma_slots_differ(
    n: int,
    g: graph::Graph,
    starts: Seq<usize>,
    i: int,
    q: int,
    j: int,
    w: int,
)
    requires
        starts.len() == n + 1,
        forall|k: int| 0 <= k <= n ==> #[trigger] starts[k] == symbolic::fill_before(n, g, k),
        0 <= i < n,
        0 <= j < n,
        0 <= q < graph::column_fill(g, i, n),
        0 <= w < graph::column_fill(g, j, n),
        i != j,
    ensures
        starts[i] + q != starts[j] + w,
{
    if i < j {
        symbolic::lemma_slots(n, g, i, j);
    } else {
        symbolic::lemma_slots(n, g, j, i);
    }
}

/// The first `t` entries of row `k` stand behind the rows below `k` in their columns.
spec fn is_row_stored<T: Scalar>(
    g: graph::Graph,
    f: model::Factors<T>,
    k: int,
    pat: Seq<int>,
    sol: Seq<T>,
    t: int,
    starts: Seq<usize>,
    li: Seq<usize>,
    lx: Seq<T>,
) -> bool {
    forall|s: int|
        0 <= s < t ==> {
            let slot = starts[#[trigger] pat[s]] + symbolic::rows_of(g, pat[s], k).len();
            li[slot] == k && lx[slot] == T::over_spec(sol[s], f.pivots[pat[s]])
        }
}

/// Storing the next entry of the row leaves the other entries as they are.
proof fn lemma_store<T: Scalar>(
    n: int,
    g: graph::Graph,
    f: model::Factors<T>,
    k: int,
    pat: Seq<int>,
    sol: Seq<T>,
    t: int,
    starts: Seq<usize>,
    li: Seq<usize>,
    lx: Seq<T>,
)
    requires
        0 <= k < n <= usize::MAX,
        graph::is_graph(n, g),
        model::is_row_order(n, g, k, pat),
        0 <= t < pat.len(),
        starts.len() == n + 1,
        forall|i: int| 0 <= i <= n ==> #[trigger] starts[i] == symbolic::fill_before(n, g, i),
        is_layout(n, g, f, k, starts, li, lx),
        is_row_stored(g, f, k, pat, sol, t, starts, li, lx),
    ensures
        ({
            let slot = starts[pat[t]] + symbolic::rows_of(g, pat[t], k).len();
            let li1 = li.update(slot, k as usize);
            let lx1 = lx.update(slot, T::over_spec(sol[t], f.pivots[pat[t]]));
            &&& is_layout(n, g, f, k, starts, li1, lx1)
            &&& is_row_stored(g, f, k, pat, sol, t + 1, starts, li1, lx1)
        }),
{
    let i = pat[t];
    let slot = starts[i] + symbolic::rows_of(g, i, k).len();
    let li1 = li.update(slot, k as usize);
    let lx1 = lx.update(slot, T::over_spec(sol[t], f.pivots[i]));
    lemma_room(n, g, k, pat, starts, t);
    assert forall|j: int, q: int|
        0 <= j < n && 0 <= q < symbolic::rows_of(g, j, k).len() implies li1[starts[j] + q]
        == #[trigger] symbolic::rows_of(g, j, k)[q] && (f.lower)(symbolic::rows_of(g, j, k)[q], j)
        == Some(lx1[starts[j] + q]) by {
        symbolic::lemma_rows_of(g, j, k);
        graph::lemma_count_monotone(k, n, |r: int| graph::fills(g, j, r));
        symbolic::lemma_slots(n, g, j, n);
        assert(li[starts[j] + q] == symbolic::rows_of(g, j, k)[q]);
        if j != i {
            lemma_slots_differ(
                n,
                g,
                starts,
                j,
                q,
                i,
                symbolic::rows_of(g, i, k).len() as int,
            );
        }
    }
    assert forall|s: int| 0 <= s < t + 1 implies {
        let slot = starts[#[trigger] pat[s]] + symbolic::rows_of(g, pat[s], k).len();
        li1[slot] == k && lx1[slot] == T::over_spec(sol[s], f.pivots[pat[s]])
    } by {
        lemma_room(n, g, k, pat, starts, s);
        if s < t {
            assert(pat[s] != i);
            lemma_slots_differ(
                n,
                g,
                starts,
                pat[s],
                symbolic::rows_of(g, pat[s], k).len() as int,
                i,
                symbolic::rows_of(g, i, k).len() as int,
            );
        }
    }
}

/// A column of row `k` has a slot left for it.
proof fn lemma_room(
    n: int,
    g: graph::Graph,
    k: int,
    pat: Seq<int>,
    starts: Seq<usize>,
    t: int,
)
    requires
        0 <= k < n,
        graph::is_graph(n, g),
        model::is_row_order(n, g, k, pat),
        0 <= t < pat.len(),
        starts.len() == n + 1,
        forall|i: int| 0 <= i <= n ==> #[trigger] starts[i] == symbolic::fill_before(n, g, i),
    ensures
        0 <= pat[t] < k,
        symbolic::rows_of(g, pat[t], k).len() < graph::column_fill(g, pat[t], n),
        starts[pat[t]] + symbolic::rows_of(g, pat[t], k).len() < starts[n],
{
    let i = pat[t];
    assert(graph::fills(g, i, k));
    symbolic::lemma_rows_of(g, i, k);
    symbolic::lemma_rows_of(g, i, k + 1);
    symbolic::lemma_slots(n, g, i, n);
    graph::lemma_count_monotone(k + 1, n, |r: int| graph::fills(g, i, r));
}

/// Subtracting the column of the next node of the row makes every row gather one value more.
proof fn lemma_subtracted<T: Scalar>(
    n: int,
    g: graph::Graph,
    f: model::Factors<T>,
    k: int,
    col: Seq<(int, T)>,
    pat: Seq<int>,
    sol: Seq<T>,
    t: int,
    y0: Seq<T>,
    y: Seq<T>,
    li: Seq<usize>,
    lx: Seq<T>,
    start: int,
)
    requires
        graph::is_graph(n, g),
        0 <= k < n,
        model::is_row_order(n, g, k, pat),
        0 <= t < pat.len(),
        forall|r: int, i: int|
            (#[trigger] (f.lower)(r, i)) is Some <==> r < k && graph::fills(g, i, r),
        y0.len() == n,
        y.len() == n,
        sol[t] == y0[pat[t]],
        forall|j: int|
            0 <= j < n ==> #[trigger] y0[j] == (if j < k && !pat.take(t).contains(j) {
                model::gather(f, col, pat, sol, j, t)
            } else {
                T::of_u64_spec(0)
            }),
        forall|q: int|
            0 <= q < symbolic::rows_of(g, pat[t], k).len() ==> li[start + q]
                == #[trigger] symbolic::rows_of(g, pat[t], k)[q] && (f.lower)(
                symbolic::rows_of(g, pat[t], k)[q],
                pat[t],
            ) == Some(lx[start + q]),
        forall|p: int|
            start <= p < start + symbolic::rows_of(g, pat[t], k).len() ==> y[#[trigger] li[p] as int]
                == T::minus_spec(
                y0.update(pat[t], T::of_u64_spec(0))[li[p] as int],
                T::times_spec(lx[p], sol[t]),
            ),
        forall|j: int|
            0 <= j < n && (forall|p: int|
                start <= p < start + symbolic::rows_of(g, pat[t], k).len() ==> #[trigger] li[p]
                    != j) ==> #[trigger] y[j] == y0.update(pat[t], T::of_u64_spec(0))[j],
    ensures
        forall|j: int|
            0 <= j < n ==> #[trigger] y[j] == (if j < k && !pat.take(t + 1).contains(j) {
                model::gather(f, col, pat, sol, j, t + 1)
            } else {
                T::of_u64_spec(0)
            }),
{
    let i = pat[t];
    let rows = symbolic::rows_of(g, i, k);
    let zero = T::of_u64_spec(0);
    let seen = pat.take(t);
    let seen1 = pat.take(t + 1);
    symbolic::lemma_rows_of(g, i, k);
    assert(graph::fills(g, i, k));
    lemma_take_step(pat, t);
    let v0 = y0.update(i, zero);
    assert forall|j: int| 0 <= j < n implies #[trigger] y[j] == (if j < k && !seen1.contains(j) {
        model::gather(f, col, pat, sol, j, t + 1)
    } else {
        zero
    }) by {
        if j < k && graph::fills(g, i, j) {
            assert(rows.contains(j));
            let q = choose|q: int| 0 <= q < rows.len() && rows[q] == j;
            assert(li[start + q] == rows[q]);
            let s = model::lemma_row_order_ascends(n, g, k, pat, t, j);
            assert(!seen1.contains(j)) by {
                if seen1.contains(j) {
                    let w = choose|w: int| 0 <= w < seen1.len() && seen1[w] == j;
                    assert(pat[w] == pat[s]);
                }
            }
            assert(y[j] == T::minus_spec(v0[j], T::times_spec(lx[start + q], sol[t])));
        } else {
            assert((f.lower)(j, i) is None);
            assert forall|p: int| start <= p < start + rows.len() implies #[trigger] li[p] != j by {
                assert(li[start + (p - start)] == rows[p - start]);
                assert(graph::fills(g, i, rows[p - start]));
            }
            assert(y[j] == v0[j]);
        }
    }
}

proof fn lemma_take_step(pat: Seq<int>, t: int)
    requires
        0 <= t < pat.len(),
        pat.no_duplicates(),
    ensures
        !pat.take(t).contains(pat[t]),
        forall|j: int| #[trigger]
            pat.take(t + 1).contains(j) <==> pat.take(t).contains(j) || j == pat[t],
{
    let seen = pat.take(t);
    let seen1 = pat.take(t + 1);
    if seen.contains(pat[t]) {
        let s = choose|s: int| 0 <= s < seen.len() && seen[s] == pat[t];
        assert(pat[s] == pat[t]);
    }
    assert forall|j: int| #[trigger] seen1.contains(j) <==> seen.contains(j) || j == pat[t] by {
        if seen.contains(j) {
            let s = choose|s: int| 0 <= s < seen.len() && seen[s] == j;
            assert(seen1[s] == j);
        }
        if seen1.contains(j) {
            let s = choose|s: int| 0 <= s < seen1.len() && seen1[s] == j;
            if s < t {
                assert(seen[s] == j);
            }
        }
        if j == pat[t] {
            assert(seen1[t] == j);
        }
    }
}

/// Computes row `k` of `L`, appends its entries to their columns, and returns the pivot.
pub(crate) fn eliminate_row<T: Scalar>(
    n: usize,
    k: usize,
    starts: &Vec<usize>,
    stack: &Vec<usize>,
    d: &Vec<T>,
    li: &mut Vec<usize>,
    lx: &mut Vec<T>,
    used: &mut Vec<usize>,
    y: &mut Vec<T>,
    Ghost(a): Ghost<Seq<Seq<(int, T)>>>,
) -> (pivot: T)
    requires
        k < n,
        a.len() == n,
        csc::is_upper(a),
        starts@.len() == n + 1,
        forall|i: int|
            0 <= i <= n ==> #[trigger] starts@[i] == symbolic::fill_before(
                n as int,
                csc::graph_of(a),
                i,
            ),
        reversed(stack@) == model::row_order(a, k as int),
        d@ == model::factors(a, k as int).pivots,
        old(used)@.len() == n,
        forall|i: int|
            0 <= i < n ==> #[trigger] old(used)@[i] == graph::column_fill(
                csc::graph_of(a),
                i,
                k as int,
            ),
        is_layout(
            n as int,
            csc::graph_of(a),
            model::factors(a, k as int),
            k as int,
            starts@,
            old(li)@,
            old(lx)@,
        ),
        old(y)@.len() == n,
        forall|j: int| 0 <= j < n ==> #[trigger] old(y)@[j] == csc::entry(a[k as int], j),
    ensures
        d@.push(pivot) == model::factors(a, k + 1).pivots,
        final(used)@.len() == n,
        forall|i: int|
            0 <= i < n ==> #[trigger] final(used)@[i] == graph::column_fill(
                csc::graph_of(a),
                i,
                k + 1,
            ),
        is_layout(
            n as int,
            csc::graph_of(a),
            model::factors(a, k + 1),
            k + 1,
            starts@,
            final(li)@,
            final(lx)@,
        ),
        final(y)@.len() == n,
        forall|j: int| 0 <= j < n ==> #[trigger] final(y)@[j] == T::of_u64_spec(0),
{
    let ghost g = csc::graph_of(a);
    let ghost col = a[k as int];
    let ghost f = model::factors(a, k as int);
    let ghost pat = model::row_order(a, k as int);
    let ghost m = pat.len() as int;
    let ghost sol = model::work(f, col, pat, m);
    let ghost zero = T::of_u64_spec(0);
    proof {
        model::lemma_row_order(a, k as int);
        model::lemma_factors_shape(a, k as int);
        model::lemma_work(f, col, pat, m);
        assert forall|i: int, r: int| #![trigger graph::column_fill(g, i, r)] true implies
            graph::column_fill(g, i, r) == symbolic::rows_of(g, i, r).len() by {
            symbolic::lemma_rows_of(g, i, r);
        }
        assert forall|j: int| 0 <= j < n implies #[trigger] y@[j] == (if j <= k {
            csc::entry(col, j)
        } else {
            zero
        }) by {
            if j > k {
                lemma_no_entry(col, j);
            }
        }
    }
    let mut pivot: T = y[k];
    y.set(k, T::of_u64(0));
    let mut t: usize = 0;
    while t < stack.len()
        invariant
            k < n,
            a.len() == n,
            csc::is_upper(a),
            g == csc::graph_of(a),
            graph::is_graph(n as int, g),
            col == a[k as int],
            f == model::factors(a, k as int),
            f.pivots.len() == k,
            d@ == f.pivots,
            forall|r: int, i: int|
                (#[trigger] (f.lower)(r, i)) is Some <==> r < k && graph::fills(g, i, r),
            pat == reversed(stack@),
            pat == model::row_order(a, k as int),
            m == pat.len(),
            model::is_row_order(n as int, g, k as int, pat),
            forall|i: int| #[trigger] pat.contains(i) <==> graph::fills(g, i, k as int),
            sol == model::work(f, col, pat, m),
            zero == T::of_u64_spec(0),
            t <= m,
            starts@.len() == n + 1,
            forall|i: int|
                0 <= i <= n ==> #[trigger] starts@[i] == symbolic::fill_before(n as int, g, i),
            is_layout(n as int, g, f, k as int, starts@, li@, lx@),
            used@.len() == n,
            forall|i: int|
                0 <= i < n ==> #[trigger] used@[i] == symbolic::rows_of(g, i, k as int).len() + (
                if pat.take(t as int).contains(i) {
                    1int
                } else {
                    0
                }),
            is_row_stored(g, f, k as int, pat, sol, t as int, starts@, li@, lx@),
            y@.len() == n,
            forall|j: int|
                0 <= j < n ==> #[trigger] y@[j] == (if j < k && !pat.take(t as int).contains(j) {
                    model::gather(f, col, pat, sol, j, t as int)
                } else {
                    zero
                }),
            pivot == model::pivot(f, col, pat, sol, k as int, t as int),
        decreases m - t,
    {
        let i: usize = stack[stack.len() - 1 - t];
        let ghost y0 = y@;
        let ghost li0 = li@;
        let ghost lx0 = lx@;
        let ghost used0 = used@;
        let ghost seen = pat.take(t as int);
        let ghost seen1 = pat.take(t + 1);
        let ghost rows = symbolic::rows_of(g, i as int, k as int);
        proof {
            assert(pat[t as int] == i);
            assert(graph::fills(g, i as int, k as int));
            lemma_take_step(pat, t as int);
            model::lemma_work(f, col, pat, m);
            assert(y@[i as int] == sol[t as int]);
            symbolic::lemma_rows_of(g, i as int, k as int);
            lemma_room(n as int, g, k as int, pat, starts@, t as int);
        }
        let yi: T = y[i];
        y.set(i, T::of_u64(0));
        let start: usize = starts[i];
        let count: usize = used[i];
        let slot: usize = start + count;
        proof {
            assert forall|p: int| start <= p < slot implies #[trigger] li@[p] == rows[p - start]
                && (f.lower)(rows[p - start], i as int) == Some(lx@[p]) by {
                assert(li@[starts@[i as int] + (p - start)] == symbolic::rows_of(
                    g,
                    i as int,
                    k as int,
                )[p - start]);
            }
        }
        subtract_column(y, li, lx, start, slot, yi);
        let l: T = T::over(yi, d[i]);
        pivot = T::minus(pivot, T::times(l, yi));
        li.set(slot, k);
        lx.set(slot, l);
        used.set(i, count + 1);
        proof {
            lemma_subtracted(
                n as int,
                g,
                f,
                k as int,
                col,
                pat,
                sol,
                t as int,
                y0,
                y@,
                li0,
                lx0,
                start as int,
            );
            assert forall|j: int| 0 <= j < n implies #[trigger] used@[j] == symbolic::rows_of(
                g,
                j,
                k as int,
            ).len() + (if seen1.contains(j) {
                1int
            } else {
                0
            }) by {
                assert(used0[j] == symbolic::rows_of(g, j, k as int).len() + (if seen.contains(j) {
                    1int
                } else {
                    0
                }));
            }
            lemma_store(
                n as int,
                g,
                f,
                k as int,
                pat,
                sol,
                t as int,
                starts@,
                li0,
                lx0,
            );
        }
        t = t + 1;
    }
    proof {
        let h = model::factors(a, k + 1);
        assert(pat.take(t as int) =~= pat);
        assert forall|i: int| 0 <= i < n implies #[trigger] used@[i] == graph::column_fill(
            g,
            i,
            k + 1,
        ) by {
            symbolic::lemma_rows_of(g, i, k as int);
            assert(pat.contains(i) <==> graph::fills(g, i, k as int));
        }
        assert forall|i: int, q: int|
            0 <= i < n && 0 <= q < symbolic::rows_of(g, i, k + 1).len() implies li@[starts@[i] + q]
            == #[trigger] symbolic::rows_of(g, i, k + 1)[q] && (h.lower)(
            symbolic::rows_of(g, i, k + 1)[q],
            i,
        ) == Some(lx@[starts@[i] + q]) by {
            let rows = symbolic::rows_of(g, i, k as int);
            let r = symbolic::rows_of(g, i, k + 1)[q];
            if q < rows.len() {
                symbolic::lemma_rows_of(g, i, k as int);
                assert(r == rows[q]);
                assert((h.lower)(r, i) == (f.lower)(r, i));
            } else {
                assert(graph::fills(g, i, k as int));
                assert(pat.contains(i));
                let s = choose|s: int| 0 <= s < pat.len() && pat[s] == i;
                let w = pat.index_of(i);
                assert(0 <= w < pat.len() && pat[w] == i);
                assert(s == w);
                assert(li@[starts@[pat[s]] + rows.len()] == k);
            }
        }
        assert forall|j: int| 0 <= j < n implies #[trigger] y@[j] == zero by {
            if j < k && !pat.contains(j) {
                lemma_idle_row(a, k as int, j, m);
            }
        }
    }
    pivot
}

/// A row that a column does not name has the entry zero.
proof fn lemma_no_entry<T: Scalar>(col: Seq<(int, T)>, j: int)
    requires
        forall|t: int| 0 <= t < col.len() ==> (#[trigger] col[t]).0 != j,
    ensures
        csc::entry(col, j) == T::of_u64_spec(0),
{
    if csc::values_at(col, j).len() > 0 {
        model::lemma_values_at_row(col, j);
    }
}

/// A node that is not of row `k` gathers nothing.
proof fn lemma_idle_row<T: Scalar>(a: Seq<Seq<(int, T)>>, k: int, j: int, t: int)
    requires
        csc::is_upper(a),
        0 <= k < a.len(),
        0 <= j < k,
        !graph::fills(csc::graph_of(a), j, k),
        0 <= t <= model::row_order(a, k).len(),
    ensures
        model::gather(
            model::factors(a, k),
            a[k],
            model::row_order(a, k),
            model::work(
                model::factors(a, k),
                a[k],
                model::row_order(a, k),
                model::row_order(a, k).len() as int,
            ),
            j,
            t,
        ) == T::of_u64_spec(0),
    decreases t,
{
    let n = a.len() as int;
    let g = csc::graph_of(a);
    let pat = model::row_order(a, k);
    model::lemma_row_order(a, k);
    if t == 0 {
        graph::lemma_fills(n, g, j, k);
        assert(!g(j, k));
    } else {
        lemma_idle_row(a, k, j, t - 1);
        model::lemma_factors_shape(a, k);
        assert(graph::fills(g, pat[t - 1], k));
        if graph::fills(g, pat[t - 1], j) {
            graph::lemma_fills_join(n, g, pat[t - 1], j, k);
        }
        assert((model::factors(a, k).lower)(j, pat[t - 1]) is None);
    }
}

} // verus!
