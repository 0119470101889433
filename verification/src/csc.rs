//! Symmetric matrices in compressed columns, and what they stand for.
//!
//! Column `k` occupies the indices `col_ptr[k]..col_ptr[k + 1]` of the parallel arrays `row_idx`
//! and `values`. Only the upper triangle counts: of column `k` the entries in the rows `0..=k`, in
//! the order in which they are stored. That is the matrix as the contracts see it ([`upper`]): a
//! sequence of columns, each a sequence of pairs of a row and a value. Entries that are stored
//! more than once are summed.
use vstd::prelude::*;

use crate::graph;
use crate::scalar::Scalar;

verus! {

/// Column `k` of the compressed columns stores an entry in row `j`.
pub open spec fn stored(col_ptr: Seq<usize>, row_idx: Seq<usize>, j: int, k: int) -> bool {
    exists|p: int| col_ptr[k] <= p < col_ptr[k + 1] && #[trigger] row_idx[p] == j
}

/// The graph of the symmetric matrix whose upper triangle the compressed columns store: two
/// nodes are neighbours where the column of the larger one stores the row of the smaller one.
pub open spec fn pattern_graph(n: int, col_ptr: Seq<usize>, row_idx: Seq<usize>) -> graph::Graph {
    |u: int, v: int|
        {
            &&& 0 <= u < n
            &&& 0 <= v < n
            &&& u != v
            &&& if u < v {
                stored(col_ptr, row_idx, u, v)
            } else {
                stored(col_ptr, row_idx, v, u)
            }
        }
}

pub proof fn lemma_pattern_graph(n: int, col_ptr: Seq<usize>, row_idx: Seq<usize>)
    ensures
        graph::is_graph(n, pattern_graph(n, col_ptr, row_idx)),
{
    let g = pattern_graph(n, col_ptr, row_idx);
    assert forall|u: int, v: int| #[trigger] g(u, v) implies 0 <= u < n && 0 <= v < n && u != v
        && g(v, u) by {}
}

/// The entries at the indices `lo..hi` that lie in the rows up to `k`, in storage order.
pub open spec fn column<T>(row_idx: Seq<usize>, values: Seq<T>, k: int, lo: int, hi: int) -> Seq<
    (int, T),
>
    decreases hi - lo,
{
    if hi <= lo {
        Seq::empty()
    } else {
        let rest = column(row_idx, values, k, lo, hi - 1);
        if row_idx[hi - 1] <= k {
            rest.push((row_idx[hi - 1] as int, values[hi - 1]))
        } else {
            rest
        }
    }
}

/// The upper triangle that the compressed columns store.
pub open spec fn upper<T>(
    n: int,
    col_ptr: Seq<usize>,
    row_idx: Seq<usize>,
    values: Seq<T>,
) -> Seq<Seq<(int, T)>> {
    Seq::new(
        n as nat,
        |k: int| column(row_idx, values, k, col_ptr[k] as int, col_ptr[k + 1] as int),
    )
}

/// The values that a column stores in row `j`, in storage order.
pub open spec fn values_at<T>(col: Seq<(int, T)>, j: int) -> Seq<T>
    decreases col.len(),
{
    if col.len() == 0 {
        Seq::empty()
    } else {
        let rest = values_at(col.drop_last(), j);
        if col.last().0 == j {
            rest.push(col.last().1)
        } else {
            rest
        }
    }
}

/// `z` and the values of `s`, added from left to right.
pub open spec fn sum_from<T: Scalar>(z: T, s: Seq<T>) -> T
    decreases s.len(),
{
    if s.len() == 0 {
        z
    } else {
        T::plus_spec(sum_from(z, s.drop_last()), s.last())
    }
}

/// The matrix entry in row `j` of a column: all that is stored there, summed.
pub open spec fn entry<T: Scalar>(col: Seq<(int, T)>, j: int) -> T {
    sum_from(T::of_u64_spec(0), values_at(col, j))
}

/// The rows of column `k` are among `0..=k`.
pub open spec fn is_upper<T>(a: Seq<Seq<(int, T)>>) -> bool {
    forall|k: int, t: int|
        0 <= k < a.len() && 0 <= t < a[k].len() ==> 0 <= (#[trigger] a[k][t]).0 <= k
}

/// The graph of the matrix: two nodes are neighbours where an entry is stored for them.
pub open spec fn graph_of<T>(a: Seq<Seq<(int, T)>>) -> graph::Graph {
    |u: int, v: int|
        {
            &&& 0 <= u < a.len()
            &&& 0 <= v < a.len()
            &&& u != v
            &&& if u < v {
                values_at(a[v], u).len() > 0
            } else {
                values_at(a[u], v).len() > 0
            }
        }
}

/// The largest magnitude of the first `k` diagonal entries; zero where there is none.
pub open spec fn scale<T: Scalar>(a: Seq<Seq<(int, T)>>, k: int) -> T
    decreases k,
{
    if k <= 0 {
        T::of_u64_spec(0)
    } else {
        T::larger_spec(scale(a, k - 1), T::magnitude_spec(entry(a[k - 1], k - 1)))
    }
}

/// The arrays describe the columns of a matrix of order `n`.
pub open spec fn is_csc(n: int, col_ptr: Seq<usize>, row_idx: Seq<usize>, len: int) -> bool {
    &&& n >= 0
    &&& col_ptr.len() == n + 1
    &&& row_idx.len() == len
    &&& col_ptr[n] == row_idx.len()
    &&& forall|k: int| 0 <= k < n ==> #[trigger] col_ptr[k] <= col_ptr[k + 1]
    &&& forall|p: int| 0 <= p < row_idx.len() ==> #[trigger] row_idx[p] < n
}

/// What is wrong with the arrays, `None` where nothing is: the first of the reasons below that
/// applies.
pub open spec fn defect<T: Scalar>(
    n: int,
    col_ptr: Seq<usize>,
    row_idx: Seq<usize>,
    values: Seq<T>,
) -> Option<Seq<char>> {
    if col_ptr.len() != n + 1 {
        Some("col_ptr length must be n + 1"@)
    } else if row_idx.len() != values.len() {
        Some("row_idx and values length mismatch"@)
    } else if col_ptr[n] != row_idx.len() {
        Some("col_ptr[n] must equal the nonzero count"@)
    } else if exists|k: int| 0 <= k < n && #[trigger] col_ptr[k] > col_ptr[k + 1] {
        Some("col_ptr must be non-decreasing"@)
    } else if exists|p: int| 0 <= p < row_idx.len() && #[trigger] row_idx[p] >= n {
        Some("row index out of range"@)
    } else if exists|p: int| 0 <= p < values.len() && !T::is_finite_spec(#[trigger] values[p]) {
        Some("values contain a non-finite entry (NaN or infinity)"@)
    } else {
        None
    }
}

/// Looks for a defect of the arrays.
pub(crate) fn find_defect<T: Scalar>(
    n: usize,
    col_ptr: &[usize],
    row_idx: &[usize],
    values: &[T],
) -> (r: Option<&'static str>)
    ensures
        defect(n as int, col_ptr@, row_idx@, values@) == (match r {
            Some(m) => Some(m@),
            None => None,
        }),
{
    if col_ptr.len() == 0 || col_ptr.len() - 1 != n {
        return Some("col_ptr length must be n + 1");
    }
    if row_idx.len() != values.len() {
        return Some("row_idx and values length mismatch");
    }
    if col_ptr[n] != row_idx.len() {
        return Some("col_ptr[n] must equal the nonzero count");
    }
    let mut k: usize = 0;
    while k < n
        invariant
            k <= n,
            col_ptr@.len() == n + 1,
            row_idx@.len() == values@.len(),
            col_ptr@[n as int] == row_idx@.len(),
            forall|j: int| 0 <= j < k ==> #[trigger] col_ptr@[j] <= col_ptr@[j + 1],
        decreases n - k,
    {
        if col_ptr[k] > col_ptr[k + 1] {
            return Some("col_ptr must be non-decreasing");
        }
        k = k + 1;
    }
    let mut p: usize = 0;
    while p < row_idx.len()
        invariant
            p <= row_idx@.len(),
            col_ptr@.len() == n + 1,
            row_idx@.len() == values@.len(),
            col_ptr@[n as int] == row_idx@.len(),
            forall|j: int| 0 <= j < n ==> #[trigger] col_ptr@[j] <= col_ptr@[j + 1],
            forall|q: int| 0 <= q < p ==> #[trigger] row_idx@[q] < n,
        decreases row_idx@.len() - p,
    {
        if row_idx[p] >= n {
            return Some("row index out of range");
        }
        p = p + 1;
    }
    let mut q: usize = 0;
    while q < values.len()
        invariant
            q <= values@.len(),
            col_ptr@.len() == n + 1,
            row_idx@.len() == values@.len(),
            col_ptr@[n as int] == row_idx@.len(),
            forall|j: int| 0 <= j < n ==> #[trigger] col_ptr@[j] <= col_ptr@[j + 1],
            forall|j: int| 0 <= j < row_idx@.len() ==> #[trigger] row_idx@[j] < n,
            forall|j: int| 0 <= j < q ==> T::is_finite_spec(#[trigger] values@[j]),
        decreases values@.len() - q,
    {
        if !T::is_finite(values[q]) {
            return Some("values contain a non-finite entry (NaN or infinity)");
        }
        q = q + 1;
    }
    None
}

pub proof fn lemma_no_defect<T: Scalar>(
    n: int,
    col_ptr: Seq<usize>,
    row_idx: Seq<usize>,
    values: Seq<T>,
)
    requires
        n >= 0,
        defect(n, col_ptr, row_idx, values) is None,
    ensures
        is_csc(n, col_ptr, row_idx, values.len() as int),
        forall|p: int| 0 <= p < values.len() ==> T::is_finite_spec(#[trigger] values[p]),
{
}

/// Some value is not finite.
pub open spec fn has_overflow<T: Scalar>(values: Seq<T>) -> bool {
    exists|p: int| 0 <= p < values.len() && !T::is_finite_spec(#[trigger] values[p])
}

/// Nothing is wrong with arrays that describe columns but that a value may not be finite.
pub proof fn lemma_defect_of_columns<T: Scalar>(
    n: int,
    col_ptr: Seq<usize>,
    row_idx: Seq<usize>,
    values: Seq<T>,
)
    requires
        is_csc(n, col_ptr, row_idx, values.len() as int),
    ensures
        defect(n, col_ptr, row_idx, values) == if has_overflow(values) {
            Some("values contain a non-finite entry (NaN or infinity)"@)
        } else {
            None
        },
{
}

/// The column starts ascend.
pub proof fn lemma_column_starts(n: int, col_ptr: Seq<usize>, row_idx: Seq<usize>, len: int, j: int, k: int)
    requires
        is_csc(n, col_ptr, row_idx, len),
        0 <= j <= k <= n,
    ensures
        col_ptr[j] <= col_ptr[k] <= len,
    decreases n - j,
{
    if j < k {
        lemma_column_starts(n, col_ptr, row_idx, len, j + 1, k);
    } else if k < n {
        lemma_column_starts(n, col_ptr, row_idx, len, k + 1, n);
    }
}

/// A column stores a value in row `j` exactly where one of its indices names the row `j`.
pub proof fn lemma_column_stored<T>(
    row_idx: Seq<usize>,
    values: Seq<T>,
    k: int,
    lo: int,
    hi: int,
    j: int,
)
    requires
        j <= k,
    ensures
        values_at(column(row_idx, values, k, lo, hi), j).len() > 0 <==> exists|p: int|
            lo <= p < hi && #[trigger] row_idx[p] == j,
    decreases hi - lo,
{
    if lo < hi {
        let rest = column(row_idx, values, k, lo, hi - 1);
        lemma_column_stored(row_idx, values, k, lo, hi - 1, j);
        if row_idx[hi - 1] <= k {
            assert(column(row_idx, values, k, lo, hi).drop_last() =~= rest);
        }
        if exists|p: int| lo <= p < hi - 1 && #[trigger] row_idx[p] == j {
            let p = choose|p: int| lo <= p < hi - 1 && #[trigger] row_idx[p] == j;
            assert(row_idx[p] == j);
        }
        if row_idx[hi - 1] == j {
            assert(exists|p: int| lo <= p < hi && #[trigger] row_idx[p] == j);
        }
    }
}

/// The graph of the matrix is the graph of its pattern.
pub proof fn lemma_graph_of_upper<T>(
    n: int,
    col_ptr: Seq<usize>,
    row_idx: Seq<usize>,
    values: Seq<T>,
)
    requires
        n >= 0,
    ensures
        graph_of(upper(n, col_ptr, row_idx, values)) == pattern_graph(n, col_ptr, row_idx),
{
    let a = upper(n, col_ptr, row_idx, values);
    let g = pattern_graph(n, col_ptr, row_idx);
    assert forall|u: int, v: int| #[trigger] graph_of(a)(u, v) == g(u, v) by {
        if 0 <= u < n && 0 <= v < n && u != v {
            let lo = if u < v { u } else { v };
            let hi = if u < v { v } else { u };
            lemma_column_stored(
                row_idx,
                values,
                hi,
                col_ptr[hi] as int,
                col_ptr[hi + 1] as int,
                lo,
            );
        }
    }
    assert(graph_of(a) =~= g);
}

pub proof fn lemma_graph_of<T>(a: Seq<Seq<(int, T)>>)
    ensures
        graph::is_graph(a.len() as int, graph_of(a)),
{
    let g = graph_of(a);
    assert forall|u: int, v: int| #[trigger] g(u, v) implies 0 <= u < a.len() && 0 <= v < a.len()
        && u != v && g(v, u) by {}
}

/// A value that a column stores at one of its entries is one of those in the entry's row.
pub proof fn lemma_values_at_nonempty<T>(col: Seq<(int, T)>, t: int)
    requires
        0 <= t < col.len(),
    ensures
        values_at(col, col[t].0).len() > 0,
    decreases col.len(),
{
    if t < col.len() - 1 {
        lemma_values_at_nonempty(col.drop_last(), t);
    }
}

pub proof fn lemma_column_rows<T>(row_idx: Seq<usize>, values: Seq<T>, k: int, lo: int, hi: int)
    ensures
        forall|t: int|
            0 <= t < column(row_idx, values, k, lo, hi).len() ==> 0 <= (#[trigger] column(
                row_idx,
                values,
                k,
                lo,
                hi,
            )[t]).0 <= k,
    decreases hi - lo,
{
    if lo < hi {
        lemma_column_rows(row_idx, values, k, lo, hi - 1);
        let rest = column(row_idx, values, k, lo, hi - 1);
        let col = column(row_idx, values, k, lo, hi);
        assert forall|t: int| 0 <= t < col.len() implies 0 <= (#[trigger] col[t]).0 <= k by {
            if t < rest.len() {
                assert(col[t] == rest[t]);
            }
        }
    }
}

pub proof fn lemma_upper_is_upper<T>(
    n: int,
    col_ptr: Seq<usize>,
    row_idx: Seq<usize>,
    values: Seq<T>,
)
    requires
        n >= 0,
    ensures
        is_upper(upper(n, col_ptr, row_idx, values)),
{
    let a = upper(n, col_ptr, row_idx, values);
    assert forall|k: int, t: int| 0 <= k < a.len() && 0 <= t < a[k].len() implies 0 <= (
    #[trigger] a[k][t]).0 <= k by {
        lemma_column_rows(row_idx, values, k, col_ptr[k] as int, col_ptr[k + 1] as int);
    }
}

/// One more index of a column adds its value to the entry of its row.
pub proof fn lemma_entry_step<T: Scalar>(
    row_idx: Seq<usize>,
    values: Seq<T>,
    k: int,
    lo: int,
    p: int,
    j: int,
)
    requires
        lo <= p,
        j <= k,
    ensures
        entry(column(row_idx, values, k, lo, p + 1), j) == if row_idx[p] == j {
            T::plus_spec(entry(column(row_idx, values, k, lo, p), j), values[p])
        } else {
            entry(column(row_idx, values, k, lo, p), j)
        },
{
    let col = column(row_idx, values, k, lo, p);
    let next = column(row_idx, values, k, lo, p + 1);
    if row_idx[p] <= k {
        assert(next.drop_last() =~= col);
        if row_idx[p] == j {
            assert(values_at(next, j).drop_last() =~= values_at(col, j));
        }
    }
}

/// The largest magnitude of a diagonal entry, entries that are stored more than once being summed
/// as the factorization sums them. Zero where the matrix stores no diagonal at all.
pub(crate) fn diagonal_scale<T: Scalar>(
    n: usize,
    col_ptr: &[usize],
    row_idx: &[usize],
    values: &[T],
) -> (r: T)
    requires
        is_csc(n as int, col_ptr@, row_idx@, values@.len() as int),
    ensures
        r == scale(upper(n as int, col_ptr@, row_idx@, values@), n as int),
{
    let ghost a = upper(n as int, col_ptr@, row_idx@, values@);
    let mut r: T = T::of_u64(0);
    let mut k: usize = 0;
    while k < n
        invariant
            k <= n,
            is_csc(n as int, col_ptr@, row_idx@, values@.len() as int),
            a == upper(n as int, col_ptr@, row_idx@, values@),
            r == scale(a, k as int),
        decreases n - k,
    {
        let start: usize = col_ptr[k];
        let end: usize = col_ptr[k + 1];
        proof {
            lemma_column_starts(
                n as int,
                col_ptr@,
                row_idx@,
                values@.len() as int,
                k as int,
                k + 1,
            );
        }
        let mut dk: T = T::of_u64(0);
        let mut p: usize = start;
        while p < end
            invariant
                start <= p <= end <= values@.len(),
                row_idx@.len() == values@.len(),
                dk == entry(column(row_idx@, values@, k as int, start as int, p as int), k as int),
            decreases end - p,
        {
            proof {
                lemma_entry_step(row_idx@, values@, k as int, start as int, p as int, k as int);
            }
            if row_idx[p] == k {
                dk = T::plus(dk, values[p]);
            }
            p = p + 1;
        }
        r = T::larger(r, T::magnitude(dk));
        k = k + 1;
    }
    r
}

} // verus!
